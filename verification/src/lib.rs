//! Verified core of a tool that reads a dump of a game's il2cpp type
//! database and its executable, finds singleton globals, and describes
//! the types as PDB type records.
use vstd::prelude::*;

pub mod text;
pub mod num;
pub mod pdb;
pub mod strmap;
pub mod il2cpp;
pub mod util;
pub mod traversal;
pub mod analyzer;
pub mod enums;

verus! {
} // verus!
