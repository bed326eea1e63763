//! The il2cpp type database: types, fields, methods and their flags, and
//! how they are described as PDB type records (struct layouts, virtual
//! tables, function signatures).
use vstd::prelude::*;

use crate::pdb::{lemma_tys_view, ty_view, CallingConvention, PDBFunction, PDBType, PdbTy, SimpleTypeKind, StructField, StructFieldV, sort_by_offset, sort_fields_by_offset, struct_field_views};
use crate::strmap::{key_index, keys_distinct, lemma_key_index, map_get, StrMap};
use crate::text::{chars_of, extend_chars, str_eq, string_of};
use crate::util::{sanitize_member_prefix, sanitized};

verus! {

/// The type database: type name to type, in the order the dump lists them.
pub type Il2Cpp = StrMap<REType>;

/// The database is consistent, and so is each of its types.
pub open spec fn db_wf(il2cpp: &Il2Cpp) -> bool {
    &&& il2cpp.wf()
    &&& forall|i: int| 0 <= i < il2cpp@.len() ==> (#[trigger] il2cpp@[i]).1.wf()
}

/// Whether no two strings of `v` are equal.
fn strings_distinct(v: &Vec<String>) -> (b: bool)
    ensures
        b == (forall|i: int, j: int| 0 <= i < j < v@.len() ==> v@[i]@ != v@[j]@),
{
    for j in 0..v.len()
        invariant
            forall|a: int, b: int| 0 <= a < b < j ==> v@[a]@ != v@[b]@,
    {
        for i in 0..j
            invariant
                j < v@.len(),
                forall|a: int, b: int| 0 <= a < b < j ==> v@[a]@ != v@[b]@,
                forall|a: int| 0 <= a < i ==> v@[a]@ != v@[j as int]@,
        {
            if str_eq(v[i].as_str(), v[j].as_str()) {
                return false;
            }
        }
    }
    true
}

/// Whether every type of the database has distinct field, method and
/// property names.
pub fn db_is_wf(il2cpp: &Il2Cpp) -> (b: bool)
    requires
        il2cpp.wf(),
    ensures
        b == db_wf(il2cpp),
{
    let n = il2cpp.len();
    for i in 0..n
        invariant
            n == il2cpp@.len(),
            forall|k: int| 0 <= k < i ==> (#[trigger] il2cpp@[k]).1.wf(),
    {
        if !il2cpp.value_at(i).has_distinct_names() {
            return false;
        }
    }
    true
}

/// Flags of a type.
#[derive(Debug, Clone, Copy, PartialEq, Eq, Structural)]
pub enum RETypeFlag {
    ContainsGenericParameters,
    Finalize,
    NativeCtor,
    NativeType,
    ClassSemanticsMask,
    Public,
    NestedPublic,
    NestedFamily,
    SequentialLayout,
    ExplicitLayout,
    Sealed,
    Private,
    Abstract,
    Serializable,
    BeforeFieldInit,
    LocalHeap,
    ManagedVTable,
}

/// Flags of a field.
#[derive(Debug, Clone, Copy, PartialEq, Eq, Structural)]
pub enum REFieldFlag {
    PointerOrRef,
    Pointer,
    Private,
    NotSerialized,
    FamANDAssem,
    Family,
    Static,
    InitOnly,
    HasFieldRVA,
    ExposeMember,
    Literal,
    SpecialName,
    RTSpecialName,
    HasDefault,
}

/// Flags of a method.
#[derive(Debug, Clone, Copy, PartialEq, Eq, Structural)]
pub enum REMethodFlag {
    Private,
    FamANDAssem,
    Final,
    Family,
    Static,
    Virtual,
    HideBySig,
    SpecialName,
    RTSpecialName,
    NewSlot,
    Abstract,
    NoInlining,
}

/// Implementation flags of a method.
#[derive(Debug, Clone, Copy, PartialEq, Eq, Structural)]
pub enum REImplFlag {
    AggressiveOptimization,
    EmptyCtor,
    ExposeMember,
    NoInlining,
    Native,
    HasRetVal,
    InternalCall,
    HasThis,
    ContainsGenericParameters,
    AggressiveInlining,
}

/// A parameter or return value of a method.
#[derive(Debug)]
pub struct REParam {
    pub name: String,
    pub type_: String,
}

/// A property of a type.
#[derive(Debug)]
pub struct REProperty {
    pub name: String,
    pub getter: String,
    pub id: u32,
    pub setter: String,
}

/// A field of a type.
#[derive(Debug)]
pub struct REField {
    pub name: String,
    pub id: u64,
    pub init_data_index: u32,
    pub offset_from_base: u32,
    pub offset_from_fieldptr: u32,
    pub type_: String,
    pub flags: Vec<REFieldFlag>,
}

/// A method of a type.
#[derive(Debug)]
pub struct REMethod {
    pub name: String,
    pub flags: Vec<REMethodFlag>,
    pub function: u64,
    pub id: u64,
    pub impl_flags: Vec<REImplFlag>,
    pub invoke_id: u32,
    pub params: Option<Vec<REParam>>,
    pub returns: Option<REParam>,
    pub vtable_index: Option<u32>,
}

/// A type of the database. Fields and methods are listed in the order of
/// the dump; their names are the keys they were listed under.
#[derive(Debug)]
pub struct REType {
    pub name: String,
    pub address: u64,
    pub crc: u32,
    pub flags: Vec<RETypeFlag>,
    pub fields: Vec<REField>,
    pub fqn: u64,
    pub id: u64,
    pub is_generic_type: bool,
    pub is_generic_type_definition: bool,
    pub methods: Vec<REMethod>,
    pub name_hierarchy: Vec<String>,
    pub native_typename: String,
    pub parent: String,
    pub properties: Vec<(String, REProperty)>,
    pub size: u32,
}

/// Errors of the PDB descriptions.
#[derive(Debug)]
pub enum Il2CppError {
    /// The named type has no managed virtual table.
    NoManagedVTable(String),
}

impl Il2CppError {
    /// The error as a sentence.
    pub fn message(&self) -> (s: String)
        ensures
            match self {
                Il2CppError::NoManagedVTable(n) => s@ == seq!['T', 'y', 'p', 'e', ' '] + n@
                    + no_vtable_suffix(),
            },
    {
        match self {
            Il2CppError::NoManagedVTable(n) => {
                let mut v: Vec<char> = Vec::new();
                v.push('T');
                v.push('y');
                v.push('p');
                v.push('e');
                v.push(' ');
                let nc = chars_of(n.as_str());
                extend_chars(&mut v, nc.as_slice());
                let suffix = chars_of(" does not have a Managed VTable");
                proof {
                    reveal_strlit(" does not have a Managed VTable");
                }
                extend_chars(&mut v, suffix.as_slice());
                assert(suffix@ =~= no_vtable_suffix());
                string_of(v.as_slice())
            },
        }
    }
}

/// The end of the message of [`Il2CppError::NoManagedVTable`].
pub open spec fn no_vtable_suffix() -> Seq<char> {
    seq![
        ' ', 'd', 'o', 'e', 's', ' ', 'n', 'o', 't', ' ', 'h', 'a', 'v', 'e', ' ', 'a', ' ',
        'M', 'a', 'n', 'a', 'g', 'e', 'd', ' ', 'V', 'T', 'a', 'b', 'l', 'e',
    ]
}

/// Flag enums whose variants are named in the dump.
pub trait FlagName: Sized {
    /// The flag with the given name.
    spec fn flag_named(name: Seq<char>) -> Option<Self>;

    /// The flag with the given name, if there is one.
    fn from_name(name: &str) -> (r: Option<Self>)
        ensures
            r == Self::flag_named(name@),
    ;

    /// Whether two flags are the same.
    fn same(&self, other: &Self) -> (b: bool)
        ensures
            b == (*self == *other),
    ;
}

/// Whether `f` is among `flags`.
pub fn has_flag<F: FlagName>(flags: &Vec<F>, f: &F) -> (b: bool)
    ensures
        b == flags@.contains(*f),
{
    for i in 0..flags.len()
        invariant
            forall|k: int| 0 <= k < i ==> flags@[k] != *f,
    {
        if flags[i].same(f) {
            return true;
        }
    }
    false
}

impl FlagName for RETypeFlag {
    fn same(&self, other: &Self) -> (b: bool) {
        *self == *other
    }

    open spec fn flag_named(n: Seq<char>) -> Option<Self> {
        if n == "ContainsGenericParameters"@ {
            Some(RETypeFlag::ContainsGenericParameters)
        } else if n == "Finalize"@ {
            Some(RETypeFlag::Finalize)
        } else if n == "NativeCtor"@ {
            Some(RETypeFlag::NativeCtor)
        } else if n == "NativeType"@ {
            Some(RETypeFlag::NativeType)
        } else if n == "ClassSemanticsMask"@ {
            Some(RETypeFlag::ClassSemanticsMask)
        } else if n == "Public"@ {
            Some(RETypeFlag::Public)
        } else if n == "NestedPublic"@ {
            Some(RETypeFlag::NestedPublic)
        } else if n == "NestedFamily"@ {
            Some(RETypeFlag::NestedFamily)
        } else if n == "SequentialLayout"@ {
            Some(RETypeFlag::SequentialLayout)
        } else if n == "ExplicitLayout"@ {
            Some(RETypeFlag::ExplicitLayout)
        } else if n == "Sealed"@ {
            Some(RETypeFlag::Sealed)
        } else if n == "Private"@ {
            Some(RETypeFlag::Private)
        } else if n == "Abstract"@ {
            Some(RETypeFlag::Abstract)
        } else if n == "Serializable"@ {
            Some(RETypeFlag::Serializable)
        } else if n == "BeforeFieldInit"@ {
            Some(RETypeFlag::BeforeFieldInit)
        } else if n == "LocalHeap"@ {
            Some(RETypeFlag::LocalHeap)
        } else if n == "ManagedVTable"@ {
            Some(RETypeFlag::ManagedVTable)
        } else {
            None
        }
    }

    fn from_name(n: &str) -> (r: Option<Self>) {
        if str_eq(n, "ContainsGenericParameters") {
            Some(RETypeFlag::ContainsGenericParameters)
        } else if str_eq(n, "Finalize") {
            Some(RETypeFlag::Finalize)
        } else if str_eq(n, "NativeCtor") {
            Some(RETypeFlag::NativeCtor)
        } else if str_eq(n, "NativeType") {
            Some(RETypeFlag::NativeType)
        } else if str_eq(n, "ClassSemanticsMask") {
            Some(RETypeFlag::ClassSemanticsMask)
        } else if str_eq(n, "Public") {
            Some(RETypeFlag::Public)
        } else if str_eq(n, "NestedPublic") {
            Some(RETypeFlag::NestedPublic)
        } else if str_eq(n, "NestedFamily") {
            Some(RETypeFlag::NestedFamily)
        } else if str_eq(n, "SequentialLayout") {
            Some(RETypeFlag::SequentialLayout)
        } else if str_eq(n, "ExplicitLayout") {
            Some(RETypeFlag::ExplicitLayout)
        } else if str_eq(n, "Sealed") {
            Some(RETypeFlag::Sealed)
        } else if str_eq(n, "Private") {
            Some(RETypeFlag::Private)
        } else if str_eq(n, "Abstract") {
            Some(RETypeFlag::Abstract)
        } else if str_eq(n, "Serializable") {
            Some(RETypeFlag::Serializable)
        } else if str_eq(n, "BeforeFieldInit") {
            Some(RETypeFlag::BeforeFieldInit)
        } else if str_eq(n, "LocalHeap") {
            Some(RETypeFlag::LocalHeap)
        } else if str_eq(n, "ManagedVTable") {
            Some(RETypeFlag::ManagedVTable)
        } else {
            None
        }
    }
}

impl FlagName for REFieldFlag {
    fn same(&self, other: &Self) -> (b: bool) {
        *self == *other
    }

    open spec fn flag_named(n: Seq<char>) -> Option<Self> {
        if n == "PointerOrRef"@ {
            Some(REFieldFlag::PointerOrRef)
        } else if n == "Pointer"@ {
            Some(REFieldFlag::Pointer)
        } else if n == "Private"@ {
            Some(REFieldFlag::Private)
        } else if n == "NotSerialized"@ {
            Some(REFieldFlag::NotSerialized)
        } else if n == "FamANDAssem"@ {
            Some(REFieldFlag::FamANDAssem)
        } else if n == "Family"@ {
            Some(REFieldFlag::Family)
        } else if n == "Static"@ {
            Some(REFieldFlag::Static)
        } else if n == "InitOnly"@ {
            Some(REFieldFlag::InitOnly)
        } else if n == "HasFieldRVA"@ {
            Some(REFieldFlag::HasFieldRVA)
        } else if n == "ExposeMember"@ {
            Some(REFieldFlag::ExposeMember)
        } else if n == "Literal"@ {
            Some(REFieldFlag::Literal)
        } else if n == "SpecialName"@ {
            Some(REFieldFlag::SpecialName)
        } else if n == "RTSpecialName"@ {
            Some(REFieldFlag::RTSpecialName)
        } else if n == "HasDefault"@ {
            Some(REFieldFlag::HasDefault)
        } else {
            None
        }
    }

    fn from_name(n: &str) -> (r: Option<Self>) {
        if str_eq(n, "PointerOrRef") {
            Some(REFieldFlag::PointerOrRef)
        } else if str_eq(n, "Pointer") {
            Some(REFieldFlag::Pointer)
        } else if str_eq(n, "Private") {
            Some(REFieldFlag::Private)
        } else if str_eq(n, "NotSerialized") {
            Some(REFieldFlag::NotSerialized)
        } else if str_eq(n, "FamANDAssem") {
            Some(REFieldFlag::FamANDAssem)
        } else if str_eq(n, "Family") {
            Some(REFieldFlag::Family)
        } else if str_eq(n, "Static") {
            Some(REFieldFlag::Static)
        } else if str_eq(n, "InitOnly") {
            Some(REFieldFlag::InitOnly)
        } else if str_eq(n, "HasFieldRVA") {
            Some(REFieldFlag::HasFieldRVA)
        } else if str_eq(n, "ExposeMember") {
            Some(REFieldFlag::ExposeMember)
        } else if str_eq(n, "Literal") {
            Some(REFieldFlag::Literal)
        } else if str_eq(n, "SpecialName") {
            Some(REFieldFlag::SpecialName)
        } else if str_eq(n, "RTSpecialName") {
            Some(REFieldFlag::RTSpecialName)
        } else if str_eq(n, "HasDefault") {
            Some(REFieldFlag::HasDefault)
        } else {
            None
        }
    }
}

impl FlagName for REMethodFlag {
    fn same(&self, other: &Self) -> (b: bool) {
        *self == *other
    }

    open spec fn flag_named(n: Seq<char>) -> Option<Self> {
        if n == "Private"@ {
            Some(REMethodFlag::Private)
        } else if n == "FamANDAssem"@ {
            Some(REMethodFlag::FamANDAssem)
        } else if n == "Final"@ {
            Some(REMethodFlag::Final)
        } else if n == "Family"@ {
            Some(REMethodFlag::Family)
        } else if n == "Static"@ {
            Some(REMethodFlag::Static)
        } else if n == "Virtual"@ {
            Some(REMethodFlag::Virtual)
        } else if n == "HideBySig"@ {
            Some(REMethodFlag::HideBySig)
        } else if n == "SpecialName"@ {
            Some(REMethodFlag::SpecialName)
        } else if n == "RTSpecialName"@ {
            Some(REMethodFlag::RTSpecialName)
        } else if n == "NewSlot"@ {
            Some(REMethodFlag::NewSlot)
        } else if n == "Abstract"@ {
            Some(REMethodFlag::Abstract)
        } else if n == "NoInlining"@ {
            Some(REMethodFlag::NoInlining)
        } else {
            None
        }
    }

    fn from_name(n: &str) -> (r: Option<Self>) {
        if str_eq(n, "Private") {
            Some(REMethodFlag::Private)
        } else if str_eq(n, "FamANDAssem") {
            Some(REMethodFlag::FamANDAssem)
        } else if str_eq(n, "Final") {
            Some(REMethodFlag::Final)
        } else if str_eq(n, "Family") {
            Some(REMethodFlag::Family)
        } else if str_eq(n, "Static") {
            Some(REMethodFlag::Static)
        } else if str_eq(n, "Virtual") {
            Some(REMethodFlag::Virtual)
        } else if str_eq(n, "HideBySig") {
            Some(REMethodFlag::HideBySig)
        } else if str_eq(n, "SpecialName") {
            Some(REMethodFlag::SpecialName)
        } else if str_eq(n, "RTSpecialName") {
            Some(REMethodFlag::RTSpecialName)
        } else if str_eq(n, "NewSlot") {
            Some(REMethodFlag::NewSlot)
        } else if str_eq(n, "Abstract") {
            Some(REMethodFlag::Abstract)
        } else if str_eq(n, "NoInlining") {
            Some(REMethodFlag::NoInlining)
        } else {
            None
        }
    }
}

impl FlagName for REImplFlag {
    fn same(&self, other: &Self) -> (b: bool) {
        *self == *other
    }

    open spec fn flag_named(n: Seq<char>) -> Option<Self> {
        if n == "AggressiveOptimization"@ {
            Some(REImplFlag::AggressiveOptimization)
        } else if n == "EmptyCtor"@ {
            Some(REImplFlag::EmptyCtor)
        } else if n == "ExposeMember"@ {
            Some(REImplFlag::ExposeMember)
        } else if n == "NoInlining"@ {
            Some(REImplFlag::NoInlining)
        } else if n == "Native"@ {
            Some(REImplFlag::Native)
        } else if n == "HasRetVal"@ {
            Some(REImplFlag::HasRetVal)
        } else if n == "InternalCall"@ {
            Some(REImplFlag::InternalCall)
        } else if n == "HasThis"@ {
            Some(REImplFlag::HasThis)
        } else if n == "ContainsGenericParameters"@ {
            Some(REImplFlag::ContainsGenericParameters)
        } else if n == "AggressiveInlining"@ {
            Some(REImplFlag::AggressiveInlining)
        } else {
            None
        }
    }

    fn from_name(n: &str) -> (r: Option<Self>) {
        if str_eq(n, "AggressiveOptimization") {
            Some(REImplFlag::AggressiveOptimization)
        } else if str_eq(n, "EmptyCtor") {
            Some(REImplFlag::EmptyCtor)
        } else if str_eq(n, "ExposeMember") {
            Some(REImplFlag::ExposeMember)
        } else if str_eq(n, "NoInlining") {
            Some(REImplFlag::NoInlining)
        } else if str_eq(n, "Native") {
            Some(REImplFlag::Native)
        } else if str_eq(n, "HasRetVal") {
            Some(REImplFlag::HasRetVal)
        } else if str_eq(n, "InternalCall") {
            Some(REImplFlag::InternalCall)
        } else if str_eq(n, "HasThis") {
            Some(REImplFlag::HasThis)
        } else if str_eq(n, "ContainsGenericParameters") {
            Some(REImplFlag::ContainsGenericParameters)
        } else if str_eq(n, "AggressiveInlining") {
            Some(REImplFlag::AggressiveInlining)
        } else {
            None
        }
    }
}

} // verus!

verus! {

/// Whether a type with this parent is laid out inline (an enum or a value type).
pub open spec fn is_value_like(parent: Seq<char>) -> bool {
    parent == "System.Enum"@ || parent == "System.ValueType"@
}

/// The offset of `f` within a value of `ty`: from the field pointer for
/// enums and value types, from the object base otherwise.
pub open spec fn field_offset(ty: REType, f: REField) -> u64 {
    if is_value_like(ty.parent@) {
        f.offset_from_fieldptr as u64
    } else {
        f.offset_from_base as u64
    }
}

/// The PDB type of an il2cpp primitive, if `name` names one.
pub open spec fn builtin_pdb_type(name: Seq<char>) -> Option<PdbTy> {
    if name == "System.Boolean"@ {
        Some(PdbTy::SimpleType(SimpleTypeKind::Boolean8))
    } else if name == "System.SByte"@ {
        Some(PdbTy::SimpleType(SimpleTypeKind::SByte))
    } else if name == "System.Int16"@ {
        Some(PdbTy::SimpleType(SimpleTypeKind::Int16))
    } else if name == "System.Int32"@ {
        Some(PdbTy::SimpleType(SimpleTypeKind::Int32))
    } else if name == "System.Int64"@ {
        Some(PdbTy::SimpleType(SimpleTypeKind::Int64))
    } else if name == "System.Byte"@ {
        Some(PdbTy::SimpleType(SimpleTypeKind::Byte))
    } else if name == "System.UInt16"@ {
        Some(PdbTy::SimpleType(SimpleTypeKind::UInt16))
    } else if name == "System.UInt32"@ {
        Some(PdbTy::SimpleType(SimpleTypeKind::UInt32))
    } else if name == "System.UInt64"@ {
        Some(PdbTy::SimpleType(SimpleTypeKind::UInt64))
    } else if name == "System.Single"@ {
        Some(PdbTy::SimpleType(SimpleTypeKind::Float32))
    } else if name == "System.Double"@ {
        Some(PdbTy::SimpleType(SimpleTypeKind::Float64))
    } else if name == "System.Char"@ {
        Some(PdbTy::SimpleType(SimpleTypeKind::WideCharacter))
    } else if name == "System.Void"@ {
        Some(PdbTy::SimpleType(SimpleTypeKind::Void))
    } else if name == "System.Guid"@ {
        Some(PdbTy::ConstantArray(Box::new(PdbTy::SimpleType(SimpleTypeKind::Byte)), 16))
    } else {
        None
    }
}

/// The PDB type that describes a value of the type `name` whose parent is
/// `parent`: the primitive for primitives, the struct itself for enums and
/// value types, a pointer to the struct otherwise.
pub open spec fn pdb_type_for(name: Seq<char>, parent: Seq<char>) -> PdbTy {
    match builtin_pdb_type(name) {
        Some(t) => t,
        None => if is_value_like(parent) {
            PdbTy::Struct(name)
        } else {
            PdbTy::Pointer(Box::new(PdbTy::Struct(name)))
        },
    }
}

/// The parent of the type named `name` in the database, or the empty name.
pub open spec fn parent_in(il2cpp: Seq<(Seq<char>, REType)>, name: Seq<char>) -> Seq<char> {
    match map_get(il2cpp, name) {
        Some(t) => t.parent@,
        None => Seq::empty(),
    }
}

fn simple(k: SimpleTypeKind) -> (t: PDBType)
    ensures
        t@ == PdbTy::SimpleType(k),
{
    PDBType::SimpleType(k)
}

/// The PDB type of an il2cpp primitive, if `name` names one.
pub fn builtin_pdb(name: &str) -> (r: Option<PDBType>)
    ensures
        match r {
            Some(t) => builtin_pdb_type(name@) == Some(t@),
            None => builtin_pdb_type(name@) is None,
        },
{
    if str_eq(name, "System.Boolean") {
        Some(simple(SimpleTypeKind::Boolean8))
    } else if str_eq(name, "System.SByte") {
        Some(simple(SimpleTypeKind::SByte))
    } else if str_eq(name, "System.Int16") {
        Some(simple(SimpleTypeKind::Int16))
    } else if str_eq(name, "System.Int32") {
        Some(simple(SimpleTypeKind::Int32))
    } else if str_eq(name, "System.Int64") {
        Some(simple(SimpleTypeKind::Int64))
    } else if str_eq(name, "System.Byte") {
        Some(simple(SimpleTypeKind::Byte))
    } else if str_eq(name, "System.UInt16") {
        Some(simple(SimpleTypeKind::UInt16))
    } else if str_eq(name, "System.UInt32") {
        Some(simple(SimpleTypeKind::UInt32))
    } else if str_eq(name, "System.UInt64") {
        Some(simple(SimpleTypeKind::UInt64))
    } else if str_eq(name, "System.Single") {
        Some(simple(SimpleTypeKind::Float32))
    } else if str_eq(name, "System.Double") {
        Some(simple(SimpleTypeKind::Float64))
    } else if str_eq(name, "System.Char") {
        Some(simple(SimpleTypeKind::WideCharacter))
    } else if str_eq(name, "System.Void") {
        Some(simple(SimpleTypeKind::Void))
    } else if str_eq(name, "System.Guid") {
        let t = PDBType::ConstantArray(Box::new(simple(SimpleTypeKind::Byte)), 16);
        assert(t@ == PdbTy::ConstantArray(Box::new(PdbTy::SimpleType(SimpleTypeKind::Byte)), 16));
        Some(t)
    } else {
        None
    }
}

/// The struct record named `name`.
pub fn struct_type(name: &str) -> (t: PDBType)
    ensures
        t@ == PdbTy::Struct(name@),
{
    PDBType::Struct(name.to_owned())
}

/// A pointer to the struct record named `name`.
pub fn struct_pointer(name: &str) -> (t: PDBType)
    ensures
        t@ == PdbTy::Pointer(Box::new(PdbTy::Struct(name@))),
{
    let inner = struct_type(name);
    let t = PDBType::Pointer(Box::new(inner));
    assert(t@ == PdbTy::Pointer(Box::new(inner@)));
    t
}

/// The PDB type of a value of the type `name` whose parent is `parent`.
pub fn to_pdb_type(name: &str, parent: &str) -> (r: Result<PDBType, Il2CppError>)
    ensures
        r matches Ok(t) && t@ == pdb_type_for(name@, parent@),
{
    let is_enum = str_eq(parent, "System.Enum");
    let is_value_type = str_eq(parent, "System.ValueType");
    match builtin_pdb(name) {
        Some(t) => Ok(t),
        None => {
            if is_enum || is_value_type {
                Ok(struct_type(name))
            } else {
                Ok(struct_pointer(name))
            }
        },
    }
}

/// The PDB type of a value of the type named `tname`, looked up in the
/// database to tell value types from reference types.
pub fn get_pdb_type(tname: &str, il2cpp: &Il2Cpp) -> (t: PDBType)
    requires
        db_wf(il2cpp),
    ensures
        t@ == pdb_type_for(tname@, parent_in(il2cpp@, tname@)),
{
    match builtin_pdb(tname) {
        Some(t) => t,
        None => {
            proof {
                reveal_strlit("System.Enum");
                reveal_strlit("System.ValueType");
            }
            let value_like = match il2cpp.get(tname) {
                Some(t) => {
                    let r = str_eq(t.parent.as_str(), "System.ValueType") || str_eq(
                        t.parent.as_str(),
                        "System.Enum",
                    );
                    assert(parent_in(il2cpp@, tname@) == t.parent@);
                    r
                },
                None => {
                    assert(parent_in(il2cpp@, tname@) == Seq::<char>::empty());
                    assert("System.Enum"@.len() > 0);
                    false
                },
            };
            assert(value_like == is_value_like(parent_in(il2cpp@, tname@)));
            if value_like {
                struct_type(tname)
            } else {
                struct_pointer(tname)
            }
        },
    }
}

impl REType {
    /// The names of the type's fields, of its methods and of its properties
    /// are each distinct: the dump keys each of them by name.
    pub open spec fn wf(&self) -> bool {
        &&& forall|i: int, j: int|
            #![trigger self.fields@[i], self.fields@[j]]
            0 <= i < j < self.fields@.len() ==> self.fields@[i].name@ != self.fields@[j].name@
        &&& forall|i: int, j: int|
            #![trigger self.methods@[i], self.methods@[j]]
            0 <= i < j < self.methods@.len() ==> self.methods@[i].name@ != self.methods@[j].name@
        &&& forall|i: int, j: int|
            #![trigger self.properties@[i], self.properties@[j]]
            0 <= i < j < self.properties@.len() ==> self.properties@[i].0@
                != self.properties@[j].0@
    }

    /// Whether the names of the type's fields, of its methods and of its
    /// properties are each distinct.
    pub fn has_distinct_names(&self) -> (b: bool)
        ensures
            b == self.wf(),
    {
        let mut fields: Vec<String> = Vec::new();
        for i in 0..self.fields.len()
            invariant
                fields@.len() == i,
                forall|k: int| 0 <= k < i ==> #[trigger] fields@[k]@ == self.fields@[k].name@,
        {
            fields.push(self.fields[i].name.clone());
        }
        let mut methods: Vec<String> = Vec::new();
        for i in 0..self.methods.len()
            invariant
                methods@.len() == i,
                forall|k: int| 0 <= k < i ==> #[trigger] methods@[k]@ == self.methods@[k].name@,
        {
            methods.push(self.methods[i].name.clone());
        }
        let mut properties: Vec<String> = Vec::new();
        for i in 0..self.properties.len()
            invariant
                properties@.len() == i,
                forall|k: int| 0 <= k < i ==> #[trigger] properties@[k]@ == self.properties@[k].0@,
        {
            properties.push(self.properties[i].0.clone());
        }
        let a = strings_distinct(&fields);
        let b = strings_distinct(&methods);
        let c = strings_distinct(&properties);
        assert(a == (forall|i: int, j: int|
            #![trigger self.fields@[i], self.fields@[j]]
            0 <= i < j < self.fields@.len() ==> self.fields@[i].name@ != self.fields@[j].name@)) by {
            if a {
                assert forall|i: int, j: int|
                    #![trigger self.fields@[i], self.fields@[j]]
                    0 <= i < j < self.fields@.len() implies self.fields@[i].name@
                        != self.fields@[j].name@ by {
                    assert(fields@[i]@ == self.fields@[i].name@);
                    assert(fields@[j]@ == self.fields@[j].name@);
                }
            } else {
                let (i, j) = choose|i: int, j: int|
                    0 <= i < j < fields@.len() && fields@[i]@ == fields@[j]@;
                assert(fields@[i]@ == self.fields@[i].name@);
                assert(fields@[j]@ == self.fields@[j].name@);
            }
        }
        assert(b == (forall|i: int, j: int|
            #![trigger self.methods@[i], self.methods@[j]]
            0 <= i < j < self.methods@.len() ==> self.methods@[i].name@ != self.methods@[j].name@)) by {
            if b {
                assert forall|i: int, j: int|
                    #![trigger self.methods@[i], self.methods@[j]]
                    0 <= i < j < self.methods@.len() implies self.methods@[i].name@
                        != self.methods@[j].name@ by {
                    assert(methods@[i]@ == self.methods@[i].name@);
                    assert(methods@[j]@ == self.methods@[j].name@);
                }
            } else {
                let (i, j) = choose|i: int, j: int|
                    0 <= i < j < methods@.len() && methods@[i]@ == methods@[j]@;
                assert(methods@[i]@ == self.methods@[i].name@);
                assert(methods@[j]@ == self.methods@[j].name@);
            }
        }
        assert(c == (forall|i: int, j: int|
            #![trigger self.properties@[i], self.properties@[j]]
            0 <= i < j < self.properties@.len() ==> self.properties@[i].0@ != self.properties@[j].0@)) by {
            if c {
                assert forall|i: int, j: int|
                    #![trigger self.properties@[i], self.properties@[j]]
                    0 <= i < j < self.properties@.len() implies self.properties@[i].0@
                        != self.properties@[j].0@ by {
                    assert(properties@[i]@ == self.properties@[i].0@);
                    assert(properties@[j]@ == self.properties@[j].0@);
                }
            } else {
                let (i, j) = choose|i: int, j: int|
                    0 <= i < j < properties@.len() && properties@[i]@ == properties@[j]@;
                assert(properties@[i]@ == self.properties@[i].0@);
                assert(properties@[j]@ == self.properties@[j].0@);
            }
        }
        a && b && c
    }

    /// Whether the type is an enum.
    pub fn is_enum(&self) -> (b: bool)
        ensures
            b == (self.parent@ == "System.Enum"@),
    {
        str_eq(self.parent.as_str(), "System.Enum")
    }

    /// Whether the type is a value type.
    pub fn is_value_type(&self) -> (b: bool)
        ensures
            b == (self.parent@ == "System.ValueType"@),
    {
        str_eq(self.parent.as_str(), "System.ValueType")
    }

    /// Whether the type is an enum or a value type.
    pub fn is_enum_or_value_type(&self) -> (b: bool)
        ensures
            b == is_value_like(self.parent@),
    {
        self.is_enum() || self.is_value_type()
    }

    /// The offset of `field` within a value of this type.
    pub fn get_field_offset(&self, field: &REField) -> (o: u64)
        ensures
            o == field_offset(*self, *field),
    {
        if self.is_enum_or_value_type() {
            field.offset_from_fieldptr as u64
        } else {
            field.offset_from_base as u64
        }
    }

    /// The PDB type of a value of this type.
    pub fn to_pdb_type(&self) -> (r: Result<PDBType, Il2CppError>)
        ensures
            r matches Ok(t) && t@ == pdb_type_for(self.name@, self.parent@),
    {
        to_pdb_type(self.name.as_str(), self.parent.as_str())
    }
}

} // verus!

verus! {

/// A parameter as written in a signature: its type, then a space and its
/// name when it has one.
pub open spec fn param_text(p: REParam) -> Seq<char> {
    if p.name@.len() > 0 {
        p.type_@ + seq![' '] + p.name@
    } else {
        p.type_@
    }
}

/// Parameters as written in a signature, separated by commas.
pub open spec fn params_text(ps: Seq<REParam>) -> Seq<char>
    decreases ps.len(),
{
    if ps.len() == 0 {
        Seq::empty()
    } else if ps.len() == 1 {
        param_text(ps[0])
    } else {
        params_text(ps.drop_last()) + seq![','] + param_text(ps.last())
    }
}

/// `Type::method`.
pub open spec fn symbol_text(ty: REType, m: REMethod) -> Seq<char> {
    ty.name@ + seq![':', ':'] + m.name@
}

/// `Type::method(params)`.
pub open spec fn signature_text(ty: REType, m: REMethod) -> Seq<char> {
    symbol_text(ty, m) + seq!['('] + match m.params {
        Some(ps) => params_text(ps@),
        None => Seq::empty(),
    } + seq![')']
}

/// The return type of a method's function record: the PDB type of the
/// returned type when the database has it, `void` otherwise.
pub open spec fn return_pdb_type(m: REMethod, il2cpp: Seq<(Seq<char>, REType)>) -> PdbTy {
    match m.returns {
        Some(r) => match map_get(il2cpp, r.type_@) {
            Some(t) => pdb_type_for(t.name@, t.parent@),
            None => PdbTy::SimpleType(SimpleTypeKind::Void),
        },
        None => PdbTy::SimpleType(SimpleTypeKind::Void),
    }
}

/// The PDB types of the parameters `ps`.
pub open spec fn param_pdb_types(ps: Seq<REParam>, il2cpp: Seq<(Seq<char>, REType)>) -> Seq<PdbTy> {
    Seq::new(ps.len(), |i: int| pdb_type_for(ps[i].type_@, parent_in(il2cpp, ps[i].type_@)))
}

/// The argument types of a method's function record: the context pointer,
/// the `this` pointer for instance methods of a named class, then the
/// parameters.
pub open spec fn arg_pdb_types(
    m: REMethod,
    class: Option<Seq<char>>,
    il2cpp: Seq<(Seq<char>, REType)>,
) -> Seq<PdbTy> {
    seq![PdbTy::Pointer(Box::new(PdbTy::SimpleType(SimpleTypeKind::Void)))] + (
    if m.impl_flags@.contains(REImplFlag::HasThis) && class is Some {
        seq![PdbTy::Pointer(Box::new(PdbTy::Struct(class->0)))]
    } else {
        Seq::empty()
    }) + match m.params {
        Some(ps) => param_pdb_types(ps@, il2cpp),
        None => Seq::empty(),
    }
}

/// The function record of a method.
pub open spec fn method_pdb_function(
    m: REMethod,
    class: Option<Seq<char>>,
    il2cpp: Seq<(Seq<char>, REType)>,
) -> PdbTy {
    PdbTy::Function(
        Box::new(return_pdb_type(m, il2cpp)),
        arg_pdb_types(m, class, il2cpp),
        None,
        CallingConvention::NearFast,
    )
}

/// The mathematical values of a sequence of PDB types.
pub open spec fn views(ts: Seq<PDBType>) -> Seq<PdbTy> {
    ts.map_values(|t: PDBType| t@)
}

fn void_pointer() -> (t: PDBType)
    ensures
        t@ == PdbTy::Pointer(Box::new(PdbTy::SimpleType(SimpleTypeKind::Void))),
{
    let inner = simple(SimpleTypeKind::Void);
    let t = PDBType::Pointer(Box::new(inner));
    assert(t@ == PdbTy::Pointer(Box::new(inner@)));
    t
}

impl REMethod {
    /// `Type::method`.
    pub fn symbol_name(&self, ty: &REType) -> (s: String)
        ensures
            s@ == symbol_text(*ty, *self),
    {
        let mut v = chars_of(ty.name.as_str());
        v.push(':');
        v.push(':');
        let n = chars_of(self.name.as_str());
        extend_chars(&mut v, n.as_slice());
        assert(v@ =~= symbol_text(*ty, *self));
        string_of(v.as_slice())
    }

    /// `Type::method(type name, type name, ...)`.
    pub fn signature(&self, ty: &REType) -> (s: String)
        ensures
            s@ == signature_text(*ty, *self),
    {
        let sym = self.symbol_name(ty);
        let mut v = chars_of(sym.as_str());
        v.push('(');
        let ghost head = v@;
        match &self.params {
            Some(p) => {
                let n = p.len();
                for i in 0..n
                    invariant
                        n == p@.len(),
                        v@ == head + if i == 0 {
                            Seq::empty()
                        } else {
                            params_text(p@.take(i as int)) + if i < n {
                                seq![',']
                            } else {
                                Seq::empty()
                            }
                        },
                {
                    let ghost before = v@;
                    let t = chars_of(p[i].type_.as_str());
                    extend_chars(&mut v, t.as_slice());
                    let name = chars_of(p[i].name.as_str());
                    if name.len() > 0 {
                        v.push(' ');
                        extend_chars(&mut v, name.as_slice());
                    }
                    assert(v@ == before + param_text(p@[i as int]));
                    if i + 1 != n {
                        v.push(',');
                    }
                    proof {
                        let t1 = p@.take(i + 1);
                        if i == 0 {
                            assert(t1.len() == 1);
                            assert(params_text(t1) == param_text(t1[0]));
                        } else {
                            assert(t1.drop_last() =~= p@.take(i as int));
                        }
                    }
                    assert(v@ =~= head + params_text(p@.take(i + 1)) + if i + 1 < n {
                        seq![',']
                    } else {
                        Seq::empty()
                    });
                }
                assert(p@.take(n as int) =~= p@);
            },
            None => {},
        }
        v.push(')');
        assert(v@ =~= signature_text(*ty, *self));
        string_of(v.as_slice())
    }

    /// The function record of this method, as a member of `class`.
    pub fn get_pdb_function(&self, class: Option<&str>, il2cpp: &Il2Cpp) -> (f: PDBFunction)
        requires
            db_wf(il2cpp),
        ensures
            f@ == method_pdb_function(
                *self,
                match class {
                    Some(c) => Some(c@),
                    None => None,
                },
                il2cpp@,
            ),
    {
        let ret_type = match &self.returns {
            Some(r) => match il2cpp.get(r.type_.as_str()) {
                Some(t) => match t.to_pdb_type() {
                    Ok(pt) => pt,
                    Err(_) => simple(SimpleTypeKind::Void),
                },
                None => simple(SimpleTypeKind::Void),
            },
            None => simple(SimpleTypeKind::Void),
        };
        let mut param_types: Vec<PDBType> = Vec::new();
        param_types.push(void_pointer());
        if has_flag(&self.impl_flags, &REImplFlag::HasThis) {
            if let Some(class_name) = class {
                param_types.push(struct_pointer(class_name));
            }
        }
        let ghost head = views(param_types@);
        if let Some(params) = &self.params {
            for i in 0..params.len()
                invariant
                    db_wf(il2cpp),
                    views(param_types@) == head + param_pdb_types(params@, il2cpp@).take(i as int),
            {
                let t = get_pdb_type(params[i].type_.as_str(), il2cpp);
                let ghost before = param_types@;
                param_types.push(t);
                assert(views(param_types@) =~= views(before).push(t@));
                assert(param_pdb_types(params@, il2cpp@).take(i + 1) =~= param_pdb_types(
                    params@,
                    il2cpp@,
                ).take(i as int).push(t@));
                assert(views(param_types@) =~= head + param_pdb_types(params@, il2cpp@).take(
                    i + 1,
                ));
            }
            assert(param_pdb_types(params@, il2cpp@).take(params.len() as int) =~= param_pdb_types(
                params@,
                il2cpp@,
            ));
        }
        assert(ret_type@ == return_pdb_type(*self, il2cpp@));
        let ghost args = param_types@;
        let f = PDBFunction::new_ex(ret_type, param_types, None, CallingConvention::NearFast);
        proof {
            let cls = match class {
                Some(c) => Some(c@),
                None => None,
            };
            let spec_args = arg_pdb_types(*self, cls, il2cpp@);
            assert(views(args) =~= spec_args);
            lemma_tys_view(f.args@);
            assert(views(f.args@) =~= f.args@.map_values(|t: PDBType| ty_view(t)));
        }
        f
    }
}

/// A field's entry in a struct record: its type, its name (after the
/// prefix of the type it was inherited from, if any), its offset and
/// whether it is static.
pub open spec fn field_entry(
    ty: REType,
    f: REField,
    il2cpp: Seq<(Seq<char>, REType)>,
    prefix: Option<Seq<char>>,
) -> StructFieldV {
    StructFieldV {
        ty: pdb_type_for(f.type_@, parent_in(il2cpp, f.type_@)),
        name: match prefix {
            Some(p) => p + seq!['_', '_'] + f.name@,
            None => f.name@,
        },
        offset: field_offset(ty, f),
        is_static: f.flags@.contains(REFieldFlag::Static),
    }
}

/// The entries of the fields `fs` of `ty`, static ones only when
/// `include_static`.
pub open spec fn own_field_entries(
    ty: REType,
    fs: Seq<REField>,
    il2cpp: Seq<(Seq<char>, REType)>,
    prefix: Option<Seq<char>>,
    include_static: bool,
) -> Seq<StructFieldV>
    decreases fs.len(),
{
    if fs.len() == 0 {
        Seq::empty()
    } else {
        let rest = own_field_entries(ty, fs.drop_last(), il2cpp, prefix, include_static);
        if !include_static && fs.last().flags@.contains(REFieldFlag::Static) {
            rest
        } else {
            rest.push(field_entry(ty, fs.last(), il2cpp, prefix))
        }
    }
}

impl REType {
    /// The struct entries of this type's own fields.
    pub fn get_own_struct_fields(
        &self,
        il2cpp: &Il2Cpp,
        inherited_name_prefix: Option<&str>,
        include_static: bool,
    ) -> (res: Vec<StructField>)
        requires
            db_wf(il2cpp),
        ensures
            struct_field_views(res@) == own_field_entries(
                *self,
                self.fields@,
                il2cpp@,
                match inherited_name_prefix {
                    Some(p) => Some(p@),
                    None => None,
                },
                include_static,
            ),
    {
        let ghost prefix = match inherited_name_prefix {
            Some(p) => Some(p@),
            None => None,
        };
        let mut struct_fields: Vec<StructField> = Vec::new();
        for i in 0..self.fields.len()
            invariant
                db_wf(il2cpp),
                prefix == match inherited_name_prefix {
                    Some(p) => Some(p@),
                    None => None::<Seq<char>>,
                },
                struct_field_views(struct_fields@) == own_field_entries(
                    *self,
                    self.fields@.take(i as int),
                    il2cpp@,
                    prefix,
                    include_static,
                ),
        {
            let field = &self.fields[i];
            assert(self.fields@.take(i + 1).drop_last() =~= self.fields@.take(i as int));
            let is_static = has_flag(&field.flags, &REFieldFlag::Static);
            if include_static || !is_static {
                let ty = get_pdb_type(field.type_.as_str(), il2cpp);
                let name = match inherited_name_prefix {
                    Some(p) => {
                        let mut v = chars_of(p);
                        v.push('_');
                        v.push('_');
                        let n = chars_of(field.name.as_str());
                        extend_chars(&mut v, n.as_slice());
                        assert(v@ =~= p@ + seq!['_', '_'] + field.name@);
                        string_of(v.as_slice())
                    },
                    None => field.name.clone(),
                };
                let sf = StructField { ty, name, offset: self.get_field_offset(field), is_static };
                assert(sf@ == field_entry(*self, *field, il2cpp@, prefix));
                struct_fields.push(sf);
                assert(struct_field_views(struct_fields@) =~= struct_field_views(struct_fields@.drop_last()).push(
                    sf@,
                ));
            }
        }
        assert(self.fields@.take(self.fields@.len() as int) =~= self.fields@);
        struct_fields
    }
}

} // verus!

verus! {

/// The keys of a sequence of entries, in order.
pub open spec fn entry_keys<V>(s: Seq<(Seq<char>, V)>) -> Seq<Seq<char>> {
    s.map_values(|e: (Seq<char>, V)| e.0)
}

/// `names` are distinct keys of `m`.
pub open spec fn distinct_keys_of(m: Seq<(Seq<char>, REType)>, names: Seq<Seq<char>>) -> bool {
    &&& keys_distinct(m)
    &&& names.no_duplicates()
    &&& forall|i: int| 0 <= i < names.len() ==> key_index(m, #[trigger] names[i]) >= 0
}

/// Distinct keys of `m` are no more than its entries.
pub proof fn lemma_distinct_keys_bound(m: Seq<(Seq<char>, REType)>, names: Seq<Seq<char>>)
    requires
        distinct_keys_of(m, names),
    ensures
        names.len() <= m.len(),
{
    let ks = entry_keys(m);
    broadcast use vstd::seq_lib::seq_to_set_is_finite;

    names.unique_seq_to_set();
    ks.lemma_cardinality_of_set();
    assert forall|n: Seq<char>| names.to_set().contains(n) implies ks.to_set().contains(n) by {
        let i = choose|i: int| 0 <= i < names.len() && names[i] == n;
        assert(key_index(m, names[i]) >= 0);
        lemma_key_index(m, n);
        assert(ks[key_index(m, n)] == n);
    }
    vstd::set_lib::lemma_len_subset(names.to_set(), ks.to_set());
}

/// Whether the walk up the parent chain ends at `name`: at an empty name,
/// or, when `stop_at_value_types`, at `System.ValueType` or `System.Enum`.
pub open spec fn chain_ends(name: Seq<char>, stop_at_value_types: bool) -> bool {
    name.len() == 0 || (stop_at_value_types && (name == "System.ValueType"@ || name
        == "System.Enum"@))
}

/// The types met walking up the parent chain from `name`: each name is
/// looked up and its parent followed, until the chain ends, a name comes
/// round again (one of `seen`), or a name is missing from the database.
pub open spec fn ancestors_from(
    m: Seq<(Seq<char>, REType)>,
    name: Seq<char>,
    seen: Seq<Seq<char>>,
    stop_at_value_types: bool,
) -> Seq<REType>
    decreases m.len() - seen.len(),
    when distinct_keys_of(m, seen)
{
    if chain_ends(name, stop_at_value_types) || seen.contains(name) {
        Seq::empty()
    } else {
        match map_get(m, name) {
            None => Seq::empty(),
            Some(p) => {
                proof {
                    lemma_key_index(m, name);
                    let s2 = seen.push(name);
                    assert forall|i: int| 0 <= i < s2.len() implies key_index(m, #[trigger] s2[i])
                        >= 0 by {
                        if i < seen.len() {
                            assert(s2[i] == seen[i]);
                        }
                    }
                    lemma_distinct_keys_bound(m, s2);
                }
                seq![p] + ancestors_from(m, p.parent@, seen.push(name), stop_at_value_types)
            },
        }
    }
}

/// The types behind a sequence of references.
pub open spec fn derefs<'a>(s: Seq<&'a REType>) -> Seq<REType> {
    s.map_values(|r: &'a REType| *r)
}

/// The types met walking up the parent chain from `start`.
pub fn collect_ancestors<'a>(il2cpp: &'a Il2Cpp, start: &'a str, stop_at_value_types: bool) -> (res:
    Vec<&'a REType>)
    requires
        db_wf(il2cpp),
    ensures
        derefs(res@) == ancestors_from(il2cpp@, start@, Seq::empty(), stop_at_value_types),
{
    let ghost m = il2cpp@;
    proof {
        il2cpp.lemma_wf();
    }
    let mut ancestors: Vec<&'a REType> = Vec::new();
    let mut parent_name: &'a str = start;
    let mut seen: StrMap<()> = StrMap::new();
    assert(entry_keys(seen@) =~= Seq::<Seq<char>>::empty());
    loop
        invariant_except_break
            db_wf(il2cpp),
            seen.wf(),
            m == il2cpp@,
            keys_distinct(m),
            distinct_keys_of(m, entry_keys(seen@)),
            seen@.len() <= m.len(),
            ancestors_from(m, start@, Seq::empty(), stop_at_value_types) == derefs(ancestors@)
                + ancestors_from(m, parent_name@, entry_keys(seen@), stop_at_value_types),
        ensures
            ancestors_from(m, start@, Seq::empty(), stop_at_value_types) == derefs(ancestors@),
        decreases m.len() - seen@.len(),
    {
        proof {
            seen.lemma_wf();
            lemma_key_index(seen@, parent_name@);
            assert(entry_keys(seen@).contains(parent_name@) == (key_index(seen@, parent_name@)
                >= 0)) by {
                if entry_keys(seen@).contains(parent_name@) {
                    let i = choose|i: int|
                        0 <= i < entry_keys(seen@).len() && entry_keys(seen@)[i] == parent_name@;
                    assert(seen@[i].0 == parent_name@);
                }
                if key_index(seen@, parent_name@) >= 0 {
                    assert(entry_keys(seen@)[key_index(seen@, parent_name@)] == parent_name@);
                }
            }
        }
        let ends = parent_name.is_empty() || (stop_at_value_types && (str_eq(
            parent_name,
            "System.ValueType",
        ) || str_eq(parent_name, "System.Enum")));
        assert(ends == chain_ends(parent_name@, stop_at_value_types));
        if ends {
            assert(derefs(ancestors@) + Seq::<REType>::empty() =~= derefs(ancestors@));
            break ;
        }
        let ghost old_keys = entry_keys(seen@);
        if !seen.insert(parent_name.to_owned(), ()) {
            assert(derefs(ancestors@) + Seq::<REType>::empty() =~= derefs(ancestors@));
            break ;
        }
        assert(entry_keys(seen@) =~= old_keys.push(parent_name@));
        match il2cpp.get(parent_name) {
            None => {
                assert(derefs(ancestors@) + Seq::<REType>::empty() =~= derefs(ancestors@));
                break ;
            },
            Some(p) => {
                let ghost before = derefs(ancestors@);
                ancestors.push(p);
                assert(derefs(ancestors@) =~= before.push(*p));
                proof {
                    lemma_key_index(m, parent_name@);
                    let s2 = entry_keys(seen@);
                    assert forall|i: int| 0 <= i < s2.len() implies key_index(m, #[trigger] s2[i])
                        >= 0 by {
                        if i < old_keys.len() {
                            assert(s2[i] == old_keys[i]);
                        }
                    }
                    assert(before + (seq![*p] + ancestors_from(m, p.parent@, s2, stop_at_value_types))
                        =~= derefs(ancestors@) + ancestors_from(m, p.parent@, s2, stop_at_value_types));
                    lemma_distinct_keys_bound(m, s2);
                }
                parent_name = p.parent.as_str();
            },
        }
    }
    ancestors
}

} // verus!

verus! {

/// The prefix of members inherited from `a`: `__base_` and `a`'s name with
/// non-word characters replaced by `_`.
pub open spec fn base_prefix(a: REType) -> Seq<char> {
    seq!['_', '_', 'b', 'a', 's', 'e', '_'] + sanitized(a.name@)
}

/// The entries of the non-static fields of `ancestors`, oldest ancestor
/// first, each named after the ancestor it comes from.
pub open spec fn inherited_entries(m: Seq<(Seq<char>, REType)>, ancestors: Seq<REType>) -> Seq<
    StructFieldV,
>
    decreases ancestors.len(),
{
    if ancestors.len() == 0 {
        Seq::empty()
    } else {
        let a = ancestors.last();
        inherited_entries(m, ancestors.drop_last()) + own_field_entries(
            a,
            a.fields@,
            m,
            Some(base_prefix(a)),
            false,
        )
    }
}

/// The ancestors whose fields a struct record of `ty` inherits, oldest
/// first: none for enums and value types.
pub open spec fn struct_ancestors(ty: REType, m: Seq<(Seq<char>, REType)>) -> Seq<REType> {
    if is_value_like(ty.parent@) {
        Seq::empty()
    } else {
        ancestors_from(m, ty.parent@, Seq::empty(), true).reverse()
    }
}

/// The struct record of `ty`: inherited fields, then its own (static ones
/// included), ordered by offset; and the number of inherited fields.
pub open spec fn struct_layout(ty: REType, m: Seq<(Seq<char>, REType)>) -> (Seq<StructFieldV>, nat) {
    let inherited = inherited_entries(m, struct_ancestors(ty, m));
    (
        sort_by_offset(inherited + own_field_entries(ty, ty.fields@, m, None, true)),
        inherited.len(),
    )
}

/// Appends `extra` to `v`.
fn append_fields(v: &mut Vec<StructField>, extra: Vec<StructField>)
    ensures
        struct_field_views(final(v)@) == struct_field_views(old(v)@) + struct_field_views(extra@),
{
    let mut extra = extra;
    let ghost before = v@;
    let ghost e = extra@;
    v.append(&mut extra);
    assert(struct_field_views(v@) =~= struct_field_views(before) + struct_field_views(e));
}

impl REType {
    /// The struct record of this type: inherited fields (named after the
    /// ancestor they come from), then its own fields, ordered by offset;
    /// and the number of inherited fields.
    pub fn get_struct_fields(&self, il2cpp: &Il2Cpp) -> (r: Result<(Vec<StructField>, usize), Il2CppError>)
        requires
            db_wf(il2cpp),
        ensures
            r matches Ok((fs, n)) && struct_field_views(fs@) == struct_layout(*self, il2cpp@).0 && n
                == struct_layout(*self, il2cpp@).1,
    {
        let ghost m = il2cpp@;
        let mut struct_fields: Vec<StructField> = Vec::new();
        let mut inherited_fields_added: usize = 0;
        let ghost anc = struct_ancestors(*self, m);
        if !self.is_enum_or_value_type() {
            let ancestors = collect_ancestors(il2cpp, self.parent.as_str(), true);
            assert(anc == derefs(ancestors@).reverse());
            let n = ancestors.len();
            let mut k = n;
            assert(anc.take(0) =~= Seq::<REType>::empty());
            while k > 0
                invariant
                    db_wf(il2cpp),
                    m == il2cpp@,
                    k <= n,
                    n == ancestors@.len(),
                    anc == derefs(ancestors@).reverse(),
                    struct_field_views(struct_fields@) == inherited_entries(m, anc.take(n - k)),
                decreases k,
            {
                k = k - 1;
                let a = ancestors[k];
                let mut pv: Vec<char> = Vec::new();
                pv.push('_');
                pv.push('_');
                pv.push('b');
                pv.push('a');
                pv.push('s');
                pv.push('e');
                pv.push('_');
                let san = sanitize_member_prefix(a.name.as_str());
                let sc = chars_of(san.as_str());
                extend_chars(&mut pv, sc.as_slice());
                let prefix = string_of(pv.as_slice());
                assert(prefix@ =~= base_prefix(*a));
                let fields = a.get_own_struct_fields(il2cpp, Some(prefix.as_str()), false);
                append_fields(&mut struct_fields, fields);
                proof {
                    let t = anc.take(n - k);
                    assert(t.drop_last() =~= anc.take(n - k - 1));
                    assert(t.last() == *a);
                }
            }
            assert(anc.take(n as int) =~= anc);
            inherited_fields_added = struct_fields.len();
        } else {
            assert(struct_field_views(struct_fields@) =~= inherited_entries(m, anc));
        }
        let own = self.get_own_struct_fields(il2cpp, None, true);
        append_fields(&mut struct_fields, own);
        let sorted = sort_fields_by_offset(struct_fields);
        Ok((sorted, inherited_fields_added))
    }
}

} // verus!

verus! {

/// The methods of `types`, type by type.
pub open spec fn all_methods(types: Seq<REType>) -> Seq<REMethod>
    decreases types.len(),
{
    if types.len() == 0 {
        Seq::empty()
    } else {
        all_methods(types.drop_last()) + types.last().methods@
    }
}

/// Whether a method may take a virtual-table slot: not static, and
/// virtual, abstract or declared in a new slot.
pub open spec fn takes_vtable_slot(m: REMethod) -> bool {
    &&& !m.flags@.contains(REMethodFlag::Static)
    &&& m.flags@.contains(REMethodFlag::Virtual) || m.flags@.contains(REMethodFlag::Abstract)
        || m.flags@.contains(REMethodFlag::NewSlot)
}

/// The slots filled by `ms`, in order: each slot goes to the first method
/// that claims it.
pub open spec fn vtable_slots(ms: Seq<REMethod>) -> Seq<(u64, REMethod)>
    decreases ms.len(),
{
    if ms.len() == 0 {
        Seq::empty()
    } else {
        let prev = vtable_slots(ms.drop_last());
        let m = ms.last();
        if takes_vtable_slot(m) && m.vtable_index is Some && !prev.map_values(
            |p: (u64, REMethod)| p.0,
        ).contains(m.vtable_index->0 as u64) {
            prev.push((m.vtable_index->0 as u64, m))
        } else {
            prev
        }
    }
}

/// Every slot number is a `u32` vtable index, and each slot is taken once.
pub proof fn lemma_vtable_slots(ms: Seq<REMethod>)
    ensures
        forall|k: int| 0 <= k < vtable_slots(ms).len() ==> #[trigger] vtable_slots(ms)[k].0 <= u32::MAX,
        slot_numbers(vtable_slots(ms)).no_duplicates(),
    decreases ms.len(),
{
    if ms.len() > 0 {
        lemma_vtable_slots(ms.drop_last());
        let prev = vtable_slots(ms.drop_last());
        assert(slot_numbers(prev) == prev.map_values(|p: (u64, REMethod)| p.0));
        let m = ms.last();
        if takes_vtable_slot(m) && m.vtable_index is Some && !slot_numbers(prev).contains(
            m.vtable_index->0 as u64,
        ) {
            assert(slot_numbers(vtable_slots(ms)) =~= slot_numbers(prev).push(
                m.vtable_index->0 as u64,
            ));
        }
    }
}

/// The type and its ancestors, the type first.
pub open spec fn vtable_classes(ty: REType, m: Seq<(Seq<char>, REType)>) -> Seq<REType> {
    seq![ty] + ancestors_from(m, ty.parent@, Seq::empty(), false)
}

/// Virtual-table slots with the methods behind the references.
pub open spec fn slot_views<'a>(s: Seq<(u64, &'a REMethod)>) -> Seq<(u64, REMethod)> {
    s.map_values(|p: (u64, &'a REMethod)| (p.0, *p.1))
}

/// The slot numbers of `s`.
pub open spec fn slot_numbers(s: Seq<(u64, REMethod)>) -> Seq<u64> {
    s.map_values(|p: (u64, REMethod)| p.0)
}

fn slot_taken<'a>(slots: &Vec<(u64, &'a REMethod)>, idx: u64) -> (b: bool)
    ensures
        b == slot_numbers(slot_views(slots@)).contains(idx),
{
    let ghost ns = slot_numbers(slot_views(slots@));
    for i in 0..slots.len()
        invariant
            ns == slot_numbers(slot_views(slots@)),
            forall|k: int| 0 <= k < i ==> ns[k] != idx,
    {
        if slots[i].0 == idx {
            assert(ns[i as int] == idx);
            return true;
        }
    }
    false
}

impl REType {
    /// The virtual-table slots of this type: the methods of the type and
    /// then of its ancestors that take a slot, each slot given to the first
    /// method that claims it.
    pub fn iter_vtable_methods<'a>(&'a self, il2cpp: &'a Il2Cpp) -> (res: Vec<(u64, &'a REMethod)>)
        requires
            db_wf(il2cpp),
        ensures
            slot_views(res@) == vtable_slots(all_methods(vtable_classes(*self, il2cpp@))),
    {
        let ghost m = il2cpp@;
        let mut ancestors: Vec<&'a REType> = Vec::new();
        ancestors.push(self);
        let parents = collect_ancestors(il2cpp, self.parent.as_str(), false);
        let mut parents = parents;
        let ghost pv = derefs(parents@);
        ancestors.append(&mut parents);
        let ghost classes = vtable_classes(*self, m);
        assert(derefs(ancestors@) =~= classes);
        let mut slots: Vec<(u64, &'a REMethod)> = Vec::new();
        for i in 0..ancestors.len()
            invariant
                classes == derefs(ancestors@),
                slot_views(slots@) == vtable_slots(all_methods(classes.take(i as int))),
        {
            let class = ancestors[i];
            let ghost done = all_methods(classes.take(i as int));
            assert(classes.take(i + 1).drop_last() =~= classes.take(i as int));
            assert(classes.take(i + 1).last() == *class);
            for j in 0..class.methods.len()
                invariant
                    done == all_methods(classes.take(i as int)),
                    slot_views(slots@) == vtable_slots(done + class.methods@.take(j as int)),
            {
                let method = &class.methods[j];
                let ghost ms = done + class.methods@.take(j + 1);
                assert(ms.drop_last() =~= done + class.methods@.take(j as int));
                assert(ms.last() == *method);
                let eligible = !has_flag(&method.flags, &REMethodFlag::Static) && (has_flag(
                    &method.flags,
                    &REMethodFlag::Virtual,
                ) || has_flag(&method.flags, &REMethodFlag::Abstract) || has_flag(
                    &method.flags,
                    &REMethodFlag::NewSlot,
                ));
                if eligible {
                    if let Some(idx) = method.vtable_index {
                        if !slot_taken(&slots, idx as u64) {
                            let ghost before = slots@;
                            slots.push((idx as u64, method));
                            assert(slot_views(slots@) =~= slot_views(before).push(
                                (idx as u64, *method),
                            ));
                        }
                    }
                }
            }
            assert(class.methods@.take(class.methods@.len() as int) =~= class.methods@);
        }
        assert(classes.take(classes.len() as int) =~= classes);
        slots
    }

    /// The virtual-table record of this type: a pointer to the type
    /// definition at offset 0, then a function pointer per slot at
    /// `8 * slot + 8`, ordered by offset; and the size of the table.
    pub fn get_struct_vtable(&self, il2cpp: &Il2Cpp) -> (r: Result<(u64, Vec<StructField>), Il2CppError>)
        requires
            db_wf(il2cpp),
        ensures
            !self.flags@.contains(RETypeFlag::ManagedVTable) ==> (r matches Err(
                Il2CppError::NoManagedVTable(n),
            ) && n@ == self.name@),
            self.flags@.contains(RETypeFlag::ManagedVTable) ==> (r matches Ok((size, fs))
                && size == vtable_size_of(vtable_slots(all_methods(vtable_classes(*self, il2cpp@))))
                && struct_field_views(fs@) == sort_by_offset(
                vtable_entries(*self, il2cpp@, vtable_slots(all_methods(vtable_classes(*self, il2cpp@)))),
            )),
    {
        if !has_flag(&self.flags, &RETypeFlag::ManagedVTable) {
            return Err(Il2CppError::NoManagedVTable(self.name.clone()));
        }
        let ghost slots_spec = vtable_slots(all_methods(vtable_classes(*self, il2cpp@)));
        let mut vtable_size: u64 = 8;
        let mut vtable_fields: Vec<StructField> = Vec::new();
        let tdname = chars_of("__type_definition");
        proof {
            reveal_strlit("__type_definition");
        }
        assert(tdname@ =~= type_definition_name());
        vtable_fields.push(
            StructField {
                ty: void_pointer(),
                name: string_of(tdname.as_slice()),
                offset: 0,
                is_static: false,
            },
        );
        let slots = self.iter_vtable_methods(il2cpp);
        proof {
            lemma_vtable_slots(all_methods(vtable_classes(*self, il2cpp@)));
        }
        assert(struct_field_views(vtable_fields@) =~= seq![type_definition_entry()]);
        assert(slots_spec.take(0) =~= Seq::<(u64, REMethod)>::empty());
        for i in 0..slots.len()
            invariant
                db_wf(il2cpp),
                slot_views(slots@) == slots_spec,
                struct_field_views(vtable_fields@) == seq![type_definition_entry()] + slot_entries(
                    *self,
                    il2cpp@,
                    slots_spec.take(i as int),
                ),
                vtable_size == vtable_size_of(slots_spec.take(i as int)),
                forall|k: int| 0 <= k < slots_spec.len() ==> slots_spec[k].0 <= u32::MAX,
        {
            let (vtable_index, method) = slots[i];
            let pdb_func = method.get_pdb_function(Some(self.name.as_str()), il2cpp);
            let func_ptr_type = PDBType::Pointer(Box::new(PDBType::Function(pdb_func)));
            assert(func_ptr_type@ == PdbTy::Pointer(Box::new(pdb_func@)));
            assert(slots_spec[i as int].0 == vtable_index);
            let offset = vtable_index * 8 + 8;
            let ghost before = vtable_fields@;
            let sf = StructField {
                ty: func_ptr_type,
                name: method.name.clone(),
                offset,
                is_static: false,
            };
            assert(sf@ == slot_entry(*self, il2cpp@, slots_spec[i as int]));
            vtable_fields.push(sf);
            assert(slots_spec.take(i + 1).drop_last() =~= slots_spec.take(i as int));
            assert(struct_field_views(vtable_fields@) =~= struct_field_views(before).push(sf@));
            if offset + 8 > vtable_size {
                vtable_size = offset + 8;
            }
        }
        assert(slots_spec.take(slots@.len() as int) =~= slots_spec);
        let sorted = sort_fields_by_offset(vtable_fields);
        Ok((vtable_size, sorted))
    }
}

/// The name of the first entry of a virtual table.
pub open spec fn type_definition_name() -> Seq<char> {
    seq![
        '_', '_', 't', 'y', 'p', 'e', '_', 'd', 'e', 'f', 'i', 'n', 'i', 't', 'i', 'o', 'n',
    ]
}

/// The first entry of every virtual-table record.
pub open spec fn type_definition_entry() -> StructFieldV {
    StructFieldV {
        ty: PdbTy::Pointer(Box::new(PdbTy::SimpleType(SimpleTypeKind::Void))),
        name: type_definition_name(),
        offset: 0,
        is_static: false,
    }
}

/// The entry of a slot: a pointer to the method's function record (as a
/// member of `ty`), named after the method, at `8 * slot + 8`.
pub open spec fn slot_entry(
    ty: REType,
    m: Seq<(Seq<char>, REType)>,
    slot: (u64, REMethod),
) -> StructFieldV {
    StructFieldV {
        ty: PdbTy::Pointer(Box::new(method_pdb_function(slot.1, Some(ty.name@), m))),
        name: slot.1.name@,
        offset: (slot.0 * 8 + 8) as u64,
        is_static: false,
    }
}

/// The virtual-table entries of `slots`, in slot order.
pub open spec fn slot_entries(
    ty: REType,
    m: Seq<(Seq<char>, REType)>,
    slots: Seq<(u64, REMethod)>,
) -> Seq<StructFieldV>
    decreases slots.len(),
{
    if slots.len() == 0 {
        Seq::empty()
    } else {
        slot_entries(ty, m, slots.drop_last()).push(slot_entry(ty, m, slots.last()))
    }
}

/// The virtual-table record's entries before ordering.
pub open spec fn vtable_entries(
    ty: REType,
    m: Seq<(Seq<char>, REType)>,
    slots: Seq<(u64, REMethod)>,
) -> Seq<StructFieldV> {
    seq![type_definition_entry()] + slot_entries(ty, m, slots)
}

/// The size of a virtual table: the end of its furthest slot, at least 8.
pub open spec fn vtable_size_of(slots: Seq<(u64, REMethod)>) -> u64
    decreases slots.len(),
{
    if slots.len() == 0 {
        8
    } else {
        let prev = vtable_size_of(slots.drop_last());
        let end = (slots.last().0 * 8 + 16) as u64;
        if end > prev {
            end
        } else {
            prev
        }
    }
}

} // verus!

verus! {

/// The struct record of a type lists its fields by offset and keeps every
/// inherited and own field.
pub proof fn lemma_struct_layout_sorted(ty: REType, m: Seq<(Seq<char>, REType)>)
    ensures
        crate::pdb::offsets_sorted(struct_layout(ty, m).0),
        struct_layout(ty, m).0.to_multiset() == (inherited_entries(m, struct_ancestors(ty, m))
            + own_field_entries(ty, ty.fields@, m, None, true)).to_multiset(),
{
    crate::pdb::lemma_sort_by_offset(
        inherited_entries(m, struct_ancestors(ty, m)) + own_field_entries(ty, ty.fields@, m, None, true),
    );
}

/// A virtual table is at least 8 bytes and reaches past every slot.
pub proof fn lemma_vtable_size_covers_slots(slots: Seq<(u64, REMethod)>)
    requires
        forall|k: int| 0 <= k < slots.len() ==> #[trigger] slots[k].0 <= u32::MAX,
    ensures
        vtable_size_of(slots) >= 8,
        forall|k: int| 0 <= k < slots.len() ==> #[trigger] slots[k].0 * 8 + 16 <= vtable_size_of(slots),
    decreases slots.len(),
{
    if slots.len() > 0 {
        let d = slots.drop_last();
        assert forall|k: int| 0 <= k < d.len() implies #[trigger] d[k].0 <= u32::MAX by {
            assert(d[k] == slots[k]);
        }
        lemma_vtable_size_covers_slots(d);
        assert forall|k: int| 0 <= k < slots.len() implies #[trigger] slots[k].0 * 8 + 16
            <= vtable_size_of(slots) by {
            if k < d.len() {
                assert(d[k] == slots[k]);
            }
        }
    }
}

/// The virtual-table record of a type lists its entries by offset, gives
/// each slot a distinct offset, and fits in the table's size.
pub proof fn lemma_vtable_record(ty: REType, m: Seq<(Seq<char>, REType)>)
    ensures
        crate::pdb::offsets_sorted(
            sort_by_offset(vtable_entries(ty, m, vtable_slots(all_methods(vtable_classes(ty, m))))),
        ),
        slot_numbers(vtable_slots(all_methods(vtable_classes(ty, m)))).no_duplicates(),
        forall|k: int|
            0 <= k < vtable_slots(all_methods(vtable_classes(ty, m))).len() ==> #[trigger] vtable_slots(
                all_methods(vtable_classes(ty, m)),
            )[k].0 * 8 + 16 <= vtable_size_of(vtable_slots(all_methods(vtable_classes(ty, m)))),
{
    let slots = vtable_slots(all_methods(vtable_classes(ty, m)));
    lemma_vtable_slots(all_methods(vtable_classes(ty, m)));
    lemma_vtable_size_covers_slots(slots);
    crate::pdb::lemma_sort_by_offset(vtable_entries(ty, m, slots));
}

/// The PDB type of a type named `name` looked up in the database agrees
/// with the one computed from its parent, and with the type's own.
pub proof fn lemma_pdb_type_agrees(m: Seq<(Seq<char>, REType)>, name: Seq<char>)
    requires
        map_get(m, name) is Some,
        map_get(m, name)->0.name@ == name,
    ensures
        pdb_type_for(name, parent_in(m, name)) == pdb_type_for(
            map_get(m, name)->0.name@,
            map_get(m, name)->0.parent@,
        ),
{
}

} // verus!

verus! {

/// The open piece and the finished pieces of `s` split at `sep`.
pub open spec fn split_state(s: Seq<char>, sep: char) -> (Seq<Seq<char>>, Seq<char>)
    decreases s.len(),
{
    if s.len() == 0 {
        (Seq::empty(), Seq::empty())
    } else {
        let st = split_state(s.drop_last(), sep);
        if s.last() == sep {
            (st.0.push(st.1), Seq::empty())
        } else {
            (st.0, st.1.push(s.last()))
        }
    }
}

/// `s` split at every `sep` (`str::split`): one more piece than separators.
pub open spec fn split_on(s: Seq<char>, sep: char) -> Seq<Seq<char>> {
    let st = split_state(s, sep);
    st.0.push(st.1)
}

/// The flags named by `pieces` (trimmed), in order; unknown names skipped.
pub open spec fn named_flags<F: FlagName>(pieces: Seq<Seq<char>>) -> Seq<F>
    decreases pieces.len(),
{
    if pieces.len() == 0 {
        Seq::empty()
    } else {
        let prev = named_flags::<F>(pieces.drop_last());
        match F::flag_named(crate::text::trim(pieces.last())) {
            Some(f) => prev.push(f),
            None => prev,
        }
    }
}

/// The trimmed pieces that name no flag, in order.
pub open spec fn unknown_flag_names<F: FlagName>(pieces: Seq<Seq<char>>) -> Seq<Seq<char>>
    decreases pieces.len(),
{
    if pieces.len() == 0 {
        Seq::empty()
    } else {
        let prev = unknown_flag_names::<F>(pieces.drop_last());
        match F::flag_named(crate::text::trim(pieces.last())) {
            Some(f) => prev,
            None => prev.push(crate::text::trim(pieces.last())),
        }
    }
}

/// Flags read from a `|`-separated list, and the names that name no flag.
#[derive(Debug)]
pub struct ParsedFlags<F> {
    pub flags: Vec<F>,
    pub unknown: Vec<String>,
}

fn split_chars(s: &[char], sep: char) -> (res: Vec<Vec<char>>)
    ensures
        crate::enums::char_seqs(res@) == split_on(s@, sep),
{
    let mut done: Vec<Vec<char>> = Vec::new();
    let mut cur: Vec<char> = Vec::new();
    for i in 0..s.len()
        invariant
            (crate::enums::char_seqs(done@), cur@) == split_state(s@.take(i as int), sep),
    {
        let ghost t = s@.take(i + 1);
        assert(t.drop_last() =~= s@.take(i as int));
        if s[i] == sep {
            let ghost before = crate::enums::char_seqs(done@);
            let ghost c = cur@;
            done.push(cur);
            assert(crate::enums::char_seqs(done@) =~= before.push(c));
            cur = Vec::new();
            assert(cur@ =~= Seq::<char>::empty());
        } else {
            cur.push(s[i]);
        }
    }
    assert(s@.take(s@.len() as int) =~= s@);
    let ghost before = crate::enums::char_seqs(done@);
    let ghost c = cur@;
    done.push(cur);
    assert(crate::enums::char_seqs(done@) =~= before.push(c));
    done
}

/// Reads a `|`-separated list of flag names: each name trimmed and looked
/// up; the names that name no flag are returned apart.
pub fn parse_flags<F: FlagName>(value: &str) -> (r: ParsedFlags<F>)
    ensures
        r.flags@ == named_flags::<F>(split_on(value@, '|')),
        crate::traversal::name_views(r.unknown@) == unknown_flag_names::<F>(split_on(value@, '|')),
{
    let cs = chars_of(value);
    let pieces = split_chars(cs.as_slice(), '|');
    let ghost ps = crate::enums::char_seqs(pieces@);
    let mut flags: Vec<F> = Vec::new();
    let mut unknown: Vec<String> = Vec::new();
    for i in 0..pieces.len()
        invariant
            ps == crate::enums::char_seqs(pieces@),
            flags@ == named_flags::<F>(ps.take(i as int)),
            crate::traversal::name_views(unknown@) == unknown_flag_names::<F>(ps.take(i as int)),
    {
        let ghost t = ps.take(i + 1);
        assert(t.drop_last() =~= ps.take(i as int));
        assert(t.last() == pieces@[i as int]@);
        let trimmed = crate::text::trim_chars(pieces[i].as_slice());
        let name = string_of(trimmed.as_slice());
        match F::from_name(name.as_str()) {
            Some(f) => {
                flags.push(f);
            },
            None => {
                let ghost before = crate::traversal::name_views(unknown@);
                unknown.push(name);
                assert(crate::traversal::name_views(unknown@) =~= before.push(trimmed@));
            },
        }
    }
    assert(ps.take(ps.len() as int) =~= ps);
    ParsedFlags { flags, unknown }
}

} // verus!

verus! {

/// The width in bits and the signedness of an integer simple type.
pub open spec fn int_kind(k: SimpleTypeKind) -> Option<(nat, bool)> {
    match k {
        SimpleTypeKind::SByte => Some((8, true)),
        SimpleTypeKind::Byte => Some((8, false)),
        SimpleTypeKind::Int16 => Some((16, true)),
        SimpleTypeKind::UInt16 => Some((16, false)),
        SimpleTypeKind::Int32 => Some((32, true)),
        SimpleTypeKind::UInt32 => Some((32, false)),
        SimpleTypeKind::Int64 => Some((64, true)),
        SimpleTypeKind::UInt64 => Some((64, false)),
        _ => None,
    }
}

/// No two names describe values by the same PDB type: each primitive has
/// a type of its own.
pub proof fn lemma_builtin_types_distinct(n1: Seq<char>, n2: Seq<char>)
    requires
        builtin_pdb_type(n1) is Some,
        builtin_pdb_type(n1) == builtin_pdb_type(n2),
    ensures
        n1 == n2,
{
}

/// `System.Int<bits>` and `System.UInt<bits>` are described by the simple
/// type of that width, signed and unsigned.
pub proof fn lemma_integer_names_keep_width(bits: nat)
    requires
        bits == 16 || bits == 32 || bits == 64,
    ensures
        builtin_pdb_type("System.Int"@ + crate::text::decimal(bits)) matches Some(
            PdbTy::SimpleType(k),
        ) && int_kind(k) == Some((bits, true)),
        builtin_pdb_type("System.UInt"@ + crate::text::decimal(bits)) matches Some(
            PdbTy::SimpleType(k),
        ) && int_kind(k) == Some((bits, false)),
{
    reveal_strlit("System.Int");
    reveal_strlit("System.UInt");
    reveal_strlit("System.Boolean");
    reveal_strlit("System.SByte");
    reveal_strlit("System.Int16");
    reveal_strlit("System.Int32");
    reveal_strlit("System.Int64");
    reveal_strlit("System.Byte");
    reveal_strlit("System.UInt16");
    reveal_strlit("System.UInt32");
    reveal_strlit("System.UInt64");
    reveal_strlit("System.Single");
    reveal_strlit("System.Double");
    reveal_strlit("System.Char");
    reveal_strlit("System.Void");
    reveal_strlit("System.Guid");
    reveal_with_fuel(crate::text::decimal, 2);
    if bits == 16 {
        reveal_strlit("System.Int16");
        reveal_strlit("System.UInt16");
        assert("System.Int"@ + crate::text::decimal(bits) =~= "System.Int16"@);
        assert("System.UInt"@ + crate::text::decimal(bits) =~= "System.UInt16"@);
        assert("System.Int16"@.len() != "System.Boolean"@.len());
        assert("System.Int16"@[7] != "System.SByte"@[7]);
        assert(builtin_pdb_type("System.Int16"@) == Some(PdbTy::SimpleType(SimpleTypeKind::Int16)));
        assert("System.UInt16"@.len() != "System.Boolean"@.len());
        assert("System.UInt16"@.len() != "System.SByte"@.len());
        assert("System.UInt16"@.len() != "System.Int16"@.len());
        assert("System.UInt16"@.len() != "System.Int32"@.len());
        assert("System.UInt16"@.len() != "System.Int64"@.len());
        assert("System.UInt16"@.len() != "System.Byte"@.len());
        assert(builtin_pdb_type("System.UInt16"@) == Some(PdbTy::SimpleType(SimpleTypeKind::UInt16)));
    } else if bits == 32 {
        reveal_strlit("System.Int32");
        reveal_strlit("System.UInt32");
        assert("System.Int"@ + crate::text::decimal(bits) =~= "System.Int32"@);
        assert("System.UInt"@ + crate::text::decimal(bits) =~= "System.UInt32"@);
        assert("System.Int32"@.len() != "System.Boolean"@.len());
        assert("System.Int32"@[7] != "System.SByte"@[7]);
        assert("System.Int32"@[10] != "System.Int16"@[10]);
        assert(builtin_pdb_type("System.Int32"@) == Some(PdbTy::SimpleType(SimpleTypeKind::Int32)));
        assert("System.UInt32"@.len() != "System.Boolean"@.len());
        assert("System.UInt32"@.len() != "System.SByte"@.len());
        assert("System.UInt32"@.len() != "System.Int16"@.len());
        assert("System.UInt32"@.len() != "System.Int32"@.len());
        assert("System.UInt32"@.len() != "System.Int64"@.len());
        assert("System.UInt32"@.len() != "System.Byte"@.len());
        assert("System.UInt32"@[11] != "System.UInt16"@[11]);
        assert(builtin_pdb_type("System.UInt32"@) == Some(PdbTy::SimpleType(SimpleTypeKind::UInt32)));
    } else {
        reveal_strlit("System.Int64");
        reveal_strlit("System.UInt64");
        assert("System.Int"@ + crate::text::decimal(bits) =~= "System.Int64"@);
        assert("System.UInt"@ + crate::text::decimal(bits) =~= "System.UInt64"@);
        assert("System.Int64"@.len() != "System.Boolean"@.len());
        assert("System.Int64"@[7] != "System.SByte"@[7]);
        assert("System.Int64"@[10] != "System.Int16"@[10]);
        assert("System.Int64"@[10] != "System.Int32"@[10]);
        assert(builtin_pdb_type("System.Int64"@) == Some(PdbTy::SimpleType(SimpleTypeKind::Int64)));
        assert("System.UInt64"@.len() != "System.Boolean"@.len());
        assert("System.UInt64"@.len() != "System.SByte"@.len());
        assert("System.UInt64"@.len() != "System.Int16"@.len());
        assert("System.UInt64"@.len() != "System.Int32"@.len());
        assert("System.UInt64"@.len() != "System.Int64"@.len());
        assert("System.UInt64"@.len() != "System.Byte"@.len());
        assert("System.UInt64"@[11] != "System.UInt16"@[11]);
        assert("System.UInt64"@[11] != "System.UInt32"@[11]);
        assert(builtin_pdb_type("System.UInt64"@) == Some(PdbTy::SimpleType(SimpleTypeKind::UInt64)));
    }
}

/// `System.SByte` and `System.Byte` are described by the signed and the
/// unsigned 8-bit simple types.
pub proof fn lemma_byte_names_keep_width()
    ensures
        builtin_pdb_type("System.SByte"@) matches Some(PdbTy::SimpleType(k)) && int_kind(k) == Some(
            (8nat, true),
        ),
        builtin_pdb_type("System.Byte"@) matches Some(PdbTy::SimpleType(k)) && int_kind(k) == Some(
            (8nat, false),
        ),
{
    reveal_strlit("System.Boolean");
    reveal_strlit("System.SByte");
    reveal_strlit("System.Int16");
    reveal_strlit("System.Int32");
    reveal_strlit("System.Int64");
    reveal_strlit("System.Byte");
    reveal_strlit("System.UInt16");
    reveal_strlit("System.UInt32");
    reveal_strlit("System.UInt64");
    reveal_strlit("System.Single");
    reveal_strlit("System.Double");
    reveal_strlit("System.Char");
    reveal_strlit("System.Void");
    reveal_strlit("System.Guid");
    assert("System.SByte"@.len() != "System.Boolean"@.len());
    assert(builtin_pdb_type("System.SByte"@) == Some(PdbTy::SimpleType(SimpleTypeKind::SByte)));
    assert("System.Byte"@.len() != "System.Boolean"@.len());
    assert("System.Byte"@.len() != "System.SByte"@.len());
    assert("System.Byte"@.len() != "System.Int16"@.len());
    assert("System.Byte"@.len() != "System.Int32"@.len());
    assert("System.Byte"@.len() != "System.Int64"@.len());
    assert(builtin_pdb_type("System.Byte"@) == Some(PdbTy::SimpleType(SimpleTypeKind::Byte)));
}

/// The return type of a method's function record is judged by the returned
/// type's own parent: never a pointer for an enum or a value type, a
/// pointer to the struct for another non-primitive type, and the same type
/// that `get_pdb_type` gives for the returned name.
pub proof fn lemma_return_type_follows_returned_type(
    meth: REMethod,
    class: Option<Seq<char>>,
    m: Seq<(Seq<char>, REType)>,
)
    requires
        meth.returns is Some,
        map_get(m, meth.returns->0.type_@) is Some,
    ensures
        ({
            let t = map_get(m, meth.returns->0.type_@)->0;
            method_pdb_function(meth, class, m) matches PdbTy::Function(ret, _, _, _) && {
                &&& (t.parent@ == "System.ValueType"@ || t.parent@ == "System.Enum"@) ==> !(*ret is Pointer)
                &&& (t.parent@ != "System.ValueType"@ && t.parent@ != "System.Enum"@ && builtin_pdb_type(
                    t.name@,
                ) is None) ==> *ret == PdbTy::Pointer(Box::new(PdbTy::Struct(t.name@)))
                &&& t.name@ == meth.returns->0.type_@ ==> *ret == pdb_type_for(
                    meth.returns->0.type_@,
                    parent_in(m, meth.returns->0.type_@),
                )
            }
        }),
{
}

} // verus!

verus! {

/// Whether `chain` lists, in order, the types met walking up from the
/// parent name `name` when the names `seen` were met already: each name is
/// looked up in `m` and the walk goes on to that type's parent; it stops at
/// an empty name, `System.ValueType`, `System.Enum`, a name met before or
/// a name `m` lacks. With `full`, the walk stops right after `chain`.
pub open spec fn parent_chain(
    m: Seq<(Seq<char>, REType)>,
    name: Seq<char>,
    seen: Seq<Seq<char>>,
    chain: Seq<REType>,
    full: bool,
) -> bool
    decreases chain.len(),
{
    let stops = name.len() == 0 || name == "System.ValueType"@ || name == "System.Enum"@
        || seen.contains(name) || map_get(m, name) is None;
    if chain.len() == 0 {
        full ==> stops
    } else {
        &&& !stops
        &&& map_get(m, name) == Some(chain[0])
        &&& parent_chain(m, chain[0].parent@, seen.push(name), chain.drop_first(), full)
    }
}

/// The number of non-static fields among `fs`.
pub open spec fn non_static_count(fs: Seq<REField>) -> nat
    decreases fs.len(),
{
    if fs.len() == 0 {
        0
    } else {
        non_static_count(fs.drop_last()) + if fs.last().flags@.contains(REFieldFlag::Static) {
            0nat
        } else {
            1nat
        }
    }
}

/// The number of non-static fields of all the types of `chain`.
pub open spec fn chain_non_static_count(chain: Seq<REType>) -> nat
    decreases chain.len(),
{
    if chain.len() == 0 {
        0
    } else {
        non_static_count(chain[0].fields@) + chain_non_static_count(chain.drop_first())
    }
}

proof fn lemma_parent_chain_is_ancestors(
    m: Seq<(Seq<char>, REType)>,
    name: Seq<char>,
    seen: Seq<Seq<char>>,
    chain: Seq<REType>,
    full: bool,
)
    requires
        distinct_keys_of(m, seen),
        parent_chain(m, name, seen, chain, full),
    ensures
        chain.len() <= ancestors_from(m, name, seen, true).len(),
        ancestors_from(m, name, seen, true).take(chain.len() as int) == chain,
        full ==> ancestors_from(m, name, seen, true) == chain,
    decreases chain.len(),
{
    if chain.len() > 0 {
        let p = chain[0];
        lemma_key_index(m, name);
        let s2 = seen.push(name);
        assert forall|i: int| 0 <= i < s2.len() implies key_index(m, #[trigger] s2[i]) >= 0 by {
            if i < seen.len() {
                assert(s2[i] == seen[i]);
            }
        }
        assert forall|i: int, j: int| 0 <= i < j < s2.len() implies s2[i] != s2[j] by {
            if j == seen.len() {
                assert(s2[i] == seen[i]);
            } else {
                assert(s2[i] == seen[i]);
                assert(s2[j] == seen[j]);
            }
        }
        assert(s2.no_duplicates());
        lemma_parent_chain_is_ancestors(m, p.parent@, s2, chain.drop_first(), full);
        let rest = ancestors_from(m, p.parent@, s2, true);
        assert(ancestors_from(m, name, seen, true) == seq![p] + rest);
        assert((seq![p] + rest).take(chain.len() as int) =~= seq![p] + rest.take(
            chain.len() - 1,
        ));
        assert(chain =~= seq![p] + chain.drop_first());
    } else {
        assert(ancestors_from(m, name, seen, true).take(0) =~= chain);
    }
}

proof fn lemma_own_entry_listed(
    ty: REType,
    fs: Seq<REField>,
    m: Seq<(Seq<char>, REType)>,
    prefix: Option<Seq<char>>,
    k: int,
)
    requires
        0 <= k < fs.len(),
        !fs[k].flags@.contains(REFieldFlag::Static),
    ensures
        own_field_entries(ty, fs, m, prefix, false).contains(field_entry(ty, fs[k], m, prefix)),
    decreases fs.len(),
{
    let e = own_field_entries(ty, fs, m, prefix, false);
    if k == fs.len() - 1 {
        assert(e[e.len() - 1] == field_entry(ty, fs[k], m, prefix));
    } else {
        lemma_own_entry_listed(ty, fs.drop_last(), m, prefix, k);
        assert(fs.drop_last()[k] == fs[k]);
        let d = own_field_entries(ty, fs.drop_last(), m, prefix, false);
        let j = choose|j: int| 0 <= j < d.len() && d[j] == field_entry(ty, fs[k], m, prefix);
        assert(e[j] == d[j]);
    }
}

proof fn lemma_own_entries_count(
    ty: REType,
    fs: Seq<REField>,
    m: Seq<(Seq<char>, REType)>,
    prefix: Option<Seq<char>>,
)
    ensures
        own_field_entries(ty, fs, m, prefix, false).len() == non_static_count(fs),
    decreases fs.len(),
{
    if fs.len() > 0 {
        lemma_own_entries_count(ty, fs.drop_last(), m, prefix);
    }
}

proof fn lemma_inherited_entry_listed(m: Seq<(Seq<char>, REType)>, anc: Seq<REType>, i: int, k: int)
    requires
        0 <= i < anc.len(),
        0 <= k < anc[i].fields@.len(),
        !anc[i].fields@[k].flags@.contains(REFieldFlag::Static),
    ensures
        inherited_entries(m, anc).contains(
            field_entry(anc[i], anc[i].fields@[k], m, Some(base_prefix(anc[i]))),
        ),
    decreases anc.len(),
{
    let x = field_entry(anc[i], anc[i].fields@[k], m, Some(base_prefix(anc[i])));
    let a = anc.last();
    let d = inherited_entries(m, anc.drop_last());
    let o = own_field_entries(a, a.fields@, m, Some(base_prefix(a)), false);
    if i == anc.len() - 1 {
        lemma_own_entry_listed(a, a.fields@, m, Some(base_prefix(a)), k);
        let j = choose|j: int| 0 <= j < o.len() && o[j] == x;
        assert((d + o)[d.len() + j] == x);
    } else {
        lemma_inherited_entry_listed(m, anc.drop_last(), i, k);
        assert(anc.drop_last()[i] == anc[i]);
        let j = choose|j: int| 0 <= j < d.len() && d[j] == x;
        assert((d + o)[j] == x);
    }
}

proof fn lemma_inherited_entries_count(m: Seq<(Seq<char>, REType)>, chain: Seq<REType>)
    ensures
        inherited_entries(m, chain.reverse()).len() == chain_non_static_count(chain),
    decreases chain.len(),
{
    if chain.len() > 0 {
        let r = chain.reverse();
        assert(r.drop_last() =~= chain.drop_first().reverse());
        assert(r.last() == chain[0]);
        lemma_inherited_entries_count(m, chain.drop_first());
        lemma_own_entries_count(chain[0], chain[0].fields@, m, Some(base_prefix(chain[0])));
    } else {
        assert(chain.reverse() =~= Seq::<REType>::empty());
    }
}

/// The struct record of a type that is neither an enum nor a value type
/// inherits from every ancestor met walking up its parent chain: each
/// non-static field of each of them is a member named `__base_`, the
/// ancestor's name with non-word characters as `_`, `__` and the field's
/// name, at the field's offset, and not static.
pub proof fn lemma_struct_record_inherits_every_ancestor(
    ty: REType,
    m: Seq<(Seq<char>, REType)>,
    chain: Seq<REType>,
)
    requires
        keys_distinct(m),
        ty.parent@ != "System.ValueType"@,
        ty.parent@ != "System.Enum"@,
        parent_chain(m, ty.parent@, Seq::empty(), chain, false),
    ensures
        forall|i: int, k: int|
            0 <= i < chain.len() && 0 <= k < chain[i].fields@.len()
                && !chain[i].fields@[k].flags@.contains(REFieldFlag::Static) ==> exists|j: int|
                0 <= j < struct_layout(ty, m).0.len() && struct_layout(ty, m).0[j].name == seq![
                    '_',
                    '_',
                    'b',
                    'a',
                    's',
                    'e',
                    '_',
                ] + sanitized(chain[i].name@) + seq!['_', '_'] + chain[i].fields@[k].name@
                    && struct_layout(ty, m).0[j].offset == (if chain[i].parent@
                    == "System.ValueType"@ || chain[i].parent@ == "System.Enum"@ {
                    chain[i].fields@[k].offset_from_fieldptr as u64
                } else {
                    chain[i].fields@[k].offset_from_base as u64
                }) && !struct_layout(ty, m).0[j].is_static,
{
    broadcast use vstd::seq_lib::group_to_multiset_ensures;

    assert(distinct_keys_of(m, Seq::empty()));
    lemma_parent_chain_is_ancestors(m, ty.parent@, Seq::empty(), chain, false);
    let full = ancestors_from(m, ty.parent@, Seq::empty(), true);
    let anc = struct_ancestors(ty, m);
    assert(anc == full.reverse());
    let inh = inherited_entries(m, anc);
    let own = own_field_entries(ty, ty.fields@, m, None, true);
    let layout = struct_layout(ty, m).0;
    crate::pdb::lemma_sort_by_offset(inh + own);
    assert forall|i: int, k: int|
        0 <= i < chain.len() && 0 <= k < chain[i].fields@.len()
            && !chain[i].fields@[k].flags@.contains(REFieldFlag::Static) implies exists|j: int|
        0 <= j < layout.len() && layout[j].name == seq!['_', '_', 'b', 'a', 's', 'e', '_'] + sanitized(
            chain[i].name@,
        ) + seq!['_', '_'] + chain[i].fields@[k].name@ && layout[j].offset == (if chain[i].parent@
            == "System.ValueType"@ || chain[i].parent@ == "System.Enum"@ {
            chain[i].fields@[k].offset_from_fieldptr as u64
        } else {
            chain[i].fields@[k].offset_from_base as u64
        }) && !layout[j].is_static by {
        let a = chain[i];
        assert(full.take(chain.len() as int)[i] == full[i]);
        let ri = full.len() - 1 - i;
        assert(anc[ri] == a);
        lemma_inherited_entry_listed(m, anc, ri, k);
        let x = field_entry(a, a.fields@[k], m, Some(base_prefix(a)));
        let j0 = choose|j: int| 0 <= j < inh.len() && inh[j] == x;
        assert((inh + own)[j0] == x);
        assert((inh + own).contains(x));
        assert((inh + own).to_multiset().count(x) > 0);
        assert(layout.to_multiset().count(x) > 0);
        assert(layout.contains(x));
        let j = choose|j: int| 0 <= j < layout.len() && layout[j] == x;
        assert(layout[j] == x);
    }
}

/// The number of inherited members of the struct record of a type that is
/// neither an enum nor a value type is the number of non-static fields of
/// all the ancestors met walking up its whole parent chain.
pub proof fn lemma_inherited_count_is_whole_chain(ty: REType, m: Seq<(Seq<char>, REType)>, chain: Seq<REType>)
    requires
        keys_distinct(m),
        ty.parent@ != "System.ValueType"@,
        ty.parent@ != "System.Enum"@,
        parent_chain(m, ty.parent@, Seq::empty(), chain, true),
    ensures
        struct_layout(ty, m).1 == chain_non_static_count(chain),
{
    assert(distinct_keys_of(m, Seq::empty()));
    lemma_parent_chain_is_ancestors(m, ty.parent@, Seq::empty(), chain, true);
    lemma_inherited_entries_count(m, chain);
}

/// The struct record of an enum or a value type inherits nothing.
pub proof fn lemma_value_types_inherit_nothing(ty: REType, m: Seq<(Seq<char>, REType)>)
    requires
        ty.parent@ == "System.ValueType"@ || ty.parent@ == "System.Enum"@,
    ensures
        struct_layout(ty, m).1 == 0,
{
}

} // verus!

verus! {

/// The width in bits of a floating-point simple type.
pub open spec fn float_width(k: SimpleTypeKind) -> Option<nat> {
    match k {
        SimpleTypeKind::Float32 => Some(32),
        SimpleTypeKind::Float64 => Some(64),
        _ => None,
    }
}

/// `System.Single` and `System.Double` are described by the 32-bit and
/// the 64-bit floating-point simple types.
pub proof fn lemma_float_names_keep_width()
    ensures
        builtin_pdb_type("System.Single"@) matches Some(PdbTy::SimpleType(k)) && float_width(k)
            == Some(32nat),
        builtin_pdb_type("System.Double"@) matches Some(PdbTy::SimpleType(k)) && float_width(k)
            == Some(64nat),
{
    reveal_strlit("System.Boolean");
    reveal_strlit("System.SByte");
    reveal_strlit("System.Int16");
    reveal_strlit("System.Int32");
    reveal_strlit("System.Int64");
    reveal_strlit("System.Byte");
    reveal_strlit("System.UInt16");
    reveal_strlit("System.UInt32");
    reveal_strlit("System.UInt64");
    reveal_strlit("System.Single");
    reveal_strlit("System.Double");
    reveal_strlit("System.Char");
    reveal_strlit("System.Void");
    reveal_strlit("System.Guid");
    assert("System.Single"@.len() != "System.Boolean"@.len());
    assert("System.Single"@.len() != "System.SByte"@.len());
    assert("System.Single"@.len() != "System.Int16"@.len());
    assert("System.Single"@.len() != "System.Int32"@.len());
    assert("System.Single"@.len() != "System.Int64"@.len());
    assert("System.Single"@.len() != "System.Byte"@.len());
    assert("System.Single"@[7] != "System.UInt16"@[7]);
    assert("System.Single"@[7] != "System.UInt32"@[7]);
    assert("System.Single"@[7] != "System.UInt64"@[7]);
    assert(builtin_pdb_type("System.Single"@) == Some(PdbTy::SimpleType(SimpleTypeKind::Float32)));
    assert("System.Double"@.len() != "System.Boolean"@.len());
    assert("System.Double"@.len() != "System.SByte"@.len());
    assert("System.Double"@.len() != "System.Int16"@.len());
    assert("System.Double"@.len() != "System.Int32"@.len());
    assert("System.Double"@.len() != "System.Int64"@.len());
    assert("System.Double"@.len() != "System.Byte"@.len());
    assert("System.Double"@[7] != "System.UInt16"@[7]);
    assert("System.Double"@[7] != "System.UInt32"@[7]);
    assert("System.Double"@[7] != "System.UInt64"@[7]);
    assert("System.Double"@[7] != "System.Single"@[7]);
    assert(builtin_pdb_type("System.Double"@) == Some(PdbTy::SimpleType(SimpleTypeKind::Float64)));
}

} // verus!
