# ree_pdb

Reads a dump of a game's il2cpp type database together with the dumped game
executable, finds the globals that hold singleton instances, and describes
the database's types as PDB type records (struct layouts, virtual tables,
function signatures).

The library in `src/` is verified with Verus:

- `text`, `num`: character and number handling (trimming, replacement,
  `from_str_radix`-style parsing).
- `strmap`: a string-keyed map that keeps insertion order.
- `pdb`: the PDB type records and a stable sort of struct members by offset.
- `il2cpp`: the type database, flag lists, PDB types of types and methods,
  struct layouts with inherited members, virtual tables.
- `util`: struct and member name rewriting, hexadecimal addresses, listing
  lines.
- `traversal`: a depth-first walk that lists every type after the types it
  refers to.
- `analyzer`: mapping a PE image into memory and finding singleton globals
  by decoding accessor methods.
- `enums`: enum definitions read from a C++ header.

`app/main.rs` is the command-line program: it reads the files, turns the
JSON dump into the library's types, and prints what the library finds.
