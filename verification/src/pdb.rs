//! A plain model of the PDB type records that the library describes types
//! with: simple types, pointers, named structs, constant arrays and
//! function signatures.
use vstd::prelude::*;

verus! {

/// The CodeView simple types that il2cpp primitive types map to.
#[derive(Debug, Clone, Copy, PartialEq, Eq, Structural)]
pub enum SimpleTypeKind {
    Void,
    Boolean8,
    SByte,
    Byte,
    Int16,
    UInt16,
    Int32,
    UInt32,
    Int64,
    UInt64,
    Float32,
    Float64,
    WideCharacter,
}

/// Calling conventions of function records (the CodeView `CV_call_e` values used here).
#[derive(Debug, Clone, Copy, PartialEq, Eq, Structural)]
pub enum CallingConvention {
    NearC,
    NearFast,
    NearStdCall,
    ThisCall,
}

/// A PDB type record.
#[derive(Debug)]
pub enum PDBType {
    Pointer(Box<PDBType>),
    SimpleType(SimpleTypeKind),
    Struct(String),
    ConstantArray(Box<PDBType>, usize),
    Function(PDBFunction),
}

/// A function signature record: return type, argument types, an optional
/// class type and a calling convention.
#[derive(Debug)]
pub struct PDBFunction {
    pub ret: Box<PDBType>,
    pub args: Vec<PDBType>,
    pub class: Option<Box<PDBType>>,
    pub cconv: CallingConvention,
}

/// A member of a struct record.
#[derive(Debug)]
pub struct StructField {
    pub ty: PDBType,
    pub name: String,
    pub offset: u64,
    pub is_static: bool,
}

/// The mathematical value of a [`PDBType`]: names as character sequences.
pub enum PdbTy {
    Pointer(Box<PdbTy>),
    SimpleType(SimpleTypeKind),
    Struct(Seq<char>),
    ConstantArray(Box<PdbTy>, usize),
    Function(Box<PdbTy>, Seq<PdbTy>, Option<Box<PdbTy>>, CallingConvention),
}

/// The mathematical value of a [`PDBType`].
pub open spec fn ty_view(t: PDBType) -> PdbTy
    decreases t,
{
    match t {
        PDBType::Pointer(b) => PdbTy::Pointer(Box::new(ty_view(*b))),
        PDBType::SimpleType(k) => PdbTy::SimpleType(k),
        PDBType::Struct(s) => PdbTy::Struct(s@),
        PDBType::ConstantArray(b, n) => PdbTy::ConstantArray(Box::new(ty_view(*b)), n),
        PDBType::Function(f) => PdbTy::Function(
            Box::new(ty_view(*f.ret)),
            tys_view(f.args@),
            match f.class {
                Some(c) => Some(Box::new(ty_view(*c))),
                None => None,
            },
            f.cconv,
        ),
    }
}

/// The mathematical values of a sequence of [`PDBType`]s.
pub open spec fn tys_view(s: Seq<PDBType>) -> Seq<PdbTy>
    decreases s,
{
    if s.len() == 0 {
        Seq::empty()
    } else {
        tys_view(s.drop_last()).push(ty_view(s.last()))
    }
}

/// `tys_view` maps `ty_view` over the sequence.
pub proof fn lemma_tys_view(s: Seq<PDBType>)
    ensures
        tys_view(s) == s.map_values(|t: PDBType| ty_view(t)),
    decreases s.len(),
{
    if s.len() > 0 {
        lemma_tys_view(s.drop_last());
        assert(s.map_values(|t: PDBType| ty_view(t)) =~= s.drop_last().map_values(
            |t: PDBType| ty_view(t),
        ).push(ty_view(s.last())));
    } else {
        assert(s.map_values(|t: PDBType| ty_view(t)) =~= Seq::<PdbTy>::empty());
    }
}

impl View for PDBFunction {
    type V = PdbTy;

    open spec fn view(&self) -> PdbTy {
        ty_view(PDBType::Function(*self))
    }
}

/// The mathematical value of a [`StructField`].
pub struct StructFieldV {
    pub ty: PdbTy,
    pub name: Seq<char>,
    pub offset: u64,
    pub is_static: bool,
}

impl View for StructField {
    type V = StructFieldV;

    open spec fn view(&self) -> StructFieldV {
        StructFieldV { ty: self.ty@, name: self.name@, offset: self.offset, is_static: self.is_static }
    }
}

impl PDBFunction {
    /// A function record with the given return type, argument types, class
    /// type and calling convention.
    pub fn new_ex(
        ret: PDBType,
        args: Vec<PDBType>,
        class: Option<PDBType>,
        cconv: CallingConvention,
    ) -> (f: PDBFunction)
        ensures
            f.ret == ret,
            f.args == args,
            f.class == (match class {
                Some(c) => Some(Box::new(c)),
                None => None,
            }),
            f.cconv == cconv,
    {
        let class = match class {
            Some(c) => Some(Box::new(c)),
            None => None,
        };
        PDBFunction { ret: Box::new(ret), args, class, cconv }
    }
}

impl View for PDBType {
    type V = PdbTy;

    open spec fn view(&self) -> PdbTy {
        ty_view(*self)
    }
}

} // verus!

verus! {

/// `sorted` with `x` placed after every entry whose offset is at most `x`'s.
pub open spec fn insert_by_offset(sorted: Seq<StructFieldV>, x: StructFieldV) -> Seq<StructFieldV>
    decreases sorted.len(),
{
    if sorted.len() == 0 || sorted.last().offset <= x.offset {
        sorted.push(x)
    } else {
        insert_by_offset(sorted.drop_last(), x).push(sorted.last())
    }
}

/// `s` ordered by offset, entries with equal offsets kept in their order
/// (a stable sort).
pub open spec fn sort_by_offset(s: Seq<StructFieldV>) -> Seq<StructFieldV>
    decreases s.len(),
{
    if s.len() == 0 {
        s
    } else {
        insert_by_offset(sort_by_offset(s.drop_last()), s.last())
    }
}

/// Offsets never decrease along `s`.
pub open spec fn offsets_sorted(s: Seq<StructFieldV>) -> bool {
    forall|i: int, j: int| 0 <= i <= j < s.len() ==> s[i].offset <= s[j].offset
}

/// Inserting into a sorted sequence puts the entry at the position after
/// every entry of offset at most its own.
pub proof fn lemma_insert_at(sorted: Seq<StructFieldV>, x: StructFieldV, pos: int)
    requires
        0 <= pos <= sorted.len(),
        forall|k: int| pos <= k < sorted.len() ==> sorted[k].offset > x.offset,
        pos == 0 || sorted[pos - 1].offset <= x.offset,
    ensures
        insert_by_offset(sorted, x) == sorted.insert(pos, x),
    decreases sorted.len(),
{
    if pos == sorted.len() {
        assert(sorted.push(x) =~= sorted.insert(pos, x));
    } else {
        lemma_insert_at(sorted.drop_last(), x, pos);
        assert(sorted.drop_last().insert(pos, x).push(sorted.last()) =~= sorted.insert(pos, x));
    }
}

/// Inserting into a sorted sequence keeps it sorted and adds the entry.
pub proof fn lemma_insert_sorted(sorted: Seq<StructFieldV>, x: StructFieldV)
    requires
        offsets_sorted(sorted),
    ensures
        offsets_sorted(insert_by_offset(sorted, x)),
        insert_by_offset(sorted, x).to_multiset() == sorted.to_multiset().insert(x),
    decreases sorted.len(),
{
    broadcast use vstd::seq_lib::group_to_multiset_ensures;

    if sorted.len() == 0 || sorted.last().offset <= x.offset {
    } else {
        let d = sorted.drop_last();
        lemma_insert_sorted(d, x);
        let r = insert_by_offset(d, x);
        assert(sorted =~= d.push(sorted.last()));
        assert forall|k: int| 0 <= k < r.len() implies r[k].offset <= sorted.last().offset by {
            assert(r.to_multiset().count(r[k]) > 0);
            assert(d.to_multiset().insert(x).count(r[k]) > 0);
            if r[k] != x {
                assert(d.to_multiset().count(r[k]) > 0);
                assert(d.contains(r[k]));
                let j = choose|j: int| 0 <= j < d.len() && d[j] == r[k];
                assert(sorted[j] == d[j]);
            }
        }
    }
}

/// Sorting orders by offset and keeps every entry.
pub proof fn lemma_sort_by_offset(s: Seq<StructFieldV>)
    ensures
        offsets_sorted(sort_by_offset(s)),
        sort_by_offset(s).to_multiset() == s.to_multiset(),
    decreases s.len(),
{
    broadcast use vstd::seq_lib::group_to_multiset_ensures;

    if s.len() > 0 {
        lemma_sort_by_offset(s.drop_last());
        lemma_insert_sorted(sort_by_offset(s.drop_last()), s.last());
        assert(s =~= s.drop_last().push(s.last()));
    }
}

/// The mathematical values of a sequence of struct members.
pub open spec fn struct_field_views(fs: Seq<StructField>) -> Seq<StructFieldV> {
    fs.map_values(|f: StructField| f@)
}

/// `fields` ordered by offset; fields with equal offsets keep their order.
pub fn sort_fields_by_offset(fields: Vec<StructField>) -> (res: Vec<StructField>)
    ensures
        struct_field_views(res@) == sort_by_offset(struct_field_views(fields@)),
{
    let mut fields = fields;
    let mut res: Vec<StructField> = Vec::new();
    let ghost all = struct_field_views(fields@);
    let ghost mut taken: int = 0;
    assert(all.skip(0) =~= all);
    while fields.len() > 0
        invariant
            0 <= taken <= all.len(),
            struct_field_views(fields@) == all.skip(taken),
            struct_field_views(res@) == sort_by_offset(all.take(taken)),
        decreases fields.len(),
    {
        let ghost before_fields = fields@;
        let x = fields.remove(0);
        proof {
            assert(before_fields.len() > 0);
            assert(struct_field_views(before_fields) == all.skip(taken));
            assert(struct_field_views(before_fields).len() == before_fields.len());
            assert(all.skip(taken).len() == all.len() - taken);
            assert(taken < all.len());
            assert(all.skip(taken)[0] == all[taken]);
            assert(x@ == all[taken]);
            assert(fields@ =~= before_fields.subrange(1, before_fields.len() as int));
            assert forall|k: int| 0 <= k < fields@.len() implies struct_field_views(fields@)[k]
                == all.skip(taken + 1)[k] by {
                assert(fields@[k] == before_fields[k + 1]);
                assert(struct_field_views(before_fields)[k + 1] == all.skip(taken)[k + 1]);
            }
            assert(struct_field_views(fields@) =~= all.skip(taken + 1));
            assert(all.take(taken + 1).drop_last() =~= all.take(taken));
        }
        let mut pos = res.len();
        while pos > 0 && res[pos - 1].offset > x.offset
            invariant
                pos <= res@.len(),
                forall|k: int| pos <= k < res@.len() ==> res@[k].offset > x.offset,
            decreases pos,
        {
            pos = pos - 1;
        }
        proof {
            let sv = struct_field_views(res@);
            assert forall|k: int| pos <= k < sv.len() implies sv[k].offset > x@.offset by {}
            lemma_insert_at(sv, x@, pos as int);
        }
        let ghost before = res@;
        res.insert(pos, x);
        assert(struct_field_views(res@) =~= struct_field_views(before).insert(pos as int, x@));
        proof {
            taken = taken + 1;
        }
    }
    assert(all.take(all.len() as int) =~= all);
    res
}

} // verus!
