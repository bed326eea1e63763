//! Maps a 64-bit PE image into memory the way the loader lays it out and
//! finds the globals that hold singleton instances, by decoding the first
//! instructions of their accessor methods.
use vstd::prelude::*;

use iced_x86::{Decoder, DecoderOptions, FlowControl, Mnemonic, OpKind, Register};
use object::{LittleEndian, Object, ObjectSection};

use crate::il2cpp::{db_wf, has_flag, Il2Cpp, REField, REFieldFlag, REMethod, REMethodFlag, REType};
use crate::strmap::{lemma_map_insert, map_insert, Entries, StrMap};
use crate::text::{
    chars_of, decimal, decimal_chars, has_prefix, replace_all, replace_chars, starts_with, str_eq,
};

verus! {

/// Width of the column of instruction bytes in a listing, in bytes.
pub const HEXBYTES_COLUMN_BYTE_LENGTH: usize = 10;

/// The preferred load address of the game executable.
pub const BASE_ADDRESS: u64 = 0x140000000;

/// The error type of `object`'s readers.
#[verifier::external_type_specification]
#[verifier::external_body]
pub struct ExObjectError(object::Error);

/// A section of a PE image: its virtual address, and its raw data when the
/// file holds it.
#[derive(Debug)]
pub struct PeSection {
    pub address: u64,
    pub data: Option<Vec<u8>>,
}

/// What the mapping needs of a PE image's headers.
#[derive(Debug)]
pub struct PeImage {
    pub image_base: u64,
    pub size_of_image: u32,
    pub size_of_headers: u32,
    pub sections: Vec<PeSection>,
}

/// The mathematical value of a [`PeImage`].
pub struct PeImageV {
    pub image_base: u64,
    pub size_of_image: u32,
    pub size_of_headers: u32,
    pub sections: Seq<(u64, Option<Seq<u8>>)>,
}

/// The mathematical value of a [`PeSection`].
pub open spec fn section_view(s: PeSection) -> (u64, Option<Seq<u8>>) {
    (
        s.address,
        match s.data {
            Some(d) => Some(d@),
            None => None,
        },
    )
}

impl View for PeImage {
    type V = PeImageV;

    open spec fn view(&self) -> PeImageV {
        PeImageV {
            image_base: self.image_base,
            size_of_image: self.size_of_image,
            size_of_headers: self.size_of_headers,
            sections: self.sections@.map_values(|s: PeSection| section_view(s)),
        }
    }
}

/// What `object`'s 64-bit PE reader makes of the bytes `exe`, when it
/// accepts them.
pub uninterp spec fn parsed_pe_image(exe: Seq<u8>) -> Option<PeImageV>;

/// `PeFile64::parse` and the header fields and sections it exposes:
/// `relative_address_base`, `optional_header.size_of_image`,
/// `optional_header.size_of_headers`, and each section's `address` and
/// `data` (absent where `data` fails). The result is named: it depends on
/// the bytes alone. Nothing more is stated of PE parsing.
#[verifier::external_body]
fn read_pe_image(exe: &[u8]) -> (r: Result<PeImage, object::Error>)
    ensures
        r is Ok <==> parsed_pe_image(exe@) is Some,
        r matches Ok(img) ==> parsed_pe_image(exe@) == Some(img@),
{
    let pe = object::read::pe::PeFile64::parse(exe)?;
    let header = &pe.nt_headers().optional_header;
    let mut sections = Vec::new();
    for s in pe.sections() {
        sections.push(PeSection { address: s.address(), data: s.data().ok().map(|d| d.to_vec()) });
    }
    Ok(PeImage {
        image_base: pe.relative_address_base(),
        size_of_image: header.size_of_image.get(LittleEndian),
        size_of_headers: header.size_of_headers.get(LittleEndian),
        sections,
    })
}

/// Errors of [`Analyzer::new`].
#[derive(Debug)]
pub enum AnalyzerError {
    /// The bytes are not a 64-bit PE image.
    InvalidPe(object::Error),
    /// The headers or a section with data do not fit in the image size, or
    /// a section with data lies below the image base.
    ImageLayout,
}

/// The smaller of two integers.
pub open spec fn min(a: int, b: int) -> int {
    if a <= b {
        a
    } else {
        b
    }
}

/// How many header bytes are copied: the headers, or the whole file if it
/// is shorter.
pub open spec fn header_copy_len(img: PeImageV, exe_len: int) -> int {
    min(img.size_of_headers as int, exe_len)
}

/// A section whose data is copied starts at or above `base` and no
/// further than `size` bytes after it; a section without data is skipped.
pub open spec fn section_fits(section: (u64, Option<Seq<u8>>), base: u64, size: int) -> bool {
    section.1 is Some ==> (section.0 >= base && section.0 - base <= size)
}

/// The image fits its declared size: the copied headers do, and every
/// section with data starts at or above the image base and no further
/// than the end of the image.
pub open spec fn layout_fits(img: PeImageV, exe_len: int) -> bool {
    &&& header_copy_len(img, exe_len) <= img.size_of_image
    &&& forall|i: int|
        0 <= i < img.sections.len() ==> section_fits(
            #[trigger] img.sections[i],
            img.image_base,
            img.size_of_image as int,
        )
}

/// `vm` with the first bytes from `rva` on overwritten by `data`, cut at
/// the end of `vm`.
pub open spec fn copy_section(vm: Seq<u8>, rva: int, data: Seq<u8>) -> Seq<u8> {
    let n = min(data.len() as int, vm.len() - rva);
    vm.take(rva) + data.take(n) + vm.skip(rva + n)
}

/// `vm` after copying the data of `sections` in order, each at its address
/// relative to `base`.
pub open spec fn map_sections(vm: Seq<u8>, base: u64, sections: Seq<(u64, Option<Seq<u8>>)>) -> Seq<u8>
    decreases sections.len(),
{
    if sections.len() == 0 {
        vm
    } else {
        let prev = map_sections(vm, base, sections.drop_last());
        match sections.last().1 {
            Some(d) => copy_section(prev, sections.last().0 - base, d),
            None => prev,
        }
    }
}

/// The image as loaded: `size_of_image` bytes, starting with the headers
/// copied from the file and zero elsewhere, then each section's data at its
/// relative address.
pub open spec fn mapped_image(exe: Seq<u8>, img: PeImageV) -> Seq<u8> {
    let h = header_copy_len(img, exe.len() as int);
    map_sections(
        exe.take(h) + Seq::new((img.size_of_image - h) as nat, |i: int| 0u8),
        img.image_base,
        img.sections,
    )
}

/// Copying sections that start inside the memory keeps its length.
pub proof fn lemma_map_sections_len(vm: Seq<u8>, base: u64, sections: Seq<(u64, Option<Seq<u8>>)>)
    requires
        forall|i: int|
            0 <= i < sections.len() ==> section_fits(#[trigger] sections[i], base, vm.len() as int),
    ensures
        map_sections(vm, base, sections).len() == vm.len(),
    decreases sections.len(),
{
    if sections.len() > 0 {
        assert forall|i: int| 0 <= i < sections.drop_last().len() implies section_fits(
            #[trigger] sections.drop_last()[i],
            base,
            vm.len() as int,
        ) by {
            assert(sections.drop_last()[i] == sections[i]);
        }
        lemma_map_sections_len(vm, base, sections.drop_last());
        assert(sections[sections.len() - 1] == sections.last());
    }
}

/// Copies `data` into `vm` from `rva` on, cut at the end of `vm`.
fn copy_into(vm: &mut Vec<u8>, rva: usize, data: &[u8])
    requires
        rva <= old(vm)@.len(),
    ensures
        final(vm)@ == copy_section(old(vm)@, rva as int, data@),
{
    let room = vm.len() - rva;
    let copy_len = if data.len() < room {
        data.len()
    } else {
        room
    };
    let ghost v0 = vm@;
    for k in 0..copy_len
        invariant
            copy_len == min(data@.len() as int, v0.len() - rva),
            rva + copy_len <= usize::MAX,
            rva + copy_len <= v0.len(),
            vm@.len() == v0.len(),
            forall|j: int|
                0 <= j < vm@.len() ==> #[trigger] vm@[j] == if rva <= j < rva + k {
                    data@[j - rva]
                } else {
                    v0[j]
                },
    {
        vm.set(rva + k, data[k]);
    }
    assert(vm@ =~= copy_section(v0, rva as int, data@));
}

/// A disassembly and singleton search over a mapped executable.
pub struct Analyzer<'a> {
    pub il2cpp: &'a Il2Cpp,
    pub exe_base: u64,
    pub virtual_memory: Vec<u8>,
}

impl<'a> Analyzer<'a> {
    /// An analyzer over the executable `exe`, already read as `image`.
    pub fn from_image(il2cpp: &'a Il2Cpp, exe: &[u8], image: &PeImage) -> (a: Analyzer<'a>)
        requires
            layout_fits(image@, exe@.len() as int),
        ensures
            a.il2cpp == il2cpp,
            a.exe_base == image.image_base,
            a.virtual_memory@ == mapped_image(exe@, image@),
    {
        let ghost img = image@;
        let size_of_image = image.size_of_image as usize;
        let mut virtual_memory: Vec<u8> = vec![0u8; size_of_image];
        let size_of_headers = image.size_of_headers as usize;
        let header_copy_len = if size_of_headers < exe.len() {
            size_of_headers
        } else {
            exe.len()
        };
        let ghost zeros = virtual_memory@;
        assert(zeros =~= Seq::new(size_of_image as nat, |i: int| 0u8));
        for k in 0..header_copy_len
            invariant
                header_copy_len <= size_of_image,
                header_copy_len <= exe@.len(),
                virtual_memory@.len() == size_of_image,
                zeros == Seq::new(size_of_image as nat, |i: int| 0u8),
                forall|j: int|
                    0 <= j < size_of_image ==> #[trigger] virtual_memory@[j] == if j < k {
                        exe@[j]
                    } else {
                        0u8
                    },
        {
            virtual_memory.set(k, exe[k]);
        }
        let ghost start = exe@.take(header_copy_len as int) + Seq::new(
            (img.size_of_image - header_copy_len) as nat,
            |i: int| 0u8,
        );
        assert(virtual_memory@ =~= start);
        let exe_base = image.image_base;
        let n = image.sections.len();
        assert(start.len() == img.size_of_image);
        assert(img.sections.take(0) =~= Seq::<(u64, Option<Seq<u8>>)>::empty());
        for i in 0..n
            invariant
                n == image.sections@.len(),
                img == image@,
                exe_base == img.image_base,
                layout_fits(img, exe@.len() as int),
                virtual_memory@.len() == img.size_of_image,
                virtual_memory@ == map_sections(start, exe_base, img.sections.take(i as int)),
                start.len() == img.size_of_image,
        {
            let section = &image.sections[i];
            assert(img.sections[i as int] == section_view(*section));
            proof {
                let t = img.sections.take(i + 1);
                assert(t.drop_last() =~= img.sections.take(i as int));
                assert(t.last() == img.sections[i as int]);
                let ti = img.sections.take(i as int);
                assert forall|k: int| 0 <= k < ti.len() implies section_fits(
                    #[trigger] ti[k],
                    exe_base,
                    start.len() as int,
                ) by {
                    assert(ti[k] == img.sections[k]);
                    assert(section_fits(img.sections[k], img.image_base, img.size_of_image as int));
                }
                lemma_map_sections_len(start, exe_base, ti);
                assert(section_fits(img.sections[i as int], img.image_base, img.size_of_image as int));
            }
            if let Some(data) = &section.data {
                let rva = (section.address - exe_base) as usize;
                copy_into(&mut virtual_memory, rva, data.as_slice());
            }
        }
        assert(img.sections.take(n as int) =~= img.sections);
        Analyzer { il2cpp, exe_base, virtual_memory }
    }

    /// An analyzer over the executable `exe`: maps it into memory as the
    /// loader would.
    pub fn new(il2cpp: &'a Il2Cpp, exe: &[u8]) -> (r: Result<Analyzer<'a>, AnalyzerError>)
        ensures
            match parsed_pe_image(exe@) {
                None => r is Err && r->Err_0 is InvalidPe,
                Some(img) => if layout_fits(img, exe@.len() as int) {
                    &&& r is Ok
                    &&& r->Ok_0.il2cpp == il2cpp
                    &&& r->Ok_0.exe_base == img.image_base
                    &&& r->Ok_0.virtual_memory@ == mapped_image(exe@, img)
                } else {
                    r is Err && r->Err_0 is ImageLayout
                },
            },
    {
        let image = match read_pe_image(exe) {
            Ok(image) => image,
            Err(e) => {
                return Err(AnalyzerError::InvalidPe(e));
            },
        };
        let size_of_headers = image.size_of_headers as usize;
        let header_copy_len = if size_of_headers < exe.len() {
            size_of_headers
        } else {
            exe.len()
        };
        if header_copy_len > image.size_of_image as usize {
            return Err(AnalyzerError::ImageLayout);
        }
        let n = image.sections.len();
        for i in 0..n
            invariant
                n == image.sections@.len(),
                parsed_pe_image(exe@) == Some(image@),
                forall|k: int|
                    0 <= k < i ==> section_fits(
                        #[trigger] image@.sections[k],
                        image@.image_base,
                        image@.size_of_image as int,
                    ),
        {
            let address = image.sections[i].address;
            assert(image@.sections[i as int] == section_view(image.sections@[i as int]));
            if image.sections[i].data.is_some() && (address < image.image_base || address
                - image.image_base > image.size_of_image as u64) {
                assert(image@.sections[i as int].0 == address);
                assert(!section_fits(image@.sections[i as int], image@.image_base, image@.size_of_image as int));
                assert(!layout_fits(image@, exe@.len() as int));
                return Err(AnalyzerError::ImageLayout);
            }
        }
        Ok(Analyzer::from_image(il2cpp, exe, &image))
    }
}

} // verus!

verus! {

/// What the library reads of a decoded x86-64 instruction.
#[derive(Debug, Clone, Copy)]
pub struct DecodedInstruction {
    /// Length in bytes.
    pub len: usize,
    /// The mnemonic is `mov`.
    pub is_move: bool,
    /// The mnemonic is `cmp`.
    pub is_compare: bool,
    /// The first operand is a register.
    pub op0_register: bool,
    /// The first operand is a memory operand.
    pub op0_memory: bool,
    /// The second operand is a memory operand.
    pub op1_memory: bool,
    /// The first operand's register is `rax`.
    pub op0_is_rax: bool,
    /// The memory operand is relative to the instruction pointer.
    pub ip_relative: bool,
    /// The address an instruction-pointer-relative memory operand refers to.
    pub ip_rel_address: u64,
    /// The value of the second operand when it is an immediate.
    pub op1_immediate: Option<u64>,
    /// The instruction returns from the function.
    pub is_return: bool,
    /// The memory operand's base register, as its number in
    /// `iced_x86::Register`.
    pub memory_base: usize,
    /// The memory operand's base register is `rip`.
    pub base_is_rip: bool,
    /// The memory operand has no base register.
    pub base_is_none: bool,
    /// The memory operand's displacement, in 32 bits.
    pub displacement: u32,
}

/// What `iced_x86` decodes from the start of `code` in 64-bit mode, the
/// instruction being at address `ip`.
pub uninterp spec fn decoded_instruction(code: Seq<u8>, ip: u64) -> DecodedInstruction;

/// `Decoder::with_ip(64, ..).decode()` on the bytes from `position`, and
/// the instruction's `len`, `mnemonic`, `op0_kind`, `op1_kind`,
/// `op0_register`, `is_ip_rel_memory_operand`, `ip_rel_memory_address`,
/// `try_immediate(1)`, `flow_control`, `memory_base` and
/// `memory_displacement32`. The result is named: it depends on the bytes
/// and the address alone. Stated besides, from the decoder's source: with
/// at least one byte to read, the decoder consumes at least one and at most
/// the bytes there are.
#[verifier::external_body]
fn decode_instruction(code: &[u8], position: usize, ip: u64) -> (insn: DecodedInstruction)
    requires
        position < code@.len(),
    ensures
        insn == decoded_instruction(code@.skip(position as int), ip),
        1 <= insn.len <= code@.len() - position,
{
    let i = Decoder::with_ip(64, &code[position..], ip, DecoderOptions::NONE).decode();
    let b = i.memory_base();
    DecodedInstruction {
        len: i.len(), is_move: i.mnemonic() == Mnemonic::Mov, is_compare: i.mnemonic() == Mnemonic::Cmp,
        op0_register: i.op0_kind() == OpKind::Register, op0_memory: i.op0_kind() == OpKind::Memory,
        op1_memory: i.op1_kind() == OpKind::Memory, op0_is_rax: i.op0_register() == Register::RAX,
        ip_relative: i.is_ip_rel_memory_operand(), ip_rel_address: i.ip_rel_memory_address(),
        op1_immediate: i.try_immediate(1).ok(), is_return: i.flow_control() == FlowControl::Return,
        memory_base: b as usize, base_is_rip: b == Register::RIP, base_is_none: b == Register::None,
        displacement: i.memory_displacement32(),
    }
}

/// The address after an instruction of `len` bytes at `ip`, wrapping.
pub open spec fn next_ip(ip: u64, len: usize) -> u64 {
    if ip + len > u64::MAX {
        (ip + len - 0x1_0000_0000_0000_0000) as u64
    } else {
        (ip + len) as u64
    }
}

/// Whether an instruction loads `rax` from an instruction-pointer-relative
/// global.
pub open spec fn loads_rax_from_global(insn: DecodedInstruction) -> bool {
    &&& insn.op0_register
    &&& insn.op0_is_rax
    &&& insn.op1_memory
    &&& insn.ip_relative
}

/// Whether an instruction compares an instruction-pointer-relative global
/// with zero.
pub open spec fn compares_global_with_zero(insn: DecodedInstruction) -> bool {
    &&& insn.op0_memory
    &&& insn.ip_relative
    &&& insn.op1_immediate == Some(0u64)
}

/// Scans the leading `mov`s from `pos` (at address `ip`) for a load of
/// `rax` from a global; with a return type, the first such load gives the
/// global and the type. The scan stops at the end of the code, at a
/// non-`mov`, or at a return.
pub open spec fn scan_instance_load(code: Seq<u8>, pos: int, ip: u64, ret: Option<Seq<char>>) -> Option<
    (u64, Seq<char>),
>
    decreases code.len() - pos,
{
    if pos < 0 || pos >= code.len() {
        None
    } else {
        let insn = decoded_instruction(code.skip(pos), ip);
        if insn.is_move {
            if loads_rax_from_global(insn) && ret is Some {
                Some((insn.ip_rel_address, ret->0))
            } else if insn.is_return || insn.len == 0 || insn.len > code.len() - pos {
                None
            } else {
                scan_instance_load(code, pos + insn.len, next_ip(ip, insn.len), ret)
            }
        } else {
            None
        }
    }
}

/// Scans the leading `cmp`s from `pos` (at address `ip`) for a comparison
/// of a global with zero, which gives the global. The scan stops at the end
/// of the code, at a non-`cmp`, or at a return.
pub open spec fn scan_presence_check(code: Seq<u8>, pos: int, ip: u64) -> Option<u64>
    decreases code.len() - pos,
{
    if pos < 0 || pos >= code.len() {
        None
    } else {
        let insn = decoded_instruction(code.skip(pos), ip);
        if insn.is_compare {
            if compares_global_with_zero(insn) {
                Some(insn.ip_rel_address)
            } else if insn.is_return || insn.len == 0 || insn.len > code.len() - pos {
                None
            } else {
                scan_presence_check(code, pos + insn.len, next_ip(ip, insn.len))
            }
        } else {
            None
        }
    }
}

/// Whether an instruction is a `mov` that loads from memory addressed from
/// a base register other than `rip`: a read of a field of a struct.
pub open spec fn reads_struct_field(insn: DecodedInstruction) -> bool {
    &&& insn.is_move
    &&& insn.op1_memory
    &&& !insn.base_is_rip
    &&& !insn.base_is_none
}

/// The struct field reads of the code from `pos` (at address `ip`) up to
/// its end or to the first return: each read's displacement and base
/// register.
pub open spec fn field_reads_from(code: Seq<u8>, pos: int, ip: u64) -> Seq<(u32, usize)>
    decreases code.len() - pos,
{
    if pos < 0 || pos >= code.len() {
        Seq::empty()
    } else {
        let insn = decoded_instruction(code.skip(pos), ip);
        let here = if reads_struct_field(insn) {
            seq![(insn.displacement, insn.memory_base)]
        } else {
            Seq::empty()
        };
        if insn.is_return || insn.len == 0 || insn.len > code.len() - pos {
            here
        } else {
            here + field_reads_from(code, pos + insn.len, next_ip(ip, insn.len))
        }
    }
}

/// The offset in the mapped image of the address `addr`: relative to the
/// image base when above it, else relative to the preferred base when above
/// that, else `addr` itself.
pub open spec fn rva_of(addr: u64, exe_base: u64) -> usize {
    if addr >= exe_base {
        (addr - exe_base) as usize
    } else if addr >= 0x140000000 {
        (addr - 0x140000000) as usize
    } else {
        addr as usize
    }
}

/// A method's name with its id (in decimal) taken out.
pub open spec fn bare_method_name(m: REMethod) -> Seq<char> {
    replace_all(m.name@, decimal(m.id as nat), Seq::empty())
}

/// The name of a method's return type, if it returns something.
pub open spec fn return_type_name(m: REMethod) -> Option<Seq<char>> {
    match m.returns {
        Some(r) => Some(r.type_@),
        None => None,
    }
}

/// The global and type that the first static `get_Instance` among `ms`
/// loads, if any. An accessor whose address lies beyond the image ends the
/// search.
pub open spec fn instance_singleton(code: Seq<u8>, exe_base: u64, ms: Seq<REMethod>) -> Option<
    (u64, Seq<char>),
>
    decreases ms.len(),
{
    if ms.len() == 0 {
        None
    } else {
        let m = ms[0];
        if bare_method_name(m) == "get_Instance"@ && m.flags@.contains(REMethodFlag::Static) {
            let rva = rva_of(m.function, exe_base);
            if rva > code.len() {
                None
            } else {
                match scan_instance_load(code, rva as int, m.function, return_type_name(m)) {
                    Some(r) => Some(r),
                    None => instance_singleton(code, exe_base, ms.drop_first()),
                }
            }
        } else {
            instance_singleton(code, exe_base, ms.drop_first())
        }
    }
}

/// The global that the first `hasInstance` among `ms` compares with zero,
/// if any. An accessor whose address lies beyond the image ends the search.
pub open spec fn native_singleton(code: Seq<u8>, exe_base: u64, ms: Seq<REMethod>) -> Option<u64>
    decreases ms.len(),
{
    if ms.len() == 0 {
        None
    } else {
        let m = ms[0];
        if bare_method_name(m) == "hasInstance"@ {
            let rva = rva_of(m.function, exe_base);
            if rva > code.len() {
                None
            } else {
                match scan_presence_check(code, rva as int, m.function) {
                    Some(r) => Some(r),
                    None => native_singleton(code, exe_base, ms.drop_first()),
                }
            }
        } else {
            native_singleton(code, exe_base, ms.drop_first())
        }
    }
}

/// The first field named `_Instance`.
pub open spec fn instance_field(fs: Seq<REField>) -> Option<REField>
    decreases fs.len(),
{
    if fs.len() == 0 {
        None
    } else if fs[0].name@ == "_Instance"@ {
        Some(fs[0])
    } else {
        instance_field(fs.drop_first())
    }
}

/// The singletons found in `types`, type by type: a native singleton
/// (types under `via.`) under the type's name, then a managed singleton
/// (types with a static `_Instance` field) under its accessor's return
/// type. Later finds replace earlier ones under the same name.
pub open spec fn singletons_in(code: Seq<u8>, exe_base: u64, types: Entries<REType>) -> Entries<u64>
    decreases types.len(),
{
    if types.len() == 0 {
        Seq::empty()
    } else {
        let prev = singletons_in(code, exe_base, types.drop_last());
        let ty = types.last().1;
        let with_native = if has_prefix(ty.name@, "via."@) {
            match native_singleton(code, exe_base, ty.methods@) {
                Some(p) => map_insert(prev, ty.name@, p),
                None => prev,
            }
        } else {
            prev
        };
        match instance_field(ty.fields@) {
            Some(f) => if f.flags@.contains(REFieldFlag::Static) {
                match instance_singleton(code, exe_base, ty.methods@) {
                    Some(r) => map_insert(with_native, r.1, r.0),
                    None => with_native,
                }
            } else {
                with_native
            },
            None => with_native,
        }
    }
}

fn find_instance_field(fs: &Vec<REField>) -> (r: Option<&REField>)
    ensures
        match instance_field(fs@) {
            Some(f) => r matches Some(g) && *g == f,
            None => r is None,
        },
{
    assert(fs@.skip(0) =~= fs@);
    for k in 0..fs.len()
        invariant
            instance_field(fs@) == instance_field(fs@.skip(k as int)),
    {
        let f = &fs[k];
        let ghost rest = fs@.skip(k as int);
        assert(rest[0] == *f);
        assert(rest.drop_first() =~= fs@.skip(k + 1));
        if str_eq(f.name.as_str(), "_Instance") {
            return Some(f);
        }
    }
    assert(fs@.skip(fs@.len() as int) =~= Seq::<REField>::empty());
    None
}

fn bare_name_is(m: &REMethod, expected: &str) -> (b: bool)
    ensures
        b == (bare_method_name(*m) == expected@),
{
    let name = chars_of(m.name.as_str());
    let id = decimal_chars(m.id);
    let empty: Vec<char> = Vec::new();
    let bare = replace_chars(name.as_slice(), id.as_slice(), empty.as_slice());
    assert(empty@ =~= Seq::<char>::empty());
    let e = chars_of(expected);
    crate::text::chars_eq(bare.as_slice(), e.as_slice())
}

/// Errors of [`disassemble_function`].
#[derive(Debug, Clone, Copy, PartialEq, Eq, Structural)]
pub enum DisassemblyError {
    /// The function starts past the end of the memory.
    InvalidPosition,
}

/// The struct field reads of the function at `rva` in `virtual_memory`,
/// whose first instruction is at address `display_addr`: the `mov`s that
/// load from memory addressed from a register other than `rip`, up to the
/// first return; each read's displacement and base register.
pub fn disassemble_function(display_addr: u64, rva: usize, virtual_memory: &[u8]) -> (r: Result<
    Vec<(u32, usize)>,
    DisassemblyError,
>)
    ensures
        rva > virtual_memory@.len() ==> r == Err::<Vec<(u32, usize)>, DisassemblyError>(
            DisassemblyError::InvalidPosition,
        ),
        rva <= virtual_memory@.len() ==> (r matches Ok(v) && v@ == field_reads_from(
            virtual_memory@,
            rva as int,
            display_addr,
        )),
{
    if rva > virtual_memory.len() {
        return Err(DisassemblyError::InvalidPosition);
    }
    let ghost code = virtual_memory@;
    let mut reads: Vec<(u32, usize)> = Vec::new();
    let mut pos = rva;
    let mut ip = display_addr;
    while pos < virtual_memory.len()
        invariant
            code == virtual_memory@,
            rva <= code.len(),
            pos <= code.len(),
            field_reads_from(code, rva as int, display_addr) == reads@ + field_reads_from(
                code,
                pos as int,
                ip,
            ),
        decreases code.len() - pos,
    {
        let insn = decode_instruction(virtual_memory, pos, ip);
        let ghost before = reads@;
        let ghost here = if reads_struct_field(insn) {
            seq![(insn.displacement, insn.memory_base)]
        } else {
            Seq::<(u32, usize)>::empty()
        };
        if insn.is_move && insn.op1_memory && !insn.base_is_rip && !insn.base_is_none {
            reads.push((insn.displacement, insn.memory_base));
        }
        assert(reads@ =~= before + here);
        if insn.is_return {
            assert(reads@ + Seq::<(u32, usize)>::empty() =~= reads@);
            return Ok(reads);
        }
        pos = pos + insn.len;
        ip = ip.wrapping_add(insn.len as u64);
        assert(before + here + field_reads_from(code, pos as int, ip) =~= reads@ + field_reads_from(
            code,
            pos as int,
            ip,
        ));
    }
    assert(reads@ + Seq::<(u32, usize)>::empty() =~= reads@);
    Ok(reads)
}

impl<'a> Analyzer<'a> {
    /// The offset in the mapped image of the address `addr`.
    pub fn to_rva(addr: u64, exe_base: u64) -> (rva: usize)
        ensures
            rva == rva_of(addr, exe_base),
    {
        if addr >= exe_base {
            (addr - exe_base) as usize
        } else if addr >= 0x140000000 {
            (addr - 0x140000000) as usize
        } else {
            addr as usize
        }
    }

    fn scan_instance_load(&self, rva: usize, addr: u64, ret: Option<&String>) -> (r: Option<(u64, String)>)
        requires
            rva <= self.virtual_memory@.len(),
        ensures
            match scan_instance_load(
                self.virtual_memory@,
                rva as int,
                addr,
                match ret {
                    Some(t) => Some(t@),
                    None => None,
                },
            ) {
                Some(x) => r matches Some(y) && y.0 == x.0 && y.1@ == x.1,
                None => r is None,
            },
    {
        let ghost code = self.virtual_memory@;
        let ghost retv = match ret {
            Some(t) => Some(t@),
            None => None::<Seq<char>>,
        };
        let mut pos = rva;
        let mut ip = addr;
        while pos < self.virtual_memory.len()
            invariant
                code == self.virtual_memory@,
                pos <= code.len(),
                retv == match ret {
                    Some(t) => Some(t@),
                    None => None::<Seq<char>>,
                },
                scan_instance_load(code, rva as int, addr, retv) == scan_instance_load(
                    code,
                    pos as int,
                    ip,
                    retv,
                ),
            decreases code.len() - pos,
        {
            let insn = decode_instruction(self.virtual_memory.as_slice(), pos, ip);
            if insn.is_move {
                if insn.op0_register && insn.op0_is_rax && insn.op1_memory && insn.ip_relative {
                    if let Some(t) = ret {
                        return Some((insn.ip_rel_address, t.clone()));
                    }
                }
            } else {
                return None;
            }
            if insn.is_return {
                return None;
            }
            pos = pos + insn.len;
            ip = ip.wrapping_add(insn.len as u64);
        }
        None
    }

    fn scan_presence_check(&self, rva: usize, addr: u64) -> (r: Option<u64>)
        requires
            rva <= self.virtual_memory@.len(),
        ensures
            r == scan_presence_check(self.virtual_memory@, rva as int, addr),
    {
        let ghost code = self.virtual_memory@;
        let mut pos = rva;
        let mut ip = addr;
        while pos < self.virtual_memory.len()
            invariant
                code == self.virtual_memory@,
                pos <= code.len(),
                scan_presence_check(code, rva as int, addr) == scan_presence_check(
                    code,
                    pos as int,
                    ip,
                ),
            decreases code.len() - pos,
        {
            let insn = decode_instruction(self.virtual_memory.as_slice(), pos, ip);
            if insn.is_compare {
                if insn.op0_memory && insn.ip_relative {
                    let is_zero = match insn.op1_immediate {
                        Some(v) => v == 0,
                        None => false,
                    };
                    if is_zero {
                        return Some(insn.ip_rel_address);
                    }
                }
            } else {
                return None;
            }
            if insn.is_return {
                return None;
            }
            pos = pos + insn.len;
            ip = ip.wrapping_add(insn.len as u64);
        }
        None
    }

    /// The global holding the singleton instance of `ty` and its type: the
    /// first static `get_Instance` method of `ty` whose leading `mov`s load
    /// `rax` from a global gives them.
    pub fn find_singleton(&self, ty: &REType) -> (r: Option<(u64, String)>)
        ensures
            match instance_singleton(self.virtual_memory@, self.exe_base, ty.methods@) {
                Some(x) => r matches Some(y) && y.0 == x.0 && y.1@ == x.1,
                None => r is None,
            },
    {
        let ghost code = self.virtual_memory@;
        let ghost ms = ty.methods@;
        assert(ms.skip(0) =~= ms);
        for i in 0..ty.methods.len()
            invariant
                code == self.virtual_memory@,
                ms == ty.methods@,
                instance_singleton(code, self.exe_base, ms) == instance_singleton(
                    code,
                    self.exe_base,
                    ms.skip(i as int),
                ),
        {
            let method = &ty.methods[i];
            let ghost rest = ms.skip(i as int);
            assert(rest[0] == *method);
            assert(rest.drop_first() =~= ms.skip(i + 1));
            if bare_name_is(method, "get_Instance") && has_flag(&method.flags, &REMethodFlag::Static) {
                let addr = method.function;
                let rva = Self::to_rva(addr, self.exe_base);
                if rva > self.virtual_memory.len() {
                    return None;
                }
                let ret = match &method.returns {
                    Some(p) => Some(&p.type_),
                    None => None,
                };
                assert(return_type_name(*method) == match ret {
                    Some(t) => Some(t@),
                    None => None::<Seq<char>>,
                });
                let found = self.scan_instance_load(rva, addr, ret);
                if found.is_some() {
                    return found;
                }
            }
        }
        assert(ms.skip(ms.len() as int) =~= Seq::<REMethod>::empty());
        None
    }

    /// The global holding the native singleton instance of `ty`: the first
    /// `hasInstance` method of `ty` whose leading `cmp`s compare a global
    /// with zero gives it.
    pub fn find_native_singleton(&self, ty: &REType) -> (r: Option<u64>)
        ensures
            r == native_singleton(self.virtual_memory@, self.exe_base, ty.methods@),
    {
        let ghost code = self.virtual_memory@;
        let ghost ms = ty.methods@;
        assert(ms.skip(0) =~= ms);
        for i in 0..ty.methods.len()
            invariant
                code == self.virtual_memory@,
                ms == ty.methods@,
                native_singleton(code, self.exe_base, ms) == native_singleton(
                    code,
                    self.exe_base,
                    ms.skip(i as int),
                ),
        {
            let method = &ty.methods[i];
            let ghost rest = ms.skip(i as int);
            assert(rest[0] == *method);
            assert(rest.drop_first() =~= ms.skip(i + 1));
            if bare_name_is(method, "hasInstance") {
                let addr = method.function;
                let rva = Self::to_rva(addr, self.exe_base);
                if rva > self.virtual_memory.len() {
                    return None;
                }
                let found = self.scan_presence_check(rva, addr);
                if found.is_some() {
                    return found;
                }
            }
        }
        assert(ms.skip(ms.len() as int) =~= Seq::<REMethod>::empty());
        None
    }

    /// The singletons of the database: name to the global that holds the
    /// instance.
    pub fn find_singletons(&self) -> (res: StrMap<u64>)
        requires
            db_wf(self.il2cpp),
        ensures
            res.wf(),
            res@ == singletons_in(self.virtual_memory@, self.exe_base, self.il2cpp@),
    {
        let ghost code = self.virtual_memory@;
        let ghost types = self.il2cpp@;
        let mut singletons: StrMap<u64> = StrMap::new();
        let via_prefix = chars_of("via.");
        let n = self.il2cpp.len();
        for i in 0..n
            invariant
                n == types.len(),
                code == self.virtual_memory@,
                types == self.il2cpp@,
                via_prefix@ == "via."@,
                singletons.wf(),
                singletons@ == singletons_in(code, self.exe_base, types.take(i as int)),
        {
            let ty = self.il2cpp.value_at(i);
            proof {
                let t = types.take(i + 1);
                assert(t.drop_last() =~= types.take(i as int));
                assert(t.last().1 == *ty);
            }
            let tn = chars_of(ty.name.as_str());
            if starts_with(tn.as_slice(), via_prefix.as_slice()) {
                if let Some(singleton) = self.find_native_singleton(ty) {
                    singletons.insert(ty.name.clone(), singleton);
                }
            }
            let found = find_instance_field(&ty.fields);
            if let Some(instance_field) = found {
                if has_flag(&instance_field.flags, &REFieldFlag::Static) {
                    if let Some((singleton, ty_name)) = self.find_singleton(ty) {
                        singletons.insert(ty_name, singleton);
                    }
                }
            }
        }
        assert(types.take(types.len() as int) =~= types);
        singletons
    }
}

} // verus!

verus! {

/// The mapped image is exactly `size_of_image` bytes long.
pub proof fn lemma_mapped_image_len(exe: Seq<u8>, img: PeImageV)
    requires
        layout_fits(img, exe.len() as int),
    ensures
        mapped_image(exe, img).len() == img.size_of_image,
{
    let h = header_copy_len(img, exe.len() as int);
    let start = exe.take(h) + Seq::new((img.size_of_image - h) as nat, |i: int| 0u8);
    assert(start.len() == img.size_of_image);
    assert forall|i: int| 0 <= i < img.sections.len() implies section_fits(
        #[trigger] img.sections[i],
        img.image_base,
        start.len() as int,
    ) by {
        assert(section_fits(img.sections[i], img.image_base, img.size_of_image as int));
    }
    lemma_map_sections_len(start, img.image_base, img.sections);
}

} // verus!

verus! {

/// Whether the instruction decoded at `p` (at address `q`) in `code` is a
/// `mov` of the global at `g` into `rax`.
pub open spec fn moves_global_into_rax(code: Seq<u8>, p: int, q: u64, g: u64) -> bool {
    let insn = decoded_instruction(code.skip(p), q);
    &&& 0 <= p < code.len()
    &&& insn.is_move
    &&& insn.op0_register
    &&& insn.op0_is_rax
    &&& insn.op1_memory
    &&& insn.ip_relative
    &&& insn.ip_rel_address == g
}

/// Whether the instruction decoded at `p` (at address `q`) in `code` is a
/// `cmp` of the global at `g` with zero.
pub open spec fn compares_global_at_with_zero(code: Seq<u8>, p: int, q: u64, g: u64) -> bool {
    let insn = decoded_instruction(code.skip(p), q);
    &&& 0 <= p < code.len()
    &&& insn.is_compare
    &&& insn.op0_memory
    &&& insn.ip_relative
    &&& insn.op1_immediate == Some(0u64)
    &&& insn.ip_rel_address == g
}

proof fn lemma_scan_instance_load_reads_rax(
    code: Seq<u8>,
    pos: int,
    ip: u64,
    ret: Option<Seq<char>>,
) -> (w: (int, u64))
    ensures
        scan_instance_load(code, pos, ip, ret) matches Some(r) ==> ret == Some(r.1)
            && moves_global_into_rax(code, w.0, w.1, r.0),
    decreases code.len() - pos,
{
    if 0 <= pos < code.len() {
        let insn = decoded_instruction(code.skip(pos), ip);
        if insn.is_move && loads_rax_from_global(insn) && ret is Some {
            assert(moves_global_into_rax(code, pos, ip, insn.ip_rel_address));
            (pos, ip)
        } else if insn.is_move && !(insn.is_return || insn.len == 0 || insn.len > code.len() - pos) {
            lemma_scan_instance_load_reads_rax(code, pos + insn.len, next_ip(ip, insn.len), ret)
        } else {
            (0, 0)
        }
    } else {
        (0, 0)
    }
}

proof fn lemma_scan_presence_check_compares(code: Seq<u8>, pos: int, ip: u64) -> (w: (int, u64))
    ensures
        scan_presence_check(code, pos, ip) matches Some(g) ==> compares_global_at_with_zero(
            code,
            w.0,
            w.1,
            g,
        ),
    decreases code.len() - pos,
{
    if 0 <= pos < code.len() {
        let insn = decoded_instruction(code.skip(pos), ip);
        if insn.is_compare && compares_global_with_zero(insn) {
            assert(compares_global_at_with_zero(code, pos, ip, insn.ip_rel_address));
            (pos, ip)
        } else if insn.is_compare && !(insn.is_return || insn.len == 0 || insn.len > code.len() - pos) {
            lemma_scan_presence_check_compares(code, pos + insn.len, next_ip(ip, insn.len))
        } else {
            (0, 0)
        }
    } else {
        (0, 0)
    }
}

/// A managed singleton is a global that some `mov` in the image loads into
/// `rax`, and its type is the return type of one of the type's static
/// `get_Instance` accessors: loads into other registers are passed over.
pub proof fn lemma_instance_singleton_loads_rax(code: Seq<u8>, exe_base: u64, ms: Seq<REMethod>)
    ensures
        instance_singleton(code, exe_base, ms) matches Some(r) ==> {
            &&& exists|p: int, q: u64| moves_global_into_rax(code, p, q, r.0)
            &&& exists|i: int|
                0 <= i < ms.len() && #[trigger] ms[i].flags@.contains(REMethodFlag::Static)
                    && (ms[i].returns matches Some(rt) && rt.type_@ == r.1)
        },
    decreases ms.len(),
{
    if ms.len() > 0 {
        let m = ms[0];
        lemma_instance_singleton_loads_rax(code, exe_base, ms.drop_first());
        if let Some(r) = instance_singleton(code, exe_base, ms.drop_first()) {
            let i = choose|i: int|
                0 <= i < ms.drop_first().len() && #[trigger] ms.drop_first()[i].flags@.contains(
                    REMethodFlag::Static,
                ) && (ms.drop_first()[i].returns matches Some(rt) && rt.type_@ == r.1);
            assert(ms[i + 1] == ms.drop_first()[i]);
        }
        if bare_method_name(m) == "get_Instance"@ && m.flags@.contains(REMethodFlag::Static) {
            let rva = rva_of(m.function, exe_base);
            if rva <= code.len() {
                let w = lemma_scan_instance_load_reads_rax(
                    code,
                    rva as int,
                    m.function,
                    return_type_name(m),
                );
                if let Some(r) = scan_instance_load(code, rva as int, m.function, return_type_name(m)) {
                    assert(moves_global_into_rax(code, w.0, w.1, r.0));
                }
                assert(ms[0] == m);
            }
        }
    }
}

/// A native singleton is a global that some `cmp` in the image compares
/// with zero.
pub proof fn lemma_native_singleton_compares_with_zero(code: Seq<u8>, exe_base: u64, ms: Seq<REMethod>)
    ensures
        native_singleton(code, exe_base, ms) matches Some(g) ==> exists|p: int, q: u64|
            #![trigger compares_global_at_with_zero(code, p, q, g)]
            compares_global_at_with_zero(code, p, q, g),
    decreases ms.len(),
{
    if ms.len() > 0 {
        let m = ms[0];
        lemma_native_singleton_compares_with_zero(code, exe_base, ms.drop_first());
        if bare_method_name(m) == "hasInstance"@ {
            let rva = rva_of(m.function, exe_base);
            if rva <= code.len() {
                let w = lemma_scan_presence_check_compares(code, rva as int, m.function);
                if let Some(g) = scan_presence_check(code, rva as int, m.function) {
                    assert(compares_global_at_with_zero(code, w.0, w.1, g));
                }
            }
        }
    }
}

} // verus!
