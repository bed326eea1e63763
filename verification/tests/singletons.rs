use ree_pdb::analyzer::{
    disassemble_function, Analyzer, AnalyzerError, DisassemblyError, PeImage, PeSection, BASE_ADDRESS,
};
use ree_pdb::il2cpp::{Il2Cpp, REField, REFieldFlag, REMethod, REMethodFlag, REParam, REType};
use ree_pdb::strmap::StrMap;

fn put_u16(b: &mut [u8], at: usize, v: u16) {
    b[at..at + 2].copy_from_slice(&v.to_le_bytes());
}

fn put_u32(b: &mut [u8], at: usize, v: u32) {
    b[at..at + 4].copy_from_slice(&v.to_le_bytes());
}

fn put_u64(b: &mut [u8], at: usize, v: u64) {
    b[at..at + 8].copy_from_slice(&v.to_le_bytes());
}

/// The code of the `.text` section, mapped at `BASE_ADDRESS + 0x1000`.
fn code() -> Vec<u8> {
    let mut c = vec![0xCCu8; 0x100];
    // 0x00: cmp qword [rip+0x100], 0 ; ret
    c[0x00..0x09].copy_from_slice(&[0x48, 0x83, 0x3D, 0x00, 0x01, 0x00, 0x00, 0x00, 0xC3]);
    // 0x10: mov rax, [rip+0x200] ; ret
    c[0x10..0x18].copy_from_slice(&[0x48, 0x8B, 0x05, 0x00, 0x02, 0x00, 0x00, 0xC3]);
    // 0x20: mov rax, rcx ; mov rax, [rip+0x10] ; ret
    c[0x20..0x2B].copy_from_slice(&[0x48, 0x89, 0xC8, 0x48, 0x8B, 0x05, 0x10, 0x00, 0x00, 0x00, 0xC3]);
    // 0x30: nop ; mov rax, [rip+0x10] ; ret
    c[0x30..0x39].copy_from_slice(&[0x90, 0x48, 0x8B, 0x05, 0x10, 0x00, 0x00, 0x00, 0xC3]);
    // 0x40: cmp qword [rip+0x100], 5 ; cmp qword [rip+0x20], 0 ; ret
    c[0x40..0x51].copy_from_slice(&[
        0x48, 0x83, 0x3D, 0x00, 0x01, 0x00, 0x00, 0x05, 0x48, 0x83, 0x3D, 0x20, 0x00, 0x00, 0x00,
        0x00, 0xC3,
    ]);
    c
}

/// A 64-bit PE file with one section of code: `size_of_image` as given,
/// headers of 0x200 bytes, `.text` at RVA 0x1000 with 0x100 bytes of data.
fn pe_file(size_of_image: u32) -> Vec<u8> {
    pe_file_with(size_of_image, false)
}

/// As `pe_file`, with a second section past the end of the image whose raw
/// data lies outside the file (so it has none) when `far_section`.
fn pe_file_with(size_of_image: u32, far_section: bool) -> Vec<u8> {
    let mut f = vec![0u8; 0x400];
    f[0] = b'M';
    f[1] = b'Z';
    put_u32(&mut f, 0x3C, 0x40);
    f[0x40..0x44].copy_from_slice(b"PE\0\0");
    put_u16(&mut f, 0x44, 0x8664);
    put_u16(&mut f, 0x46, 1);
    put_u16(&mut f, 0x54, 0xF0);
    put_u16(&mut f, 0x56, 0x22);
    let opt = 0x58;
    put_u16(&mut f, opt, 0x20B);
    put_u64(&mut f, opt + 24, BASE_ADDRESS);
    put_u32(&mut f, opt + 32, 0x1000);
    put_u32(&mut f, opt + 36, 0x200);
    put_u32(&mut f, opt + 56, size_of_image);
    put_u32(&mut f, opt + 60, 0x200);
    put_u32(&mut f, opt + 108, 16);
    let sec = opt + 0xF0;
    f[sec..sec + 5].copy_from_slice(b".text");
    put_u32(&mut f, sec + 8, 0x100);
    put_u32(&mut f, sec + 12, 0x1000);
    put_u32(&mut f, sec + 16, 0x200);
    put_u32(&mut f, sec + 20, 0x200);
    put_u32(&mut f, sec + 36, 0x6000_0020);
    if far_section {
        put_u16(&mut f, 0x46, 2);
        let sec2 = sec + 40;
        f[sec2..sec2 + 5].copy_from_slice(b".bss0");
        put_u32(&mut f, sec2 + 8, 0x100);
        put_u32(&mut f, sec2 + 12, 0x8000);
        put_u32(&mut f, sec2 + 16, 0x200);
        put_u32(&mut f, sec2 + 20, 0x10000);
    }
    f[0x200..0x300].copy_from_slice(&code());
    for b in f[0x300..0x400].iter_mut() {
        *b = 0xEE;
    }
    f
}

fn ty(name: &str) -> REType {
    REType {
        name: name.to_string(),
        address: 0,
        crc: 0,
        flags: vec![],
        fields: vec![],
        fqn: 0,
        id: 0,
        is_generic_type: false,
        is_generic_type_definition: false,
        methods: vec![],
        name_hierarchy: vec![],
        native_typename: String::new(),
        parent: String::new(),
        properties: vec![],
        size: 0,
    }
}

fn method(name: &str, id: u64, flags: Vec<REMethodFlag>, function: u64, returns: Option<&str>) -> REMethod {
    REMethod {
        name: name.to_string(),
        flags,
        function,
        id,
        impl_flags: vec![],
        invoke_id: 0,
        params: None,
        returns: returns.map(|t| REParam { name: String::new(), type_: t.to_string() }),
        vtable_index: None,
    }
}

fn instance_field(is_static: bool) -> REField {
    REField {
        name: "_Instance".to_string(),
        id: 0,
        init_data_index: 0,
        offset_from_base: 0,
        offset_from_fieldptr: 0,
        type_: "X".to_string(),
        flags: if is_static { vec![REFieldFlag::Static] } else { vec![] },
    }
}

fn managed(name: &str, field_static: bool, accessor: REMethod) -> REType {
    let mut t = ty(name);
    t.fields.push(instance_field(field_static));
    t.methods.push(accessor);
    t
}

fn database() -> Il2Cpp {
    let text = BASE_ADDRESS + 0x1000;
    let mut db: Il2Cpp = StrMap::new();
    let mut render = ty("via.Render");
    render.methods.push(method("hasInstance", 7, vec![], text, None));
    db.insert(render.name.clone(), render);
    let mut other = ty("via.Other");
    other.methods.push(method("foo", 1, vec![], text, None));
    other.methods.push(method("hasInstance", 2, vec![], text + 0x40, None));
    db.insert(other.name.clone(), other);
    let mut far = ty("via.Far");
    far.methods.push(method("hasInstance", 3, vec![], 0x1_5000_0000, None));
    db.insert(far.name.clone(), far);
    let statik = vec![REMethodFlag::Static];
    let m = managed(
        "App.Manager",
        true,
        method("get_Instance123", 123, statik.clone(), text + 0x10, Some("App.Manager")),
    );
    db.insert(m.name.clone(), m);
    let c = managed(
        "App.Chain",
        true,
        method("get_Instance", 4, statik.clone(), text + 0x20, Some("App.ChainImpl")),
    );
    db.insert(c.name.clone(), c);
    let n = managed(
        "App.NotStatic",
        false,
        method("get_Instance", 5, statik.clone(), text + 0x10, Some("App.NotStatic")),
    );
    db.insert(n.name.clone(), n);
    let p = managed("App.Nop", true, method("get_Instance", 6, statik.clone(), text + 0x30, Some("App.Nop")));
    db.insert(p.name.clone(), p);
    let i = managed("App.Instance", true, method("get_Instance", 8, vec![], text + 0x10, Some("App.Instance")));
    db.insert(i.name.clone(), i);
    db
}

#[test]
fn relative_addresses() {
    assert_eq!(Analyzer::to_rva(0x1_4000_1000, 0x1_4000_0000), 0x1000);
    assert_eq!(Analyzer::to_rva(0x1_4000_0010, 0x1_8000_0000), 0x10);
    assert_eq!(Analyzer::to_rva(0x500, 0x1_4000_0000), 0x500);
    assert_eq!(Analyzer::to_rva(0x1_4000_0000, 0x1_4000_0000), 0);
}

#[test]
fn rejects_bytes_that_are_not_a_pe_image() {
    let db: Il2Cpp = StrMap::new();
    assert!(matches!(Analyzer::new(&db, b"not a pe image"), Err(AnalyzerError::InvalidPe(_))));
    assert!(matches!(Analyzer::new(&db, &[]), Err(AnalyzerError::InvalidPe(_))));
}

#[test]
fn rejects_an_image_smaller_than_its_headers() {
    let db: Il2Cpp = StrMap::new();
    assert!(matches!(Analyzer::new(&db, &pe_file(0x100)), Err(AnalyzerError::ImageLayout)));
}

#[test]
fn maps_headers_and_sections() {
    let db: Il2Cpp = StrMap::new();
    let file = pe_file(0x2000);
    let a = Analyzer::new(&db, &file).unwrap();
    assert_eq!(a.exe_base, BASE_ADDRESS);
    assert_eq!(a.virtual_memory.len(), 0x2000);
    assert_eq!(&a.virtual_memory[..0x200], &file[..0x200]);
    assert!(a.virtual_memory[0x200..0x1000].iter().all(|b| *b == 0));
    assert_eq!(&a.virtual_memory[0x1000..0x1100], &code()[..]);
    assert!(a.virtual_memory[0x1100..].iter().all(|b| *b == 0));
}

#[test]
fn maps_an_image_given_by_its_headers() {
    let db: Il2Cpp = StrMap::new();
    let exe = vec![1u8, 2, 3, 4, 5, 6];
    let image = PeImage {
        image_base: 0x1000,
        size_of_image: 16,
        size_of_headers: 4,
        sections: vec![
            PeSection { address: 0x1008, data: Some(vec![9, 9, 9]) },
            PeSection { address: 0x100E, data: Some(vec![7, 7, 7, 7]) },
            PeSection { address: 0x1002, data: None },
        ],
    };
    let a = Analyzer::from_image(&db, &exe, &image);
    assert_eq!(a.exe_base, 0x1000);
    assert_eq!(a.virtual_memory, vec![1, 2, 3, 4, 0, 0, 0, 0, 9, 9, 9, 0, 0, 0, 7, 7]);
}

#[test]
fn native_singleton_from_presence_check() {
    let db = database();
    let a = Analyzer::new(&db, &pe_file(0x2000)).unwrap();
    assert_eq!(a.find_native_singleton(db.get("via.Render").unwrap()), Some(0x1_4000_1108));
    assert_eq!(a.find_native_singleton(db.get("via.Other").unwrap()), Some(0x1_4000_1070));
    assert_eq!(a.find_native_singleton(db.get("via.Far").unwrap()), None);
    assert_eq!(a.find_native_singleton(db.get("App.Manager").unwrap()), None);
}

#[test]
fn managed_singleton_from_instance_load() {
    let db = database();
    let a = Analyzer::new(&db, &pe_file(0x2000)).unwrap();
    assert_eq!(
        a.find_singleton(db.get("App.Manager").unwrap()),
        Some((0x1_4000_1217, "App.Manager".to_string()))
    );
    assert_eq!(
        a.find_singleton(db.get("App.Chain").unwrap()),
        Some((0x1_4000_103A, "App.ChainImpl".to_string()))
    );
    assert_eq!(a.find_singleton(db.get("App.Nop").unwrap()), None);
    assert_eq!(a.find_singleton(db.get("App.Instance").unwrap()), None);
}

#[test]
fn all_singletons_of_the_database() {
    let db = database();
    let a = Analyzer::new(&db, &pe_file(0x2000)).unwrap();
    let s = a.find_singletons();
    let got: Vec<(String, u64)> = (0..s.len()).map(|i| (s.key_at(i).clone(), *s.value_at(i))).collect();
    assert_eq!(
        got,
        vec![
            ("via.Render".to_string(), 0x1_4000_1108),
            ("via.Other".to_string(), 0x1_4000_1070),
            ("App.Manager".to_string(), 0x1_4000_1217),
            ("App.ChainImpl".to_string(), 0x1_4000_103A),
        ]
    );
}

#[test]
fn struct_field_reads_up_to_the_return() {
    let code = [
        0x48, 0x8B, 0x41, 0x10, // mov rax, [rcx+0x10]
        0x48, 0x8B, 0x05, 0x00, 0x01, 0x00, 0x00, // mov rax, [rip+0x100]
        0x8B, 0x04, 0x25, 0x44, 0x33, 0x22, 0x11, // mov eax, [0x11223344]
        0x48, 0x03, 0x42, 0x18, // add rax, [rdx+0x18]
        0x48, 0x8B, 0x44, 0x24, 0x08, // mov rax, [rsp+8]
        0xC3, // ret
        0x48, 0x8B, 0x41, 0x20, // mov rax, [rcx+0x20]
    ];
    let reads = disassemble_function(0x1_4000_1000, 0, &code).unwrap();
    assert_eq!(
        reads,
        vec![(0x10, iced_x86::Register::RCX as usize), (8, iced_x86::Register::RSP as usize)]
    );
    let tail = disassemble_function(0x1_4000_1000, 28, &code).unwrap();
    assert_eq!(tail, vec![(0x20, iced_x86::Register::RCX as usize)]);
    assert_eq!(disassemble_function(0, code.len(), &code), Ok(vec![]));
    assert_eq!(disassemble_function(0, code.len() + 1, &code), Err(DisassemblyError::InvalidPosition));
}

#[test]
fn sections_without_data_may_lie_outside_the_image() {
    let db: Il2Cpp = StrMap::new();
    let a = Analyzer::new(&db, &pe_file_with(0x2000, true)).unwrap();
    assert_eq!(a.virtual_memory.len(), 0x2000);
    assert_eq!(&a.virtual_memory[0x1000..0x1100], &code()[..]);
}

#[test]
fn from_image_skips_sections_without_data() {
    let db: Il2Cpp = StrMap::new();
    let exe = vec![1u8, 2];
    let image = PeImage {
        image_base: 0x1000,
        size_of_image: 8,
        size_of_headers: 2,
        sections: vec![PeSection { address: 0x2000, data: None }, PeSection { address: 0x10, data: None }],
    };
    let a = Analyzer::from_image(&db, &exe, &image);
    assert_eq!(a.virtual_memory, vec![1, 2, 0, 0, 0, 0, 0, 0]);
}
