use ree_pdb::il2cpp::{
    builtin_pdb, db_is_wf, get_pdb_type, has_flag, parse_flags, struct_pointer, struct_type, to_pdb_type,
    Il2Cpp, Il2CppError, REField, REFieldFlag, REImplFlag, REMethod, REMethodFlag, REParam,
    REType, RETypeFlag,
};
use ree_pdb::pdb::{sort_fields_by_offset, CallingConvention, PDBType, SimpleTypeKind, StructField};
use ree_pdb::strmap::StrMap;

fn ty(name: &str, parent: &str) -> REType {
    REType {
        name: name.to_string(),
        address: 0,
        crc: 0,
        flags: vec![],
        fields: vec![],
        fqn: 0,
        id: 0,
        is_generic_type: false,
        is_generic_type_definition: false,
        methods: vec![],
        name_hierarchy: vec![],
        native_typename: String::new(),
        parent: parent.to_string(),
        properties: vec![],
        size: 0,
    }
}

fn field(name: &str, ty: &str, from_base: u32, from_ptr: u32, flags: Vec<REFieldFlag>) -> REField {
    REField {
        name: name.to_string(),
        id: 0,
        init_data_index: 0,
        offset_from_base: from_base,
        offset_from_fieldptr: from_ptr,
        type_: ty.to_string(),
        flags,
    }
}

fn method(name: &str, flags: Vec<REMethodFlag>, vtable_index: Option<u32>) -> REMethod {
    REMethod {
        name: name.to_string(),
        flags,
        function: 0,
        id: 0,
        impl_flags: vec![],
        invoke_id: 0,
        params: None,
        returns: None,
        vtable_index,
    }
}

fn param(name: &str, ty: &str) -> REParam {
    REParam { name: name.to_string(), type_: ty.to_string() }
}

fn dbg(t: &PDBType) -> String {
    format!("{:?}", t)
}

/// A small database: `App.Child` derives from `App.Base`, which derives
/// from `System.Object` (not in the database).
fn database() -> Il2Cpp {
    let mut db: Il2Cpp = StrMap::new();
    let mut base = ty("App.Base", "System.Object");
    base.fields.push(field("x", "System.Int32", 0x10, 0, vec![]));
    base.fields.push(field("counter", "System.Int32", 0x8, 0, vec![REFieldFlag::Static]));
    base.methods.push(method("b1", vec![REMethodFlag::Virtual], Some(3)));
    base.methods.push(method("b2", vec![REMethodFlag::Abstract], Some(2)));
    base.methods.push(method("b3", vec![REMethodFlag::Virtual], None));
    let mut child = ty("App.Child", "App.Base");
    child.flags = vec![RETypeFlag::Public, RETypeFlag::ManagedVTable];
    child.fields.push(field("y", "App.Vec", 0x18, 0x8, vec![]));
    child.fields.push(field("z", "App.Other", 0x14, 0x4, vec![]));
    child.fields.push(field("inst", "App.Child", 0x0, 0x0, vec![REFieldFlag::Static]));
    let mut m1 = method("m1", vec![REMethodFlag::Virtual, REMethodFlag::HideBySig], Some(3));
    m1.impl_flags = vec![REImplFlag::HasThis];
    m1.params = Some(vec![param("a", "System.Int32"), param("", "App.Vec")]);
    m1.returns = Some(param("", "System.Boolean"));
    child.methods.push(m1);
    child.methods.push(method("m2", vec![REMethodFlag::Static, REMethodFlag::Virtual], Some(4)));
    child.methods.push(method("m3", vec![REMethodFlag::HideBySig], Some(5)));
    child.methods.push(method("m4", vec![REMethodFlag::NewSlot], Some(1)));
    db.insert("App.Base".to_string(), base);
    db.insert("App.Child".to_string(), child);
    db.insert("App.Vec".to_string(), ty("App.Vec", "System.ValueType"));
    db.insert("App.Kind".to_string(), ty("App.Kind", "System.Enum"));
    db.insert("System.Boolean".to_string(), ty("System.Boolean", "System.ValueType"));
    db
}

#[test]
fn value_and_enum_types() {
    let e = ty("App.Kind", "System.Enum");
    let v = ty("App.Vec", "System.ValueType");
    let c = ty("App.Child", "App.Base");
    assert!(e.is_enum() && !e.is_value_type() && e.is_enum_or_value_type());
    assert!(!v.is_enum() && v.is_value_type() && v.is_enum_or_value_type());
    assert!(!c.is_enum() && !c.is_value_type() && !c.is_enum_or_value_type());
}

#[test]
fn field_offsets_depend_on_the_kind_of_type() {
    let f = field("a", "System.Int32", 0x20, 0x10, vec![]);
    assert_eq!(ty("V", "System.ValueType").get_field_offset(&f), 0x10);
    assert_eq!(ty("E", "System.Enum").get_field_offset(&f), 0x10);
    assert_eq!(ty("C", "System.Object").get_field_offset(&f), 0x20);
}

#[test]
fn builtin_names_map_to_simple_types() {
    assert_eq!(dbg(&builtin_pdb("System.Int32").unwrap()), "SimpleType(Int32)");
    assert_eq!(dbg(&builtin_pdb("System.Single").unwrap()), "SimpleType(Float32)");
    assert_eq!(dbg(&builtin_pdb("System.Char").unwrap()), "SimpleType(WideCharacter)");
    assert_eq!(dbg(&builtin_pdb("System.Guid").unwrap()), "ConstantArray(SimpleType(Byte), 16)");
    assert!(builtin_pdb("System.String").is_none());
    assert_eq!(dbg(&struct_type("A")), "Struct(\"A\")");
    assert_eq!(dbg(&struct_pointer("A")), "Pointer(Struct(\"A\"))");
}

#[test]
fn named_pdb_types() {
    assert_eq!(dbg(&to_pdb_type("System.Boolean", "").unwrap()), "SimpleType(Boolean8)");
    assert_eq!(dbg(&to_pdb_type("App.Vec", "System.ValueType").unwrap()), "Struct(\"App.Vec\")");
    assert_eq!(dbg(&to_pdb_type("App.Kind", "System.Enum").unwrap()), "Struct(\"App.Kind\")");
    assert_eq!(dbg(&to_pdb_type("App.Child", "App.Base").unwrap()), "Pointer(Struct(\"App.Child\"))");
    assert_eq!(dbg(&ty("System.Void", "").to_pdb_type().unwrap()), "SimpleType(Void)");
    assert_eq!(dbg(&ty("App.Vec", "System.ValueType").to_pdb_type().unwrap()), "Struct(\"App.Vec\")");
    assert_eq!(dbg(&ty("App.C", "App.B").to_pdb_type().unwrap()), "Pointer(Struct(\"App.C\"))");
}

#[test]
fn pdb_types_looked_up_in_the_database() {
    let db = database();
    assert_eq!(dbg(&get_pdb_type("System.Double", &db)), "SimpleType(Float64)");
    assert_eq!(dbg(&get_pdb_type("App.Vec", &db)), "Struct(\"App.Vec\")");
    assert_eq!(dbg(&get_pdb_type("App.Kind", &db)), "Struct(\"App.Kind\")");
    assert_eq!(dbg(&get_pdb_type("App.Child", &db)), "Pointer(Struct(\"App.Child\"))");
    assert_eq!(dbg(&get_pdb_type("App.Missing", &db)), "Pointer(Struct(\"App.Missing\"))");
}

#[test]
fn method_names_and_signatures() {
    let db = database();
    let child = db.get("App.Child").unwrap();
    let m1 = &child.methods[0];
    assert_eq!(m1.symbol_name(child), "App.Child::m1");
    assert_eq!(m1.signature(child), "App.Child::m1(System.Int32 a,App.Vec)");
    let m2 = &child.methods[1];
    assert_eq!(m2.signature(child), "App.Child::m2()");
    let mut m5 = method("m5", vec![], None);
    m5.params = Some(vec![]);
    assert_eq!(m5.signature(child), "App.Child::m5()");
}

#[test]
fn method_function_records() {
    let db = database();
    let child = db.get("App.Child").unwrap();
    let f = child.methods[0].get_pdb_function(Some("App.Child"), &db);
    assert_eq!(dbg(&f.ret), "SimpleType(Boolean8)");
    let args: Vec<String> = f.args.iter().map(dbg).collect();
    assert_eq!(
        args,
        vec![
            "Pointer(SimpleType(Void))".to_string(),
            "Pointer(Struct(\"App.Child\"))".to_string(),
            "SimpleType(Int32)".to_string(),
            "Struct(\"App.Vec\")".to_string(),
        ]
    );
    assert!(f.class.is_none());
    assert_eq!(f.cconv, CallingConvention::NearFast);

    let g = child.methods[0].get_pdb_function(None, &db);
    assert_eq!(g.args.len(), 3);
    let h = child.methods[1].get_pdb_function(Some("App.Child"), &db);
    assert_eq!(dbg(&h.ret), "SimpleType(Void)");
    assert_eq!(h.args.len(), 1);
}

#[test]
fn struct_fields_with_inherited_members() {
    let db = database();
    let child = db.get("App.Child").unwrap();
    let (fields, inherited) = child.get_struct_fields(&db).unwrap();
    assert_eq!(inherited, 1);
    let got: Vec<(String, u64, bool, String)> =
        fields.iter().map(|f| (f.name.clone(), f.offset, f.is_static, dbg(&f.ty))).collect();
    assert_eq!(
        got,
        vec![
            ("inst".to_string(), 0, true, "Pointer(Struct(\"App.Child\"))".to_string()),
            ("__base_App_Base__x".to_string(), 0x10, false, "SimpleType(Int32)".to_string()),
            ("z".to_string(), 0x14, false, "Pointer(Struct(\"App.Other\"))".to_string()),
            ("y".to_string(), 0x18, false, "Struct(\"App.Vec\")".to_string()),
        ]
    );
}

#[test]
fn value_type_struct_fields_use_field_pointer_offsets() {
    let mut db = database();
    let mut v = ty("App.Pair", "System.ValueType");
    v.fields.push(field("b", "System.Int32", 0x14, 0x4, vec![]));
    v.fields.push(field("a", "System.Int32", 0x10, 0x0, vec![]));
    db.insert("App.Pair".to_string(), v);
    let p = db.get("App.Pair").unwrap();
    let (fields, inherited) = p.get_struct_fields(&db).unwrap();
    assert_eq!(inherited, 0);
    let got: Vec<(String, u64)> = fields.iter().map(|f| (f.name.clone(), f.offset)).collect();
    assert_eq!(got, vec![("a".to_string(), 0), ("b".to_string(), 4)]);
}

#[test]
fn parent_cycles_end_the_ancestor_walk() {
    let mut db: Il2Cpp = StrMap::new();
    let mut a = ty("A", "B");
    a.fields.push(field("fa", "System.Int32", 0x10, 0, vec![]));
    let mut b = ty("B", "A");
    b.fields.push(field("fb", "System.Int32", 0x18, 0, vec![]));
    db.insert("A".to_string(), a);
    db.insert("B".to_string(), b);
    let a = db.get("A").unwrap();
    let (fields, inherited) = a.get_struct_fields(&db).unwrap();
    let names: Vec<String> = fields.iter().map(|f| f.name.clone()).collect();
    assert_eq!(inherited, 2);
    assert_eq!(names, vec!["__base_A__fa".to_string(), "fa".to_string(), "__base_B__fb".to_string()]);
}

#[test]
fn vtable_slots_go_to_the_first_claimant() {
    let db = database();
    let child = db.get("App.Child").unwrap();
    let slots: Vec<(u64, String)> =
        child.iter_vtable_methods(&db).into_iter().map(|(i, m)| (i, m.name.clone())).collect();
    assert_eq!(slots, vec![(3, "m1".to_string()), (1, "m4".to_string()), (2, "b2".to_string())]);
    let base = db.get("App.Base").unwrap();
    let slots: Vec<u64> = base.iter_vtable_methods(&db).into_iter().map(|(i, _)| i).collect();
    assert_eq!(slots, vec![3, 2]);
}

#[test]
fn vtable_record() {
    let db = database();
    let child = db.get("App.Child").unwrap();
    let (size, fields) = child.get_struct_vtable(&db).unwrap();
    assert_eq!(size, 40);
    let got: Vec<(String, u64)> = fields.iter().map(|f| (f.name.clone(), f.offset)).collect();
    assert_eq!(
        got,
        vec![
            ("__type_definition".to_string(), 0),
            ("m4".to_string(), 16),
            ("b2".to_string(), 24),
            ("m1".to_string(), 32),
        ]
    );
    assert_eq!(dbg(&fields[0].ty), "Pointer(SimpleType(Void))");
    assert!(fields.iter().all(|f| !f.is_static));
    match &fields[3].ty {
        PDBType::Pointer(inner) => match &**inner {
            PDBType::Function(f) => {
                assert_eq!(f.args.len(), 4);
                assert_eq!(dbg(&f.args[1]), "Pointer(Struct(\"App.Child\"))");
            },
            other => panic!("not a function: {:?}", other),
        },
        other => panic!("not a pointer: {:?}", other),
    }
}

#[test]
fn vtable_of_type_without_slots() {
    let mut db: Il2Cpp = StrMap::new();
    let mut t = ty("Lone", "");
    t.flags = vec![RETypeFlag::ManagedVTable];
    db.insert("Lone".to_string(), t);
    let (size, fields) = db.get("Lone").unwrap().get_struct_vtable(&db).unwrap();
    assert_eq!(size, 8);
    assert_eq!(fields.len(), 1);
}

#[test]
fn vtable_needs_a_managed_vtable() {
    let db = database();
    let base = db.get("App.Base").unwrap();
    match base.get_struct_vtable(&db) {
        Err(e) => {
            assert!(matches!(&e, Il2CppError::NoManagedVTable(n) if n == "App.Base"));
            assert_eq!(e.message(), "Type App.Base does not have a Managed VTable");
        },
        Ok(_) => panic!("expected an error"),
    }
}

#[test]
fn flag_lists() {
    let p = parse_flags::<RETypeFlag>("Public | Sealed|Bogus| ManagedVTable");
    assert_eq!(p.flags, vec![RETypeFlag::Public, RETypeFlag::Sealed, RETypeFlag::ManagedVTable]);
    assert_eq!(p.unknown, vec!["Bogus".to_string()]);
    let q = parse_flags::<REFieldFlag>("");
    assert!(q.flags.is_empty());
    assert_eq!(q.unknown, vec!["".to_string()]);
    let r = parse_flags::<REMethodFlag>("Virtual|NewSlot|HideBySig");
    assert_eq!(r.flags, vec![REMethodFlag::Virtual, REMethodFlag::NewSlot, REMethodFlag::HideBySig]);
    let s = parse_flags::<REImplFlag>("HasThis|public");
    assert_eq!(s.flags, vec![REImplFlag::HasThis]);
    assert_eq!(s.unknown, vec!["public".to_string()]);
}

#[test]
fn flag_membership() {
    let flags = vec![REMethodFlag::Virtual, REMethodFlag::Static];
    assert!(has_flag(&flags, &REMethodFlag::Static));
    assert!(!has_flag(&flags, &REMethodFlag::Abstract));
    assert!(!has_flag(&Vec::<REMethodFlag>::new(), &REMethodFlag::Static));
}

#[test]
fn field_sort_is_stable() {
    let mk = |n: &str, o: u64| StructField {
        ty: PDBType::SimpleType(SimpleTypeKind::Int32),
        name: n.to_string(),
        offset: o,
        is_static: false,
    };
    let sorted = sort_fields_by_offset(vec![mk("a", 8), mk("b", 0), mk("c", 8), mk("d", 4), mk("e", 0)]);
    let names: Vec<String> = sorted.iter().map(|f| f.name.clone()).collect();
    assert_eq!(names, vec!["b", "e", "d", "a", "c"]);
}

#[test]
fn string_map_keeps_insertion_order() {
    let mut m: StrMap<u32> = StrMap::new();
    assert!(m.insert("b".to_string(), 1));
    assert!(m.insert("a".to_string(), 2));
    assert!(!m.insert("b".to_string(), 3));
    assert_eq!(m.len(), 2);
    assert_eq!(m.key_at(0).as_str(), "b");
    assert_eq!(*m.value_at(0), 3);
    assert_eq!(m.get("a"), Some(&2));
    assert!(m.contains_key("b"));
    assert!(!m.contains_key("c"));
    assert_eq!(m.get("c"), None);
}

#[test]
fn duplicate_member_names_are_detected() {
    let db = database();
    assert!(db_is_wf(&db));
    assert!(db.get("App.Child").unwrap().has_distinct_names());
    let mut t = ty("Dup", "");
    t.fields.push(field("a", "System.Int32", 0, 0, vec![]));
    t.fields.push(field("a", "System.Int64", 8, 0, vec![]));
    assert!(!t.has_distinct_names());
    let mut db2: Il2Cpp = StrMap::new();
    db2.insert("Dup".to_string(), t);
    assert!(!db_is_wf(&db2));
    let mut u = ty("Dup2", "");
    u.methods.push(method("m", vec![], None));
    u.methods.push(method("m", vec![], None));
    assert!(!u.has_distinct_names());
}
