use ree_pdb::il2cpp::{Il2Cpp, REField, REMethod, REParam, REType};
use ree_pdb::strmap::StrMap;
use ree_pdb::traversal::{child_names, visit_in_order, visit_selected, NameFilter};

fn ty(name: &str, parent: &str) -> REType {
    REType {
        name: name.to_string(),
        address: 0,
        crc: 0,
        flags: vec![],
        fields: vec![],
        fqn: 0,
        id: 0,
        is_generic_type: false,
        is_generic_type_definition: false,
        methods: vec![],
        name_hierarchy: vec![],
        native_typename: String::new(),
        parent: parent.to_string(),
        properties: vec![],
        size: 0,
    }
}

fn param(ty: &str) -> REParam {
    REParam { name: "p".to_string(), type_: ty.to_string() }
}

/// `A` refers to `B` (parent), `C` (field), `D` (return type), `E` (not in
/// the database) and itself; `C` derives from `B`; `D` from a type not in
/// the database.
fn database() -> Il2Cpp {
    let mut a = ty("A", "B");
    a.fields.push(REField {
        name: "c".to_string(),
        id: 0,
        init_data_index: 0,
        offset_from_base: 0x10,
        offset_from_fieldptr: 0,
        type_: "C".to_string(),
        flags: vec![],
    });
    a.methods.push(REMethod {
        name: "run".to_string(),
        flags: vec![],
        function: 0,
        id: 0,
        impl_flags: vec![],
        invoke_id: 0,
        params: Some(vec![param("E"), param("A")]),
        returns: Some(param("D")),
        vtable_index: None,
    });
    let mut db: Il2Cpp = StrMap::new();
    db.insert("A".to_string(), a);
    db.insert("B".to_string(), ty("B", ""));
    db.insert("C".to_string(), ty("C", "B"));
    db.insert("D".to_string(), ty("D", "System.Object"));
    db
}

#[test]
fn children_in_walk_order() {
    let db = database();
    assert_eq!(child_names(db.get("A").unwrap()), vec!["B", "C", "D", "E", "A"]);
    assert!(child_names(db.get("B").unwrap()).is_empty());
}

#[test]
fn every_type_after_what_it_refers_to() {
    let db = database();
    let mut visited: StrMap<()> = StrMap::new();
    let order = visit_in_order(&db, &mut visited, &None);
    assert_eq!(order, vec!["B", "C", "D", "A"]);
    assert_eq!(visited.len(), 6);
    for n in ["A", "B", "C", "D", "E", "System.Object"] {
        assert!(visited.contains_key(n), "{n} visited");
    }
}

#[test]
fn filter_selects_the_roots() {
    let db = database();
    let mut visited: StrMap<()> = StrMap::new();
    let re = NameFilter::new("^C$").unwrap();
    let order = visit_in_order(&db, &mut visited, &Some(re));
    assert_eq!(order, vec!["B", "C"]);
    assert!(!visited.contains_key("A"));
}

#[test]
fn filter_matching_nothing_lists_nothing() {
    let db = database();
    let mut visited: StrMap<()> = StrMap::new();
    let re = NameFilter::new("^Z").unwrap();
    assert!(visit_in_order(&db, &mut visited, &Some(re)).is_empty());
    assert_eq!(visited.len(), 0);
}

#[test]
fn previously_visited_types_are_not_listed_again() {
    let db = database();
    let mut visited: StrMap<()> = StrMap::new();
    visited.insert("B".to_string(), ());
    let order = visit_in_order(&db, &mut visited, &None);
    assert_eq!(order, vec!["C", "D", "A"]);
    let again = visit_in_order(&db, &mut visited, &None);
    assert!(again.is_empty());
}

#[test]
fn selected_roots() {
    let db = database();
    let mut visited: StrMap<()> = StrMap::new();
    let order = visit_selected(&db, &mut visited, &vec![false, false, true, true]);
    assert_eq!(order, vec!["B", "C", "D"]);
    assert!(visited.contains_key("System.Object"));
    assert!(!visited.contains_key("A"));
}

#[test]
fn dependencies_come_first_in_an_acyclic_database() {
    let db = database();
    let mut visited: StrMap<()> = StrMap::new();
    let order = visit_in_order(&db, &mut visited, &None);
    for (i, name) in order.iter().enumerate() {
        let t = db.get(name).unwrap();
        for c in child_names(t) {
            if db.contains_key(&c) && &c != name {
                assert!(order[..i].contains(&c), "{c} listed before {name}");
            }
        }
    }
}

#[test]
fn each_type_is_listed_once() {
    let db = database();
    let mut visited: StrMap<()> = StrMap::new();
    let order = visit_in_order(&db, &mut visited, &None);
    let mut sorted = order.clone();
    sorted.sort();
    sorted.dedup();
    assert_eq!(sorted.len(), order.len());
    assert!(order.iter().all(|n| db.contains_key(n)));
}

#[test]
fn filter_matches_anywhere_in_the_key() {
    let db = database();
    let mut visited: StrMap<()> = StrMap::new();
    let order = visit_in_order(&db, &mut visited, &NameFilter::new("D|B"));
    assert_eq!(order, vec!["B", "D"]);
}

#[test]
fn invalid_patterns_give_no_filter() {
    assert!(NameFilter::new("(unclosed").is_none());
    assert!(NameFilter::new("[a-").is_none());
    assert!(NameFilter::new("").is_some());
}
