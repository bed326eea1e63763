use ree_pdb::enums::{parse_enum_map, parse_enum_value, EnumMap, EnumVariant};

fn variants_of<'a>(m: &'a EnumMap, name: &str) -> &'a Vec<EnumVariant> {
    m.get(name).expect("enum present")
}

fn summary(vs: &Vec<EnumVariant>) -> Vec<(String, u64, bool)> {
    vs.iter().map(|v| (v.name.clone(), v.value, v.is_unsigned)).collect()
}

#[test]
fn implicit_values_count_up() {
    assert_eq!(parse_enum_value(None, None), Some((0, false)));
    assert_eq!(parse_enum_value(None, Some(4)), Some((5, false)));
    assert_eq!(parse_enum_value(None, Some(u64::MAX)), Some((0, false)));
}

#[test]
fn hexadecimal_values() {
    assert_eq!(parse_enum_value(Some("0x10"), None), Some((16, false)));
    assert_eq!(parse_enum_value(Some(" 0X10u "), None), Some((16, false)));
    assert_eq!(parse_enum_value(Some("0x80000000U"), None), Some((0x8000_0000, true)));
    assert_eq!(parse_enum_value(Some("0x7FFFFFFF"), None), Some((0x7FFF_FFFF, false)));
    assert_eq!(parse_enum_value(Some("0xZZ"), None), None);
}

#[test]
fn negative_values_wrap() {
    assert_eq!(parse_enum_value(Some("-1"), None), Some((u64::MAX, false)));
    assert_eq!(parse_enum_value(Some("-9223372036854775808"), None), Some((1u64 << 63, false)));
    assert_eq!(parse_enum_value(Some("-"), None), None);
    assert_eq!(parse_enum_value(Some("-9223372036854775809"), None), None);
}

#[test]
fn decimal_values() {
    assert_eq!(parse_enum_value(Some("5"), Some(100)), Some((5, false)));
    assert_eq!(parse_enum_value(Some("  7 "), None), Some((7, false)));
    assert_eq!(parse_enum_value(Some("2147483648"), None), Some((2147483648, true)));
    assert_eq!(parse_enum_value(Some("18446744073709551616"), None), None);
    assert_eq!(parse_enum_value(Some("A | B"), None), None);
    assert_eq!(parse_enum_value(Some(""), None), None);
}

#[test]
fn header_with_namespaces_and_enum_classes() {
    let text = "namespace via {\n\
                namespace render::detail {\n\
                enum class Mode : uint32_t {\n\
                    Off,\n\
                    On = 4,\n\
                    Auto,\n\
                    Big = 0xFFFFFFFFu,\n\
                };\n\
                }\n\
                enum Plain {\n\
                    A = -1,\n\
                    B\n\
                };\n\
                }\n\
                enum Top {\n\
                    X = 1 << 2,\n\
                    Y = 3,\n\
                }\n";
    let m = parse_enum_map(text);
    assert_eq!(m.len(), 3);
    assert_eq!(m.key_at(0).as_str(), "via.render.detail.Mode");
    assert_eq!(
        summary(variants_of(&m, "via.render.detail.Mode")),
        vec![
            ("Off".to_string(), 0, false),
            ("On".to_string(), 4, false),
            ("Auto".to_string(), 5, false),
            ("Big".to_string(), 0xFFFF_FFFF, true),
        ]
    );
    assert_eq!(
        summary(variants_of(&m, "via.Plain")),
        vec![("A".to_string(), u64::MAX, false), ("B".to_string(), 0, false)]
    );
    assert_eq!(summary(variants_of(&m, "Top")), vec![("Y".to_string(), 3, false)]);
}

#[test]
fn windows_line_endings_and_redefinition() {
    let text = "enum E {\r\n  A = 2,\r\n};\r\nenum E {\r\n  B,\r\n};\r\n";
    let m = parse_enum_map(text);
    assert_eq!(m.len(), 1);
    assert_eq!(summary(variants_of(&m, "E")), vec![("B".to_string(), 0, false)]);
}

#[test]
fn empty_header() {
    let m = parse_enum_map("");
    assert_eq!(m.len(), 0);
    assert!(m.get("anything").is_none());
}
