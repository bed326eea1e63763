use ree_pdb::util::{
    array_contained_type, instruction_line, parse_address_u32, parse_address_u64,
    rename_ida_array, sanitize_member_prefix, sanitize_struct_name, ParseAddressError,
};

#[test]
fn member_prefix_keeps_word_characters() {
    assert_eq!(sanitize_member_prefix("System.Collections.Generic.List`1<int>"), "System_Collections_Generic_List_1_int_");
    assert_eq!(sanitize_member_prefix("abc_XYZ_019"), "abc_XYZ_019");
    assert_eq!(sanitize_member_prefix(""), "");
}

#[test]
fn member_prefix_replaces_non_ascii() {
    assert_eq!(sanitize_member_prefix("Größe"), "Gr__e");
}

#[test]
fn member_prefix_is_idempotent() {
    let once = sanitize_member_prefix("a.b[c]<d>");
    assert_eq!(sanitize_member_prefix(&once), once);
}

#[test]
fn struct_name_rewrites_brackets_and_commas() {
    assert_eq!(sanitize_struct_name("System.Int32[]"), "System.Int32_arr");
    assert_eq!(sanitize_struct_name("System.Int32[,]"), "System.Int32[_multi_]");
    assert_eq!(sanitize_struct_name("A[][]"), "A_arr_arr");
    assert_eq!(sanitize_struct_name("Plain"), "Plain");
}

#[test]
fn contained_type_drops_brackets_and_commas() {
    assert_eq!(array_contained_type("System.Int32[]"), "System.Int32");
    assert_eq!(array_contained_type("System.Byte[,,]"), "System.Byte");
    assert_eq!(array_contained_type("Dict<K,V>"), "Dict<KV>");
}

#[test]
fn ida_array_names() {
    assert_eq!(rename_ida_array("System.Int32[]"), "System.Int32__arr");
    assert_eq!(rename_ida_array("System.Int32[,]"), "System.Int32__2d_arr");
    assert_eq!(rename_ida_array("Foo[,,]"), "Foo__3d_arr");
    assert_eq!(rename_ida_array("Bar"), "Bar__arr");
}

#[test]
fn ida_array_name_with_many_dimensions() {
    assert_eq!(rename_ida_array("T[,,,,,,,,,,]"), "T__11d_arr");
}

#[test]
fn address_u64_with_and_without_prefix() {
    assert_eq!(parse_address_u64("0x1400A2F00"), Ok(0x1400A2F00));
    assert_eq!(parse_address_u64("1400a2f00"), Ok(0x1400A2F00));
    assert_eq!(parse_address_u64("0x0x1F"), Ok(0x1F));
    assert_eq!(parse_address_u64("0xFFFFFFFFFFFFFFFF"), Ok(u64::MAX));
    assert_eq!(parse_address_u64("+ff"), Ok(0xff));
}

#[test]
fn address_u64_errors() {
    assert_eq!(parse_address_u64(""), Err(ParseAddressError::InvalidHex));
    assert_eq!(parse_address_u64("0x"), Err(ParseAddressError::InvalidHex));
    assert_eq!(parse_address_u64("0xG1"), Err(ParseAddressError::InvalidHex));
    assert_eq!(parse_address_u64("0x10000000000000000"), Err(ParseAddressError::InvalidHex));
    assert_eq!(parse_address_u64("-1"), Err(ParseAddressError::InvalidHex));
    assert_eq!(parse_address_u64(" 1"), Err(ParseAddressError::InvalidHex));
}

#[test]
fn address_u32_bounds() {
    assert_eq!(parse_address_u32("0x10"), Ok(16));
    assert_eq!(parse_address_u32("0xFFFFFFFF"), Ok(u32::MAX));
    assert_eq!(parse_address_u32("0x100000000"), Err(ParseAddressError::InvalidHex));
    assert_eq!(parse_address_u32("0"), Ok(0));
}

#[test]
fn listing_line_pads_the_byte_column() {
    let line = instruction_line(0x140001000, &[0x48, 0x8B, 0x05, 0x00, 0x02, 0x00, 0x00], "mov rax,[rel 140001207h]");
    assert_eq!(line, "0000000140001000 488B0500020000       mov rax,[rel 140001207h]");
}

#[test]
fn listing_line_without_padding() {
    let bytes = [0u8, 1, 2, 3, 4, 5, 6, 7, 8, 9, 0xAB];
    let line = instruction_line(0xFFFF_FFFF_FFFF_FFFF, &bytes, "x");
    assert_eq!(line, "FFFFFFFFFFFFFFFF 00010203040506070809AB x");
}

#[test]
fn listing_line_of_empty_bytes() {
    let line = instruction_line(0, &[], "");
    assert_eq!(line, format!("0000000000000000 {} ", " ".repeat(20)));
}

#[test]
fn listed_address_reads_back() {
    for ip in [0u64, 0x1_4000_1000, u64::MAX, 0xABCDEF] {
        let line = instruction_line(ip, &[0x90], "nop");
        let shown = format!("0x{}", &line[..16]);
        assert_eq!(parse_address_u64(&shown), Ok(ip));
    }
}

#[test]
fn struct_names_hold_no_commas_or_empty_brackets() {
    for name in ["[[]]", "A[,][]", "Dict<K,V>[]", "[,,]", "x[]]["] {
        let s = sanitize_struct_name(name);
        assert!(!s.contains(','), "{s}");
        assert!(!s.contains("[]"), "{s}");
    }
    assert_eq!(sanitize_struct_name("[[]]"), "[_arr]");
}
