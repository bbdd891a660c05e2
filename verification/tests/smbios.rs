use lace_util::smbios::{
    find_smbios_table_by_type, SmbiosError, SmbiosTableType1, SMBIOS_HEADER_SIZE,
    SMBIOS_TABLE_TYPE0_SIZE, SMBIOS_TABLE_TYPE1_SIZE,
};

/// Appends a table with the given type and formatted length (header included).
fn push_table(buf: &mut Vec<u8>, t: u8, len: usize, strings: &[u8]) {
    buf.push(t);
    buf.push(len as u8);
    buf.extend_from_slice(&[0x34, 0x12]);
    buf.resize(buf.len() - 4 + len, 0);
    buf.extend_from_slice(strings);
}

#[test]
fn test_find_smbios_table_by_type() {
    let mut buf: Vec<u8> = Vec::new();
    push_table(&mut buf, 0, SMBIOS_TABLE_TYPE0_SIZE, b"VENDOR\0VER\0\0");
    push_table(&mut buf, 1, SMBIOS_TABLE_TYPE1_SIZE, b"MFG\0PROD\0\0");
    push_table(&mut buf, 127, SMBIOS_HEADER_SIZE, b"\0\0");

    let tbl = find_smbios_table_by_type(&buf, 1, SMBIOS_TABLE_TYPE1_SIZE)
        .expect("type 1 should be found");
    let table = SmbiosTableType1::parse(tbl.table);
    assert_eq!(table.header.type_, 1);
    assert_eq!(table.header.length as usize, SMBIOS_TABLE_TYPE1_SIZE);
    assert_eq!(tbl.get_string(1), Some(&b"MFG"[..]));
    assert_eq!(tbl.get_string(2), Some(&b"PROD"[..]));
}

#[test]
fn test_type_not_found_returns_table_not_found() {
    let mut buf: Vec<u8> = Vec::new();
    push_table(&mut buf, 0, SMBIOS_TABLE_TYPE0_SIZE, b"VENDOR\0\0");
    push_table(&mut buf, 127, SMBIOS_HEADER_SIZE, b"\0\0");
    let res = find_smbios_table_by_type(&buf, 1, SMBIOS_TABLE_TYPE1_SIZE);
    assert!(matches!(res, Err(SmbiosError::TableNotFound)));
}

#[test]
fn test_invalid_when_header_length_exceeds_buffer() {
    let buf = vec![1, 64, 0x00, 0x00];
    let res = find_smbios_table_by_type(&buf, 1, SMBIOS_TABLE_TYPE1_SIZE);
    assert!(matches!(res, Err(SmbiosError::InvalidTable)));
}

#[test]
fn test_invalid_when_missing_double_zero_string_terminator() {
    let mut buf: Vec<u8> = Vec::new();
    push_table(&mut buf, 1, SMBIOS_TABLE_TYPE1_SIZE, b"ONLYONE\0");
    let res = find_smbios_table_by_type(&buf, 1, SMBIOS_TABLE_TYPE1_SIZE);
    assert!(matches!(res, Err(SmbiosError::InvalidTable)));
}

#[test]
fn smbios_table_too_short_for_type() {
    let mut buf: Vec<u8> = Vec::new();
    push_table(&mut buf, 1, 8, b"\0\0");
    push_table(&mut buf, 127, SMBIOS_HEADER_SIZE, b"\0\0");
    let res = find_smbios_table_by_type(&buf, 1, SMBIOS_TABLE_TYPE1_SIZE);
    assert!(matches!(res, Err(SmbiosError::InvalidTable)));
    let tbl = find_smbios_table_by_type(&buf, 1, 8).expect("short table accepted with smaller minimum");
    assert_eq!(tbl.get_string(0), None);
    // An empty string area still splits into one empty string.
    assert_eq!(tbl.get_string(1), Some(&[][..]));
    assert_eq!(tbl.get_string(2), None);
}

#[test]
fn type0_needs_its_extension_bytes() {
    let mut buf: Vec<u8> = Vec::new();
    push_table(&mut buf, 0, 18, b"VENDOR\0\0");
    push_table(&mut buf, 127, SMBIOS_HEADER_SIZE, b"\0\0");
    assert!(matches!(
        find_smbios_table_by_type(&buf, 0, SMBIOS_TABLE_TYPE0_SIZE),
        Err(SmbiosError::InvalidTable)
    ));
}
