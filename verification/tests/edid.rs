use lace_util::edid::{EdidParseError, ParsedEdid};

#[test]
fn test_parse_valid_edid() {
    let mut edid_data: [u8; 128] = [0; 128];
    edid_data[0..20].copy_from_slice(&[
        0x00, 0xff, 0xff, 0xff, 0xff, 0xff, 0xff, 0x00, // pattern
        0x30, 0x64, // mfr id
        0xab, 0x89, // product code
        0x78, 0x56, 0x34, 0x12, // serial number
        0x1a, 0x1b, // week and year
        0x01, 0x03, // version
    ]);
    let parsed = ParsedEdid::parse(&edid_data).expect("Failed to parse valid EDID");
    let panel_id = parsed.panel_id().expect("Failed to get panel ID");
    assert_eq!(panel_id, "LCD89ab");
    assert_eq!(parsed.header.serial_number, 0x12345678);
    assert_eq!(parsed.header.week_of_manufacture, 0x1a);
    assert_eq!(parsed.header.year_of_manufacture, 0x1b);
    assert_eq!(parsed.header.edid_version, 0x01);
    assert_eq!(parsed.header.edid_revision, 0x03);
}

#[test]
fn test_parse_invalid_size() {
    let edid_data: [u8; 100] = [0; 100];
    let result = ParsedEdid::parse(&edid_data);
    assert!(matches!(result, Err(EdidParseError::InvalidSize)));
}

#[test]
fn test_parse_invalid_header() {
    let edid_data: [u8; 128] = [0; 128];
    let result = ParsedEdid::parse(&edid_data);
    assert!(matches!(result, Err(EdidParseError::InvalidHeader)));
}

#[test]
fn test_panel_id_invalid_manufacturer() {
    let mut edid_data: [u8; 128] = [0; 128];
    edid_data[0..8].copy_from_slice(&[0x00, 0xff, 0xff, 0xff, 0xff, 0xff, 0xff, 0x00]);
    edid_data[8] = 0x00;
    edid_data[9] = 0x00;
    edid_data[10..12].copy_from_slice(&[0x00, 0x00]);

    let parsed = ParsedEdid::parse(&edid_data).expect("Should parse EDID structure");
    let result = parsed.panel_id();
    assert!(
        matches!(result, Err(EdidParseError::InvalidPanelId)),
        "Should fail with InvalidPanelId for invalid manufacturer encoding"
    );
}

#[test]
fn edid_error_texts() {
    assert_eq!(EdidParseError::InvalidSize.to_string(), "EDID data is too small");
    assert_eq!(EdidParseError::InvalidHeader.to_string(), "EDID header is invalid");
    assert_eq!(EdidParseError::InvalidPanelId.to_string(), "Panel ID could not be found");
}
