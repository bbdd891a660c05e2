use lace_util::OrderedGuid;
use lace_util::align::{align_down, align_up, count_blocks_aligned_down, count_blocks_aligned_up};
use lace_util::{find_byte_sequence, guid_str, hexdump, Guid, GuidParseError};

#[test]
fn test_find_byte_sequence() {
    let data = b"hello world";
    assert_eq!(find_byte_sequence(data, b"world"), Some(6));
    assert_eq!(find_byte_sequence(data, b"hello"), Some(0));
    assert_eq!(find_byte_sequence(data, b"notfound"), None);
    assert_eq!(find_byte_sequence(data, b""), Some(0));
}

#[test]
fn test_find_byte_sequence_too_small() {
    let data = b"hi";
    assert_eq!(find_byte_sequence(data, b"hello"), None);
}

#[test]
fn test_hexdump() {
    let data = b"hello world!";
    let output = hexdump(data);
    assert!(output.contains("68 65 6c 6c"), "Should contain hex bytes");
    assert!(output.contains("0000"), "Should contain offsets");
}

#[test]
fn test_guid_parse_error_display() {
    let err = GuidParseError;
    assert_eq!(err.to_string(), "invalid GUID format");
}

#[test]
fn test_guid_try_from_str_invalid_length() {
    let result = Guid::try_from_str("too-short");
    assert!(matches!(result, Err(GuidParseError)));
}

#[test]
fn test_guid_try_from_str_missing_dashes() {
    let result = Guid::try_from_str("123456789012345678901234567890123456");
    assert!(matches!(result, Err(GuidParseError)));
}

#[test]
fn test_guid_try_from_str_invalid_hex() {
    let result = Guid::try_from_str("zzzzzzzz-xxxx-xxxx-xxxx-xxxxxxxxxxxx");
    assert!(matches!(result, Err(GuidParseError)));
}

#[test]
fn test_guid_try_from() {
    let guid_str = "12345678-1234-5678-9abc-def012345678";
    let result: Result<Guid, _> = Guid::try_from_str(guid_str);
    assert!(result.is_ok());
    let guid = result.unwrap();
    assert_eq!(guid.data1, 0x12345678);
    assert_eq!(guid.data2, 0x1234);
    assert_eq!(guid.data3, 0x5678);
}

#[test]
fn test_guid_display() {
    let guid = guid_str("12345678-1234-5678-9abc-def012345678");
    let display_str = guid.to_string();
    assert_eq!(display_str, "12345678-1234-5678-9abc-def012345678");
}

#[test]
fn test_guid_debug() {
    let guid = guid_str("12345678-1234-5678-9abc-def012345678");
    let debug_str = guid.to_debug_string();
    assert!(debug_str.contains("guid_str"));
    assert!(debug_str.contains("12345678-1234-5678-9abc-def012345678"));
}

#[test]
fn test_align_up_macro() {
    assert_eq!(align_up(10u32, 4u32), 12);
    assert_eq!(align_up(12u32, 4u32), 12);
    assert_eq!(align_up(0u32, 4u32), 0);
    assert_eq!(align_up(1u32, 1u32), 1);
}

#[test]
fn test_align_down_macro() {
    assert_eq!(align_down(10u32, 4u32), 8);
    assert_eq!(align_down(12u32, 4u32), 12);
    assert_eq!(align_down(0u32, 4u32), 0);
    assert_eq!(align_down(3u32, 4u32), 0);
}

#[test]
fn test_count_blocks_aligned_up_macro() {
    assert_eq!(count_blocks_aligned_up(10u32, 4u32), 3);
    assert_eq!(count_blocks_aligned_up(12u32, 4u32), 3);
    assert_eq!(count_blocks_aligned_up(0u32, 4u32), 0);
}

#[test]
fn test_count_blocks_aligned_down_macro() {
    assert_eq!(count_blocks_aligned_down(10u32, 4u32), 2);
    assert_eq!(count_blocks_aligned_down(12u32, 4u32), 3);
    assert_eq!(count_blocks_aligned_down(3u32, 4u32), 0);
}

#[test]
fn test_guid_default() {
    let guid = Guid::default();
    assert_eq!(guid.data1, 0);
    assert_eq!(guid.data2, 0);
    assert_eq!(guid.data3, 0);
    assert_eq!(guid.data4, [0; 8]);
}

#[test]
fn guid_text_roundtrip_and_bytes() {
    let text = "0123abcd-ef01-2345-6789-abcdef012345";
    let g = Guid::try_from_str(text).unwrap();
    assert_eq!(g.to_string(), text);
    assert_eq!(Guid::try_from_str(&g.to_string()).unwrap(), g);
    let upper = Guid::try_from_str("0123ABCD-EF01-2345-6789-ABCDEF012345").unwrap();
    assert_eq!(upper, g);
    let mut bytes = Vec::new();
    g.push_le(&mut bytes);
    assert_eq!(&bytes[0..4], &[0xcd, 0xab, 0x23, 0x01]);
    assert_eq!(Guid::read_le(&bytes, 0), g);
}

#[test]
fn hexdump_layout() {
    let data: Vec<u8> = (0u8..18).collect();
    let out = hexdump(&data);
    assert_eq!(
        out,
        "0000  00 01 02 03 04 05 06 07  08 09 0a 0b 0c 0d 0e 0f\n0010  10 11\n"
    );
    assert_eq!(hexdump(&[]), "");
}

#[test]
fn alignment_edges() {
    assert_eq!(align_up(4095, 4096), 4096);
    assert_eq!(align_up(4097, 4096), 8192);
    assert_eq!(align_down(8191, 4096), 4096);
    assert_eq!(count_blocks_aligned_up(u32::MAX, 1), u32::MAX);
}

#[test]
fn guid_text_round_trips() {
    let g = Guid { data1: 0x0012_abcd, data2: 0x00fe, data3: 0x7, data4: [0, 0x1f, 0xa0, 0x0b, 0xff, 0x10, 0x02, 0x9c] };
    let s = g.to_string();
    assert_eq!(s, "0012abcd-00fe-0007-001f-a00bff10029c");
    assert_eq!(Guid::try_from_str(&s), Ok(g));
    assert_eq!(Guid::try_from_str(&s.to_ascii_uppercase()), Ok(g));
}

#[test]
fn ordered_guid_keeps_the_guid_in_either_order() {
    let g = Guid { data1: 0x0102_0304, data2: 0x0506, data3: 0x0708, data4: [9, 10, 11, 12, 13, 14, 15, 16] };
    let le = OrderedGuid::<false>::from_guid(g);
    assert_eq!(le.as_bytes(), [4, 3, 2, 1, 6, 5, 8, 7, 9, 10, 11, 12, 13, 14, 15, 16]);
    assert_eq!(le.to_guid(), g);
    let be = OrderedGuid::<true>::from_guid(g);
    assert_eq!(be.as_bytes(), [1, 2, 3, 4, 5, 6, 7, 8, 9, 10, 11, 12, 13, 14, 15, 16]);
    assert_eq!(be.to_guid(), g);
    assert_eq!(OrderedGuid::<true>::default().to_guid(), Guid::default());
}
