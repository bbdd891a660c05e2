use lace_util::chid_mapping::{parse_chid_mappings, serialize_chid_mappings, ChidMapping, ChidMappingIterator};
use lace_util::Guid;

fn header_bytes(descriptor: u32, chid: Guid) -> Vec<u8> {
    let mut v = descriptor.to_le_bytes().to_vec();
    chid.push_le(&mut v);
    v
}

fn offsets_bytes(a: u32, b: u32) -> Vec<u8> {
    let mut v = a.to_le_bytes().to_vec();
    v.extend_from_slice(&b.to_le_bytes());
    v
}

fn push_mapping(data: &mut Vec<u8>, header: Vec<u8>, body: &[u8]) {
    data.extend_from_slice(&header);
    data.extend_from_slice(body);
}

fn push_strings(data: &mut Vec<u8>, strings: &[&str]) {
    for s in strings.iter() {
        data.extend_from_slice(s.as_bytes());
        data.push(0);
    }
}

fn ones() -> Guid {
    Guid::read_le(&[1u8; 16], 0)
}


#[test]
fn test_empty_no_terminator() {
    assert!(parse_chid_mappings(&[]).is_err());
}

#[test]
fn test_entry_length_does_not_cover_header() {
    let mut data = Vec::new();
    push_mapping(
        &mut data,
        header_bytes(0x5000_0004, Guid::default()),
        &[],
    ); // type 5, length 4 (too small for header)
    push_mapping(&mut data, header_bytes(0, Guid::default()), &[]); // terminator
    assert!(parse_chid_mappings(&data).is_err());
}

#[test]
fn test_entry_length_exceeds_data() {
    let mut data = Vec::new();
    push_mapping(
        &mut data,
        header_bytes(0x6000_0040, Guid::default()),
        &[],
    ); // type 6, length 64 (larger than data)
    push_mapping(&mut data, header_bytes(0, Guid::default()), &[]); // terminator
    assert!(parse_chid_mappings(&data).is_err());
}

#[test]
fn test_entry_length_does_not_cover_body() {
    let mut data = Vec::new();
    push_mapping(
        &mut data,
        header_bytes(0x1000_0014, Guid::default()),
        &offsets_bytes(0, 0),
    ); // type 1, length 20 (too small for body)
    push_mapping(&mut data, header_bytes(0, Guid::default()), &[]); // terminator
    assert!(parse_chid_mappings(&data).is_err());
}

#[test]
fn test_string_offset_outside_data() {
    let mut data = Vec::new();
    push_mapping(
        &mut data,
        header_bytes(0x1000_001c, Guid::default()),
        &offsets_bytes(0x0fff_ffff, 0), // invalid name offset
    ); // type 1, length 28
    push_mapping(&mut data, header_bytes(0, Guid::default()), &[]); // terminator
    assert!(parse_chid_mappings(&data).is_err());
}

#[test]
fn test_empty_terminator() {
    let mut data = Vec::new();
    push_mapping(&mut data, header_bytes(0, Guid::default()), &[]); // terminator
    let r = parse_chid_mappings(&data).expect("failed to parse CHID mappings");
    assert!(r.is_empty());
}

#[test]
fn test_single_device_tree_mapping() {
    let mut data = Vec::new();
    push_mapping(
        &mut data,
        header_bytes(0x1000_001c, Guid::default()),
        &offsets_bytes(48, 57),
    ); // type 1, length 28
    push_mapping(&mut data, header_bytes(0, Guid::default()), &[]); // terminator
    push_strings(&mut data, &["MyDevice", "my,compatible"]);
    let r = parse_chid_mappings(&data).expect("failed to parse CHID mappings");
    assert_eq!(
        r,
        vec![ChidMapping::DeviceTree {
            chid: Guid::default(),
            name: Some("MyDevice"),
            compatible: Some("my,compatible"),
        }]
    );
}

#[test]
fn test_multiple_mappings() {
    let mut data = Vec::new();
    push_mapping(
        &mut data,
        header_bytes(0x1000_001c, Guid::default()),
        &offsets_bytes(276, 285),
    ); // type 1, length 28
    push_mapping(
        &mut data,
        header_bytes(0x5000_00c8, Guid::default()),
        &[0x42u8; 180],
    ); // unknown type 5, length 200, skipped
    push_mapping(
        &mut data,
        header_bytes(0x2000_001c, ones()),
        &offsets_bytes(299, 310),
    ); // type 2, length 28
    push_mapping(&mut data, header_bytes(0, Guid::default()), &[]); // terminator
    push_strings(
        &mut data,
        &["MyDevice", "my,compatible", "MyFirmware", "FWID1234"],
    );
    let r = parse_chid_mappings(&data).expect("failed to parse CHID mappings");
    assert_eq!(
        r,
        vec![
            ChidMapping::DeviceTree {
                chid: Guid::default(),
                name: Some("MyDevice"),
                compatible: Some("my,compatible"),
            },
            ChidMapping::Unknown {
                kind: 5,
                chid: Guid::default(),
                body: &[0x42u8; 180],
            },
            ChidMapping::UefiFw {
                chid: ones(),
                name: Some("MyFirmware"),
                fwid: Some("FWID1234"),
            },
        ]
    );
}

#[test]
fn test_serialize_single() {
    let mut actual = Vec::new();
    serialize_chid_mappings(
        &mut actual,
        &[ChidMapping::DeviceTree {
            chid: Guid::default(),
            name: Some("MyDevice"),
            compatible: Some("my,compatible"),
        }],
    );

    let mut expected = Vec::new();
    push_mapping(
        &mut expected,
        header_bytes(0x1000_001c, Guid::default()),
        &offsets_bytes(56, 65),
    ); // type 1, length 28
    push_mapping(&mut expected, header_bytes(0, Guid::default()), &[0u8; 8]); // terminator (long, ukify compatible)
    push_strings(&mut expected, &["MyDevice", "my,compatible"]);

    assert_eq!(actual, expected);
}

#[test]
fn test_serialize_multiple() {
    let mut actual = Vec::new();
    serialize_chid_mappings(
        &mut actual,
        &[
            ChidMapping::DeviceTree {
                chid: Guid::default(),
                name: Some("MyDevice"),
                compatible: Some("my,compatible"),
            },
            ChidMapping::Unknown {
                kind: 5,
                chid: Guid::default(),
                body: &[0x42u8; 180],
            },
            ChidMapping::UefiFw {
                chid: ones(),
                name: Some("MyFirmware"),
                fwid: Some("FWID1234"),
            },
        ],
    );

    let mut expected = Vec::new();
    push_mapping(
        &mut expected,
        header_bytes(0x1000_001c, Guid::default()),
        &offsets_bytes(284, 293),
    ); // type 1, length 28
    push_mapping(
        &mut expected,
        header_bytes(0x5000_00c8, Guid::default()),
        &[0x42u8; 180],
    ); // unknown type 5, length 200, skipped
    push_mapping(
        &mut expected,
        header_bytes(0x2000_001c, ones()),
        &offsets_bytes(307, 318),
    ); // type 2, length 28
    push_mapping(&mut expected, header_bytes(0, Guid::default()), &[0u8; 8]); // terminator (long, ukify compatible)
    push_strings(
        &mut expected,
        &["MyDevice", "my,compatible", "MyFirmware", "FWID1234"],
    );

    assert_eq!(actual, expected);
}

#[test]
fn chid_mapping_serialize_then_parse() {
    let ms = vec![
        ChidMapping::DeviceTree { chid: ones(), name: Some("A"), compatible: None },
        ChidMapping::UefiFw { chid: Guid::default(), name: None, fwid: Some("fw") },
        ChidMapping::DeviceTree { chid: Guid::default(), name: Some("A"), compatible: Some("c,d") },
    ];
    let mut bytes = Vec::new();
    serialize_chid_mappings(&mut bytes, &ms);
    let back = parse_chid_mappings(&bytes).expect("serialized mappings parse");
    assert_eq!(back, ms);
}

#[test]
fn chid_mapping_iterator_repeats_error() {
    // A malformed entry is not skipped: the iterator stays on it.
    let data: Vec<u8> = vec![0x04, 0, 0, 0x50];
    let mut it = ChidMappingIterator::from(&data[..]);
    assert!(matches!(it.next(), Some(Err(_))));
    assert!(matches!(it.next(), Some(Err(_))));
}

#[test]
fn serialized_size_fits_ordinary_mappings() {
    let ms = vec![
        ChidMapping::DeviceTree { chid: Guid::default(), name: Some("board"), compatible: Some("vendor,board") },
        ChidMapping::UefiFw { chid: Guid::default(), name: None, fwid: Some("fw") },
    ];
    assert!(lace_util::chid_mapping::serialized_size_fits(&ms));
    assert!(lace_util::chid_mapping::serialized_size_fits(&[]));
}
