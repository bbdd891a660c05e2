use lace_util::chid::CHID_EDID_PANEL;
use lace_util::chid::CHID_SMBIOS_BASEBOARD_MANUFACTURER;
use lace_util::chid::CHID_SMBIOS_BASEBOARD_PRODUCT;
use lace_util::chid::CHID_SMBIOS_BIOS_MAJOR;
use lace_util::chid::CHID_SMBIOS_BIOS_MINOR;
use lace_util::chid::CHID_SMBIOS_BIOS_VENDOR;
use lace_util::chid::CHID_SMBIOS_BIOS_VERSION;
use lace_util::chid::CHID_SMBIOS_ENCLOSURE_TYPE;
use lace_util::chid::CHID_SMBIOS_FAMILY;
use lace_util::chid::CHID_SMBIOS_MANUFACTURER;
use lace_util::chid::CHID_SMBIOS_PRODUCT_NAME;
use lace_util::chid::CHID_SMBIOS_PRODUCT_SKU;
use lace_util::chid::CHID_TYPES;
use lace_util::chid::ChidSources;
use lace_util::chid::ChidSourcesError;
use lace_util::chid::chid_sources_from_smbios_and_edid;
use lace_util::chid::compute_chid;
use lace_util::edid::EdidParseError;
use lace_util::guid_str;
use lace_util::smbios::SmbiosParseError;
use lace_util::Guid;

fn assert_eq_all_chids(srcs: &ChidSources, expected_chids: &[Option<Guid>]) {
    for (i, &chid_type) in CHID_TYPES.iter().enumerate() {
        if let Some(chid) = compute_chid(srcs, chid_type) {
            println!("CHID type {}: {}", i, chid.to_string());
        } else {
            println!("CHID type {}: <missing>", i);
        }
    }
    for (i, &chid_type) in CHID_TYPES.iter().enumerate() {
        let computed_chid = compute_chid(srcs, chid_type);
        assert_eq!(computed_chid, expected_chids[i], "CHID type {} mismatch", i);
    }
}

/// A single SMBIOS table as raw bytes with a string section.
fn smbios_table_bytes(table: &[u8], strings: &[&str]) -> Vec<u8> {
    let mut data = Vec::new();
    data.extend_from_slice(table);
    for s in strings {
        data.extend_from_slice(s.as_bytes());
        data.push(0);
    }
    if strings.is_empty() {
        data.push(0);
    }
    data.push(0);
    data
}

/// A type 127 end-of-table marker.
fn smbios_end_marker() -> Vec<u8> {
    smbios_table_bytes(&[127, 4, 0, 0], &[])
}

/// A valid 128-byte EDID with panel id "BOE0b66".
fn build_test_edid() -> [u8; 128] {
    let mut edid = [0u8; 128];
    edid[0..8].copy_from_slice(&[0x00, 0xff, 0xff, 0xff, 0xff, 0xff, 0xff, 0x00]);
    edid[8] = 0x09;
    edid[9] = 0xe5;
    edid[10] = 0x66;
    edid[11] = 0x0b;
    edid
}

/// BIOS information (type 0) before SMBIOS 2.4: 20 bytes.
fn build_type0(strings: &[&str]) -> Vec<u8> {
    let mut t = vec![0u8, 20, 0, 0, 1, 2, 0, 0, 3, 0];
    t.extend_from_slice(&[0u8; 10]);
    smbios_table_bytes(&t, strings)
}

/// BIOS information (type 0) from SMBIOS 2.4 on: 26 bytes.
fn build_type0_24(major: u8, minor: u8, strings: &[&str]) -> Vec<u8> {
    let mut t = vec![0u8, 26, 0, 0, 1, 2, 0, 0, 3, 0];
    t.extend_from_slice(&[0u8; 8]);
    t.extend_from_slice(&[0, 0, major, minor, 0, 0, 0, 0]);
    smbios_table_bytes(&t, strings)
}

/// System information (type 1): 27 bytes.
fn build_type1(strings: &[&str]) -> Vec<u8> {
    let mut t = vec![1u8, 27, 0, 0, 1, 2, 3, 4];
    t.extend_from_slice(&[0u8; 16]);
    t.extend_from_slice(&[1, 5, 6]);
    smbios_table_bytes(&t, strings)
}

/// Baseboard information (type 2): 8 bytes.
fn build_type2(strings: &[&str]) -> Vec<u8> {
    smbios_table_bytes(&[2u8, 8, 0, 0, 1, 2, 3, 4], strings)
}

/// System enclosure (type 3): 9 bytes.
fn build_type3(enclosure_type: u8, strings: &[&str]) -> Vec<u8> {
    smbios_table_bytes(&[3u8, 9, 0, 0, 1, enclosure_type, 2, 3, 4], strings)
}

/// A 32-bit (`_SM_`) entry point: 31 bytes.
fn build_sm_ep(major: u8, minor: u8) -> Vec<u8> {
    let mut ep = b"_SM_".to_vec();
    ep.extend_from_slice(&[0, 31, major, minor, 0, 0, 0]);
    ep.extend_from_slice(&[0u8; 5]);
    ep.extend_from_slice(b"_DMI_");
    ep.extend_from_slice(&[0u8; 10]);
    assert_eq!(ep.len(), 31);
    ep
}

/// A 64-bit (`_SM3_`) entry point: 24 bytes.
fn build_sm3_ep(major: u8, minor: u8) -> Vec<u8> {
    let mut ep = b"_SM3_".to_vec();
    ep.extend_from_slice(&[0, 24, major, minor, 0, 0, 0]);
    ep.extend_from_slice(&[0u8; 12]);
    assert_eq!(ep.len(), 24);
    ep
}


#[test]
fn test_lenovo_miix_630() {
    let srcs: ChidSources = [
        Some("LENOVO".into()),                             // CHID_SMBIOS_MANUFACTURER
        Some("Miix 630".into()),                           // CHID_SMBIOS_FAMILY
        Some("81F1".into()),                               // CHID_SMBIOS_PRODUCT_NAME
        Some("LENOVO_MT_81F1_BU_idea_FM_Miix 630".into()), // CHID_SMBIOS_PRODUCT_SKU
        Some("LENOVO".into()),                             // CHID_SMBIOS_BASEBOARD_MANUFACTURER
        Some("LNVNB161216".into()),                        // CHID_SMBIOS_BASEBOARD_PRODUCT
        Some("LENOVO".into()),                             // CHID_SMBIOS_BIOS_VENDOR
        Some("8WCN25WW".into()),                           // CHID_SMBIOS_BIOS_VERSION
        None,                                              // CHID_SMBIOS_BIOS_MAJOR
        None,                                              // CHID_SMBIOS_BIOS_MINOR
        Some("32".into()),                                 // CHID_SMBIOS_ENCLOSURE_TYPE
        None,                                              // CHID_EDID_PANEL
    ];

    let expected_chids = [
        None,
        None,
        None,
        Some(guid_str("16a55446-eba9-5f97-80e3-5e39d8209bc3")),
        Some(guid_str("c4c9a6be-5383-5de7-af35-c2de505edec8")),
        Some(guid_str("14f581d2-d059-5cb2-9f8b-56d8be7932c9")),
        Some(guid_str("a51054fb-5eef-594a-a5a0-cd87632d0aea")),
        Some(guid_str("307ab358-ed84-57fe-bf05-e9195a28198d")),
        Some(guid_str("7e613574-5445-5797-9567-2d0ed86e6ffa")),
        Some(guid_str("b0f4463c-f851-5ec3-b031-2ccb873a609a")),
        Some(guid_str("08b75d1f-6643-52a1-9bdd-071052860b33")),
        Some(guid_str("dacf4a59-8e87-55c5-8b93-6912ded6bf7f")),
        Some(guid_str("d0a8deb1-4cb5-50cd-bdda-595cfc13230c")),
        Some(guid_str("71d86d4d-02f8-5566-a7a1-529cef184b7e")),
        Some(guid_str("6de5d951-d755-576b-bd09-c5cf66b27234")),
        None,
        None,
        None,
    ];

    assert_eq_all_chids(&srcs, &expected_chids);
}

#[test]
fn test_acer_aspire_a114_61() {
    let srcs: ChidSources = [
        Some("Acer".into()),
        Some("Aspire 1".into()),
        Some("Aspire A114-61".into()),
        Some("".into()),
        Some("S7C".into()),
        Some("Daisy_7C".into()),
        Some("Phoenix".into()),
        Some("V1.13".into()),
        Some("01".into()),
        Some("0d".into()),
        Some("a".into()),
        None,
    ];

    let expected_chids = [
        Some(guid_str("45d37dbe-40fb-57bd-a257-55f422d4dc0a")),
        Some(guid_str("373bfde5-ffaa-504c-84f3-f8f5357dfc29")),
        Some(guid_str("e12521bf-0ed8-5406-af87-adad812c57c5")),
        Some(guid_str("faa12ed4-bd49-5471-8f74-75c2267c3b46")),
        Some(guid_str("965e3681-de3b-5e39-bb62-7d4917d7e36f")),
        Some(guid_str("82fe1869-361c-56b2-b853-631747e64aa7")),
        Some(guid_str("7e15f49e-04b4-5d56-a567-e7a15ba2aca1")),
        Some(guid_str("7c107a7f-2d77-51aa-aef8-8d777e26ffbc")),
        Some(guid_str("68b38fff-aadc-512c-937b-99d9c13eb484")),
        Some(guid_str("260192d4-06d4-5124-ab46-ba210f4c14d7")),
        Some(guid_str("175f000b-3d05-5c01-aedd-817b1a141f93")),
        Some(guid_str("24277a94-7064-500f-9854-5264f20cfa99")),
        Some(guid_str("92dcc94d-48f7-5ee8-b9ec-a6393fb7a484")),
        Some(guid_str("d234a917-df0b-5453-a3d9-f27c06307395")),
        Some(guid_str("1e301734-5d49-5df4-9ed2-aa1c0a9dddda")),
        None,
        None,
        None,
    ];

    assert_eq_all_chids(&srcs, &expected_chids);
}

#[test]
fn test_lenovo_yoga_5g_14q8cx05() {
    let srcs: ChidSources = [
        Some("LENOVO".into()),
        Some("Yoga 5G 14Q8CX05".into()),
        Some("81XE".into()),
        Some("LENOVO_MT_81XE_BU_idea_FM_Yoga 5G 14Q8CX05".into()),
        Some("LENOVO".into()),
        Some("LNVNB161216".into()),
        Some("LENOVO".into()),
        Some("EACN41WW(V1.13)".into()),
        Some("01".into()),
        Some("29".into()),
        Some("1f".into()),
        None,
    ];

    let expected_chids = [
        Some(guid_str("ea646c11-3da1-5c8d-9346-8ff156746650")),
        Some(guid_str("5100eeed-c5e2-5b74-9c24-a22ca0644826")),
        Some(guid_str("ddb3bcda-db7b-579d-9dd9-bcc4f5b052b8")),
        Some(guid_str("fb364c09-efc0-5d16-ac97-0a3e6235b16c")),
        Some(guid_str("7e7007ac-603c-55ef-bb77-3548784b9578")),
        Some(guid_str("566b9ae8-a7fd-5c44-94d6-bac3e4cf38a7")),
        Some(guid_str("6f3bdfb7-f832-5c5f-9777-9e3db35e22a6")),
        Some(guid_str("c4ea686c-c56c-5e8e-a91e-89056683d417")),
        Some(guid_str("a1a13249-2689-5c6d-a43f-98af040284c4")),
        Some(guid_str("01439aea-e75c-5fbb-8842-18dcd1a7b8b3")),
        Some(guid_str("65ab9f32-bbc8-52d3-87f9-b618fda7c07e")),
        Some(guid_str("41ba2569-88df-57d4-b5e3-350ff985434a")),
        Some(guid_str("32b7e294-a252-5a72-b3c6-6197f08c64f1")),
        Some(guid_str("71d86d4d-02f8-5566-a7a1-529cef184b7e")),
        Some(guid_str("6de5d951-d755-576b-bd09-c5cf66b27234")),
        None,
        None,
        None,
    ];

    assert_eq_all_chids(&srcs, &expected_chids);
}

#[test]
fn test_lenovo_thinkpad_t14s_gen6() {
    let srcs: ChidSources = [
        Some("LENOVO".into()),
        Some("ThinkPad T14s Gen 6".into()),
        Some("21N2ZC5QUS".into()),
        Some("LENOVO_MT_21N2_BU_Think_FM_ThinkPad T14s Gen 6".into()),
        Some("LENOVO".into()),
        Some("21N2ZC5QUS".into()),
        Some("LENOVO".into()),
        Some("N42ET92W (2.22 )".into()),
        Some("02".into()),
        Some("16".into()),
        Some("a".into()),
        Some("BOE0b66".into()),
    ];

    let expected_chids = [
        Some(guid_str("36bf13ab-c1b4-5e16-a9c9-96a8d6fd03b0")),
        Some(guid_str("c8a30ee5-0482-5676-b108-676449dcf8aa")),
        Some(guid_str("8e0c26cf-cccb-5a1c-bdd3-c1179224d5f4")),
        Some(guid_str("f6cd4a9f-9632-516e-b748-65952f7380c5")),
        Some(guid_str("a5a4e3c1-5922-5ed6-b78e-9f0ea873a988")),
        Some(guid_str("a20ae3ec-49a1-5cb5-acb8-5d31c77b105a")),
        Some(guid_str("8cfd85bb-0d77-59df-8546-264239be475e")),
        Some(guid_str("513976f8-3f51-5b42-9ae0-931ce23c5f38")),
        Some(guid_str("86a0d770-3ca1-57fa-ac05-413481c00a24")),
        Some(guid_str("5c20e964-d530-5dd7-9efd-4aed9e73c3cb")),
        Some(guid_str("d93b21c0-5ed9-5955-911a-5b15f114d786")),
        Some(guid_str("431ff9e9-cd92-51c1-8917-46b0a0ef147c")),
        Some(guid_str("e093d715-70f7-51f4-b6c8-b4a7e31def85")),
        Some(guid_str("62631c9b-2642-5d4f-b7e2-1b917809d08d")),
        Some(guid_str("6de5d951-d755-576b-bd09-c5cf66b27234")),
        Some(guid_str("a8852b56-45ea-5377-ba2d-1910a5c897bb")),
        Some(guid_str("1538c7fb-26b6-5144-b16f-2500b5a0a503")),
        Some(guid_str("1480f3ca-b01a-5d7c-bbc9-7a17d7b4b58d")),
    ];

    assert_eq_all_chids(&srcs, &expected_chids);
}

#[test]
fn test_chid_sources_error_from_smbios() {
    let smbios_err = SmbiosParseError;
    let chid_err: ChidSourcesError = smbios_err.into();
    assert!(matches!(
        chid_err,
        ChidSourcesError::SmbiosError(SmbiosParseError)
    ));
}

#[test]
fn test_chid_sources_error_from_edid() {
    let edid_err = EdidParseError::InvalidHeader;
    let chid_err: ChidSourcesError = edid_err.into();
    assert!(matches!(
        chid_err,
        ChidSourcesError::EdidError(EdidParseError::InvalidHeader)
    ));
}

#[test]
fn test_chid_sources_from_smbios_invalid_data() {
    // Test with truncated/invalid SMBIOS data - empty data will fail to parse
    let empty_smbios: &[u8] = &[];
    let result = chid_sources_from_smbios_and_edid(None, empty_smbios, None);
    // Empty SMBIOS data causes a parse error
    assert!(result.is_err(), "Should fail to parse empty SMBIOS data");
}

#[test]
fn test_chid_sources_from_smbios_invalid_edid() {
    // Test with invalid EDID data and minimally valid SMBIOS data so that
    // we exercise the EDID error path rather than failing SMBIOS parsing.
    //
    // SMBIOS type 127 (end-of-table), length 4, handle 0xffff, followed by
    // double-NUL string terminator.
    let minimal_smbios: &[u8] = &[127, 4, 0xff, 0xff, 0, 0];
    let invalid_edid: &[u8] = &[0u8; 10]; // Too small to be valid EDID
    let result = chid_sources_from_smbios_and_edid(None, minimal_smbios, Some(invalid_edid));
    // Should fail specifically with EdidError for truly invalid EDID that
    // cannot be parsed.
    assert!(
        matches!(result, Err(ChidSourcesError::EdidError(_))),
        "Should fail with EdidError for invalid EDID"
    );
}

#[test]
fn test_chid_sources_all_tables_no_ep() {
    // No entry point → is_smbios_atleast_24 = false → SmbiosTableType0 path
    let mut smbios = Vec::new();
    smbios.extend(build_type0(&["BIOSVendor", "BIOSVer", "01/01/2025"]));
    smbios.extend(build_type1(&[
        "TestMfr",
        "TestProduct",
        "Ver1",
        "Serial1",
        "TestSKU",
        "TestFamily",
    ]));
    smbios.extend(build_type2(&["BBMfr", "BBProduct", "BBVer", "BBSerial"]));
    smbios.extend(build_type3(
        0x0a,
        &["EncMfr", "EncVer", "EncSerial", "EncAsset"],
    ));
    smbios.extend(smbios_end_marker());

    let result = chid_sources_from_smbios_and_edid(None, &smbios, None).unwrap();

    assert_eq!(result[CHID_SMBIOS_MANUFACTURER].as_deref(), Some("TestMfr"));
    assert_eq!(result[CHID_SMBIOS_FAMILY].as_deref(), Some("TestFamily"));
    assert_eq!(
        result[CHID_SMBIOS_PRODUCT_NAME].as_deref(),
        Some("TestProduct")
    );
    assert_eq!(result[CHID_SMBIOS_PRODUCT_SKU].as_deref(), Some("TestSKU"));
    assert_eq!(
        result[CHID_SMBIOS_BASEBOARD_MANUFACTURER].as_deref(),
        Some("BBMfr")
    );
    assert_eq!(
        result[CHID_SMBIOS_BASEBOARD_PRODUCT].as_deref(),
        Some("BBProduct")
    );
    assert_eq!(
        result[CHID_SMBIOS_BIOS_VENDOR].as_deref(),
        Some("BIOSVendor")
    );
    assert_eq!(result[CHID_SMBIOS_BIOS_VERSION].as_deref(), Some("BIOSVer"));
    // No EP → no BIOS major/minor
    assert_eq!(result[CHID_SMBIOS_BIOS_MAJOR], None);
    assert_eq!(result[CHID_SMBIOS_BIOS_MINOR], None);
    // Enclosure type 0x0a → "a"
    assert_eq!(result[CHID_SMBIOS_ENCLOSURE_TYPE].as_deref(), Some("a"));
    assert_eq!(result[CHID_EDID_PANEL], None);
}

#[test]
fn test_chid_sources_with_sm24_ep() {
    // SM_ entry point with version 2.4 → uses SmbiosTableType0_24 path
    let ep = build_sm_ep(2, 4);

    let mut smbios = Vec::new();
    smbios.extend(build_type0_24(1, 13, &["BV24", "BVer24", "01/01/2025"]));
    smbios.extend(smbios_end_marker());

    let result = chid_sources_from_smbios_and_edid(Some(&ep), &smbios, None).unwrap();

    assert_eq!(result[CHID_SMBIOS_BIOS_VENDOR].as_deref(), Some("BV24"));
    assert_eq!(result[CHID_SMBIOS_BIOS_VERSION].as_deref(), Some("BVer24"));
    // BIOS major=1 → "01", minor=13 → "0d"
    assert_eq!(result[CHID_SMBIOS_BIOS_MAJOR].as_deref(), Some("01"));
    assert_eq!(result[CHID_SMBIOS_BIOS_MINOR].as_deref(), Some("0d"));
}

#[test]
fn test_chid_sources_with_sm3_ep() {
    // SM3_ entry point with version 3.0 → is_smbios_atleast_24 = true
    let ep = build_sm3_ep(3, 0);

    let mut smbios = Vec::new();
    smbios.extend(build_type0_24(2, 22, &["BV3", "BVer3", "01/01/2025"]));
    smbios.extend(smbios_end_marker());

    let result = chid_sources_from_smbios_and_edid(Some(&ep), &smbios, None).unwrap();

    assert_eq!(result[CHID_SMBIOS_BIOS_VENDOR].as_deref(), Some("BV3"));
    assert_eq!(result[CHID_SMBIOS_BIOS_VERSION].as_deref(), Some("BVer3"));
    // BIOS major=2 → "02", minor=22 → "16"
    assert_eq!(result[CHID_SMBIOS_BIOS_MAJOR].as_deref(), Some("02"));
    assert_eq!(result[CHID_SMBIOS_BIOS_MINOR].as_deref(), Some("16"));
}

#[test]
fn test_chid_sources_with_invalid_ep_anchor() {
    // Entry point with unknown anchor → is_smbios_atleast_24 = false
    let ep = b"INVALID_ENTRY_POINT_DATA_PADDED_TO_32_BYTES!!";

    let mut smbios = Vec::new();
    smbios.extend(build_type0(&["BVInv", "BVerInv", "01/01/2025"]));
    smbios.extend(smbios_end_marker());

    let result = chid_sources_from_smbios_and_edid(Some(ep.as_slice()), &smbios, None).unwrap();

    // Falls through to SmbiosTableType0 (non-2.4) path
    assert_eq!(result[CHID_SMBIOS_BIOS_VENDOR].as_deref(), Some("BVInv"));
    assert_eq!(result[CHID_SMBIOS_BIOS_VERSION].as_deref(), Some("BVerInv"));
    assert_eq!(result[CHID_SMBIOS_BIOS_MAJOR], None);
    assert_eq!(result[CHID_SMBIOS_BIOS_MINOR], None);
}

#[test]
fn test_chid_sources_with_sm_ep_too_short() {
    // SM_ anchor but data too short for SmbiosEntryPoint → return false
    let ep = b"_SM_TOO";

    let mut smbios = Vec::new();
    smbios.extend(build_type0(&["BVShort", "BVerShort", "01/01/2025"]));
    smbios.extend(smbios_end_marker());

    let result = chid_sources_from_smbios_and_edid(Some(ep.as_slice()), &smbios, None).unwrap();

    // Falls back to non-2.4 path
    assert_eq!(result[CHID_SMBIOS_BIOS_VENDOR].as_deref(), Some("BVShort"));
    assert_eq!(result[CHID_SMBIOS_BIOS_MAJOR], None);
}

#[test]
fn test_chid_sources_with_sm3_ep_too_short() {
    // SM3_ anchor but data too short for Smbios3EntryPoint → return false
    let ep = b"_SM3_SHORT";

    let mut smbios = Vec::new();
    smbios.extend(build_type0(&["BVSm3S", "BVSm3S", "01/01/2025"]));
    smbios.extend(smbios_end_marker());

    let result = chid_sources_from_smbios_and_edid(Some(ep.as_slice()), &smbios, None).unwrap();

    // Falls back to non-2.4 path
    assert_eq!(result[CHID_SMBIOS_BIOS_VENDOR].as_deref(), Some("BVSm3S"));
    assert_eq!(result[CHID_SMBIOS_BIOS_MAJOR], None);
}

#[test]
fn test_chid_sources_with_sm_ep_pre24() {
    // SM_ entry point with version 2.3 (< 2.4) → is_smbios_atleast_24 = false
    let ep = build_sm_ep(2, 3);

    let mut smbios = Vec::new();
    smbios.extend(build_type0(&["BVPre24", "BVerPre24", "01/01/2025"]));
    smbios.extend(smbios_end_marker());

    let result = chid_sources_from_smbios_and_edid(Some(&ep), &smbios, None).unwrap();

    assert_eq!(result[CHID_SMBIOS_BIOS_VENDOR].as_deref(), Some("BVPre24"));
    assert_eq!(
        result[CHID_SMBIOS_BIOS_VERSION].as_deref(),
        Some("BVerPre24")
    );
    assert_eq!(result[CHID_SMBIOS_BIOS_MAJOR], None);
    assert_eq!(result[CHID_SMBIOS_BIOS_MINOR], None);
}

#[test]
fn test_chid_sources_with_edid() {
    let mut smbios = Vec::new();
    smbios.extend(build_type1(&["Mfr", "Prod", "V", "S", "SKU", "Fam"]));
    smbios.extend(smbios_end_marker());

    let edid = build_test_edid();
    let result = chid_sources_from_smbios_and_edid(None, &smbios, Some(&edid)).unwrap();

    assert_eq!(result[CHID_SMBIOS_MANUFACTURER].as_deref(), Some("Mfr"));
    assert_eq!(result[CHID_EDID_PANEL].as_deref(), Some("BOE0b66"));
}

#[test]
fn test_chid_sources_missing_optional_tables() {
    // SMBIOS with only type1 and end marker — type0, type2, type3 absent
    let mut smbios = Vec::new();
    smbios.extend(build_type1(&[
        "OnlyMfr", "OnlyProd", "V", "S", "OnlySKU", "OnlyFam",
    ]));
    smbios.extend(smbios_end_marker());

    let result = chid_sources_from_smbios_and_edid(None, &smbios, None).unwrap();

    assert_eq!(result[CHID_SMBIOS_MANUFACTURER].as_deref(), Some("OnlyMfr"));
    assert_eq!(result[CHID_SMBIOS_FAMILY].as_deref(), Some("OnlyFam"));
    assert_eq!(
        result[CHID_SMBIOS_PRODUCT_NAME].as_deref(),
        Some("OnlyProd")
    );
    assert_eq!(result[CHID_SMBIOS_PRODUCT_SKU].as_deref(), Some("OnlySKU"));
    // No type2 → baseboard fields are None
    assert_eq!(result[CHID_SMBIOS_BASEBOARD_MANUFACTURER], None);
    assert_eq!(result[CHID_SMBIOS_BASEBOARD_PRODUCT], None);
    // No type0 → BIOS fields are None
    assert_eq!(result[CHID_SMBIOS_BIOS_VENDOR], None);
    assert_eq!(result[CHID_SMBIOS_BIOS_VERSION], None);
    assert_eq!(result[CHID_SMBIOS_BIOS_MAJOR], None);
    assert_eq!(result[CHID_SMBIOS_BIOS_MINOR], None);
    // No type3 → enclosure is None
    assert_eq!(result[CHID_SMBIOS_ENCLOSURE_TYPE], None);
    assert_eq!(result[CHID_EDID_PANEL], None);
}

#[test]
fn test_compute_chid_missing_required_source() {
    // Type 14 requires only manufacturer. If all sources are None,
    // compute_chid should return None.
    let srcs: ChidSources = Default::default();
    assert_eq!(compute_chid(&srcs, CHID_TYPES[14]), None);
}

#[test]
fn test_chid_sources_all_tables_with_sm24_ep() {
    // Full end-to-end: all tables + SM_ 2.4 EP + EDID, then compute CHIDs
    let ep = build_sm_ep(2, 4);

    let mut smbios = Vec::new();
    smbios.extend(build_type0_24(
        1,
        0x0d,
        &["LENOVO", "N42ET92W (2.22 )", "01/01/2025"],
    ));
    smbios.extend(build_type1(&[
        "LENOVO",
        "ThinkPad T14s Gen 6",
        "Ver",
        "Serial",
        "LENOVO_MT_21N2_BU_Think_FM_ThinkPad T14s Gen 6",
        "ThinkPad T14s Gen 6",
    ]));
    smbios.extend(build_type2(&["LENOVO", "21N2ZC5QUS", "BBVer", "BBSerial"]));
    smbios.extend(build_type3(
        0x0a,
        &["EncMfr", "EncVer", "EncSerial", "EncAsset"],
    ));
    smbios.extend(smbios_end_marker());

    let edid = build_test_edid();
    let result = chid_sources_from_smbios_and_edid(Some(&ep), &smbios, Some(&edid)).unwrap();

    assert_eq!(result[CHID_SMBIOS_MANUFACTURER].as_deref(), Some("LENOVO"));
    assert_eq!(
        result[CHID_SMBIOS_FAMILY].as_deref(),
        Some("ThinkPad T14s Gen 6")
    );
    assert_eq!(result[CHID_SMBIOS_BIOS_VENDOR].as_deref(), Some("LENOVO"));
    assert_eq!(
        result[CHID_SMBIOS_BIOS_VERSION].as_deref(),
        Some("N42ET92W (2.22 )")
    );
    assert_eq!(result[CHID_SMBIOS_BIOS_MAJOR].as_deref(), Some("01"));
    assert_eq!(result[CHID_SMBIOS_BIOS_MINOR].as_deref(), Some("0d"));
    assert_eq!(
        result[CHID_SMBIOS_BASEBOARD_MANUFACTURER].as_deref(),
        Some("LENOVO")
    );
    assert_eq!(
        result[CHID_SMBIOS_BASEBOARD_PRODUCT].as_deref(),
        Some("21N2ZC5QUS")
    );
    assert_eq!(result[CHID_SMBIOS_ENCLOSURE_TYPE].as_deref(), Some("a"));
    assert_eq!(result[CHID_EDID_PANEL].as_deref(), Some("BOE0b66"));

    // Verify compute_chid works with parsed sources (type 14 = manufacturer only)
    let chid = compute_chid(&result, CHID_TYPES[14]).unwrap();
    assert_eq!(
        chid,
        guid_str("6de5d951-d755-576b-bd09-c5cf66b27234")
    );
}

#[test]
fn chid_uuid_version_and_variant_bits() {
    let srcs: ChidSources = [
        Some("LENOVO".into()), None, None, None, None, None, None, None, None, None, None, None,
    ];
    let chid = compute_chid(&srcs, CHID_TYPES[14]).unwrap();
    assert_eq!(chid.data3 >> 12, 5);
    assert_eq!(chid.data4[0] & 0xc0, 0x80);
    assert_eq!(compute_chid(&srcs, CHID_TYPES[13]), None);
}
