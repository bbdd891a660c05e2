use lace_util::chid::ChidSources;
use lace_util::chid_mapping::ChidMapping;
use lace_util::chid_matcher::ChidMatcher;
use lace_util::guid_str;

#[test]
fn test_empty() {
    let mappings: [ChidMapping; 0] = [];
    let srcs = ChidSources::default();
    let mut matcher = ChidMatcher::new(&mappings, &srcs);
    assert!(matcher.next().is_none());
}

#[test]
fn test_no_match() {
    let mappings = [ChidMapping::DeviceTree {
        chid: guid_str("00000000-0000-0000-0000-000000000000"),
        name: Some("Example Device"),
        compatible: Some("example,device"),
    }];
    let srcs: ChidSources = [
        Some("LENOVO".into()),                             // CHID_SMBIOS_MANUFACTURER
        Some("Miix 630".into()),                           // CHID_SMBIOS_FAMILY
        Some("81F1".into()),                               // CHID_SMBIOS_PRODUCT_NAME
        Some("LENOVO_MT_81F1_BU_idea_FM_Miix 630".into()), // CHID_SMBIOS_PRODUCT_SKU
        Some("LENOVO".into()),                             // CHID_SMBIOS_BASEBOARD_MANUFACTURER
        Some("LNVNB161216".into()),                        // CHID_SMBIOS_BASEBOARD_PRODUCT
        Some("LENOVO".into()),                             // CHID_SMBIOS_BIOS_VENDOR
        Some("8WCN25WW".into()),                           // CHID_SMBIOS_BIOS_VERSION
        None,                                              // CHID_SMBIOS_BIOS_MAJOR
        None,                                              // CHID_SMBIOS_BIOS_MINOR
        Some("32".into()),                                 // CHID_SMBIOS_ENCLOSURE_TYPE
        None,                                              // CHID_EDID_PANEL
    ];
    let mut matcher = ChidMatcher::new(&mappings, &srcs);
    assert!(matcher.next().is_none());
}

#[test]
fn test_some_match() {
    let mappings = [
        ChidMapping::DeviceTree {
            chid: guid_str("08b75d1f-6643-52a1-9bdd-071052860b33"),
            name: Some("LENOVO Miix 630"),
            compatible: Some("lenovo,miix-630"),
        },
        ChidMapping::DeviceTree {
            chid: guid_str("00000000-0000-0000-0000-000000000000"),
            name: Some("Example Device"),
            compatible: Some("example,device"),
        },
        ChidMapping::DeviceTree {
            chid: guid_str("14f581d2-d059-5cb2-9f8b-56d8be7932c9"),
            name: Some("LENOVO Miix 630"),
            compatible: Some("lenovo,miix-630"),
        },
    ];
    let srcs: ChidSources = [
        Some("LENOVO".into()),                             // CHID_SMBIOS_MANUFACTURER
        Some("Miix 630".into()),                           // CHID_SMBIOS_FAMILY
        Some("81F1".into()),                               // CHID_SMBIOS_PRODUCT_NAME
        Some("LENOVO_MT_81F1_BU_idea_FM_Miix 630".into()), // CHID_SMBIOS_PRODUCT_SKU
        Some("LENOVO".into()),                             // CHID_SMBIOS_BASEBOARD_MANUFACTURER
        Some("LNVNB161216".into()),                        // CHID_SMBIOS_BASEBOARD_PRODUCT
        Some("LENOVO".into()),                             // CHID_SMBIOS_BIOS_VENDOR
        Some("8WCN25WW".into()),                           // CHID_SMBIOS_BIOS_VERSION
        None,                                              // CHID_SMBIOS_BIOS_MAJOR
        None,                                              // CHID_SMBIOS_BIOS_MINOR
        Some("32".into()),                                 // CHID_SMBIOS_ENCLOSURE_TYPE
        None,                                              // CHID_EDID_PANEL
    ];
    let mut matcher = ChidMatcher::new(&mappings, &srcs);
    assert!(matches!(
        matcher.next(),
        Some(ChidMapping::DeviceTree {
            compatible: Some("lenovo,miix-630"),
            ..
        })
    ));
    assert!(matches!(
        matcher.next(),
        Some(ChidMapping::DeviceTree {
            compatible: Some("lenovo,miix-630"),
            ..
        })
    ));
    assert!(matcher.next().is_none());
}
