use lace_util::bls::{parse_bls_entry, BlsEntry};

#[test]
fn test_parse_empty() {
    let config = "";
    let entry = parse_bls_entry(config);
    assert_eq!(entry.title(), "(no title)");
    assert_eq!(entry.linux, None);
    assert_eq!(entry.initrd, None);
    assert_eq!(entry.options, None);
}

#[test]
fn test_parse_simple() {
    let config = r#"
title Test Entry
linux /boot/vmlinuz
initrd /boot/initrd.img
options root=/dev/sda1
"#;
    let entry = parse_bls_entry(config);
    assert_eq!(entry.title(), "Test Entry");
    assert_eq!(entry.linux, Some("/boot/vmlinuz".to_string()));
    assert_eq!(entry.initrd, Some("/boot/initrd.img".to_string()));
    assert_eq!(entry.options, Some("root=/dev/sda1".to_string()));
}

#[test]
fn test_parse_with_comments() {
    let config = r#"
# This is a comment
title Test Entry
# Another comment
linux /boot/vmlinuz
options root=/dev/sda1
"#;
    let entry = parse_bls_entry(config);
    assert_eq!(entry.title(), "Test Entry");
    assert_eq!(entry.linux, Some("/boot/vmlinuz".to_string()));
}

#[test]
fn test_parse_fedora_coreos() {
    let config = r#"
title Fedora CoreOS 43.20260105.3.0 (ostree:0)
version 1
options rw $ignition_firstboot mitigations=auto,nosmt ostree=/ostree/boot.1/fedora-coreos/190375fcbb517f7a97c80256eb5ca74122718150b97c5482e15acba1abd77ab2/0 ignition.platform.id=qemu console=tty0 console=ttyS0,115200n8
linux /boot/ostree/fedora-coreos-190375fcbb517f7a97c80256eb5ca74122718150b97c5482e15acba1abd77ab2/vmlinuz-6.17.12-300.fc43.x86_64
initrd /boot/ostree/fedora-coreos-190375fcbb517f7a97c80256eb5ca74122718150b97c5482e15acba1abd77ab2/initramfs-6.17.12-300.fc43.x86_64.img
"#;
    let entry = parse_bls_entry(config);
    assert_eq!(entry.title(), "Fedora CoreOS 43.20260105.3.0 (ostree:0)");
    assert_eq!(entry.version, Some("1".to_string()));
    assert_eq!(
        entry.linux,
        Some("/boot/ostree/fedora-coreos-190375fcbb517f7a97c80256eb5ca74122718150b97c5482e15acba1abd77ab2/vmlinuz-6.17.12-300.fc43.x86_64".to_string())
    );
    assert_eq!(
        entry.initrd,
        Some("/boot/ostree/fedora-coreos-190375fcbb517f7a97c80256eb5ca74122718150b97c5482e15acba1abd77ab2/initramfs-6.17.12-300.fc43.x86_64.img".to_string())
    );
    assert!(
        entry
            .options
            .as_ref()
            .unwrap()
            .contains("ostree=/ostree/boot.1")
    );
    assert!(
        entry
            .options
            .as_ref()
            .unwrap()
            .contains("console=ttyS0,115200n8")
    );
}

#[test]
fn test_parse_multiline_options() {
    let config = r#"
title Test
options root=/dev/sda1 ro quiet splash
linux /vmlinuz
"#;
    let entry = parse_bls_entry(config);
    assert_eq!(
        entry.options,
        Some("root=/dev/sda1 ro quiet splash".to_string())
    );
}

#[test]
fn bls_test_parse_no_initrd() {
    let config = r#"
title Test Entry
linux /boot/vmlinuz
options root=/dev/sda1
"#;
    let entry = parse_bls_entry(config);
    assert_eq!(entry.title(), "Test Entry");
    assert_eq!(entry.linux, Some("/boot/vmlinuz".to_string()));
    assert_eq!(entry.initrd, None);
}

#[test]
fn test_parse_unknown_keys() {
    let config = r#"
title Test Entry
linux /boot/vmlinuz
unknown_key some value
future_key another value
"#;
    let entry = parse_bls_entry(config);
    assert_eq!(entry.title(), "Test Entry");
    assert_eq!(entry.linux, Some("/boot/vmlinuz".to_string()));
    // Unknown keys should be silently ignored
}

#[test]
fn test_parse_with_version() {
    let config = r#"
title Fedora 38
version 6.2.9-300.fc38.x86_64
linux /vmlinuz-6.2.9-300.fc38.x86_64
initrd /initramfs-6.2.9-300.fc38.x86_64.img
options root=UUID=1234-5678 ro
"#;
    let entry = parse_bls_entry(config);
    assert_eq!(entry.title(), "Fedora 38");
    assert_eq!(entry.version, Some("6.2.9-300.fc38.x86_64".to_string()));
}

#[test]
fn test_empty_entry() {
    let config = "";
    let entry = parse_bls_entry(config);
    assert_eq!(entry.title(), "(no title)");
    assert_eq!(entry.version, None);
    assert_eq!(entry.linux, None);
    assert_eq!(entry.initrd, None);
    assert_eq!(entry.options, None);
}

#[test]
fn test_default_title() {
    let entry = BlsEntry::new();
    assert_eq!(entry.title(), "(no title)");
}

#[test]
fn test_unknown_keys_ignored() {
    let config = r#"
title Test Entry
unknown_key some value
another_unknown value
linux /vmlinuz
"#;
    let entry = parse_bls_entry(config);
    assert_eq!(entry.title(), "Test Entry");
    assert_eq!(entry.linux.as_deref(), Some("/vmlinuz"));
}

#[test]
fn test_whitespace_handling() {
    let config = r#"
   title   Test with Spaces
linux	/vmlinuz
options  root=/dev/sda1  ro
"#;
    let entry = parse_bls_entry(config);
    assert_eq!(entry.title(), "Test with Spaces");
    assert_eq!(entry.linux.as_deref(), Some("/vmlinuz"));
    assert_eq!(entry.options.as_deref(), Some("root=/dev/sda1  ro"));
}

#[test]
fn bls_last_value_wins_and_keys_need_whitespace() {
    let entry = parse_bls_entry("title A\ntitle B\nlinux\nlinuxx /x\n");
    assert_eq!(entry.title(), "B");
    assert_eq!(entry.linux, None);
    let entry = parse_bls_entry("  # title C\n\ttitle\tD  \r\n");
    assert_eq!(entry.title(), "D");
}
