use lace_util::grub::{parse_grub_cfg, MenuEntry, Token, Tokenizer};

#[test]
fn test_parse_simple_menuentry() {
    let config = r#"
menuentry 'Ubuntu' {
linux /boot/vmlinuz root=/dev/sda1
initrd /boot/initrd.img
}
"#;

    let entries = parse_grub_cfg(config);
    assert_eq!(entries.len(), 1);
    match &entries[0] {
        MenuEntry::Entry {
            title,
            linux,
            initrd,
            cmdline,
        } => {
            assert_eq!(title, "Ubuntu");
            assert_eq!(linux, &Some("/boot/vmlinuz".to_string()));
            assert_eq!(initrd, &Some("/boot/initrd.img".to_string()));
            assert_eq!(cmdline, &Some("root=/dev/sda1".to_string()));
        }
        _ => panic!("Expected Entry variant"),
    }
}

#[test]
fn test_parse_multiple_entries() {
    let config = r#"
menuentry 'Ubuntu' {
linux /boot/vmlinuz-6.8 root=UUID=1234
initrd /boot/initrd.img-6.8
}

menuentry 'Ubuntu (recovery mode)' {
linux /boot/vmlinuz-6.8 root=UUID=1234 single
initrd /boot/initrd.img-6.8
}
"#;

    let entries = parse_grub_cfg(config);
    assert_eq!(entries.len(), 2);
    assert_eq!(entries[0].title(), "Ubuntu");
    assert_eq!(entries[1].title(), "Ubuntu (recovery mode)");
    match &entries[1] {
        MenuEntry::Entry { cmdline, .. } => {
            assert_eq!(cmdline, &Some("root=UUID=1234 single".to_string()));
        }
        _ => panic!("Expected Entry variant"),
    }
}

#[test]
fn test_parse_submenu() {
    let config = r#"
submenu 'Advanced options' {
menuentry 'Ubuntu' {
    linux /boot/vmlinuz
    initrd /boot/initrd.img
}
menuentry 'Ubuntu (recovery)' {
    linux /boot/vmlinuz single
}
}
"#;

    let entries = parse_grub_cfg(config);
    assert_eq!(entries.len(), 1);
    match &entries[0] {
        MenuEntry::Submenu { title, entries } => {
            assert_eq!(title, "Advanced options");
            assert_eq!(entries.len(), 2);
            assert_eq!(entries[0].title(), "Ubuntu");
            assert_eq!(entries[1].title(), "Ubuntu (recovery)");
        }
        _ => panic!("Expected Submenu variant"),
    }
}

#[test]
fn grub_test_parse_no_initrd() {
    let config = r#"
menuentry 'Test' {
linux /vmlinuz
}
"#;

    let entries = parse_grub_cfg(config);
    assert_eq!(entries.len(), 1);
    match &entries[0] {
        MenuEntry::Entry {
            linux,
            initrd,
            cmdline,
            ..
        } => {
            assert_eq!(linux, &Some("/vmlinuz".to_string()));
            assert_eq!(initrd, &None);
            assert_eq!(cmdline, &None);
        }
        _ => panic!("Expected Entry variant"),
    }
}

#[test]
fn test_parse_empty_config() {
    let config = "";
    let entries = parse_grub_cfg(config);
    assert_eq!(entries.len(), 0);
}

#[test]
fn test_parse_nested_braces() {
    let config = r#"
menuentry 'Ubuntu' {
if [ x$feature_all_video_module = xy ]; then
  insmod all_video
fi
linux /boot/vmlinuz root=/dev/sda1
}
"#;

    let entries = parse_grub_cfg(config);
    assert_eq!(entries.len(), 1);
    assert_eq!(entries[0].title(), "Ubuntu");
    match &entries[0] {
        MenuEntry::Entry { linux, .. } => {
            assert_eq!(linux, &Some("/boot/vmlinuz".to_string()));
        }
        _ => panic!("Expected Entry variant"),
    }
}

#[test]
fn test_parse_quoted_strings() {
    let config = r#"
menuentry "Ubuntu '24.04'" {
linux /boot/vmlinuz root="UUID=1234 5678"
}
"#;
    let entries = parse_grub_cfg(config);
    assert_eq!(entries.len(), 1);
    assert_eq!(entries[0].title(), "Ubuntu '24.04'");
    match &entries[0] {
        MenuEntry::Entry { cmdline, .. } => {
            assert_eq!(cmdline, &Some("root=UUID=1234 5678".to_string()));
        }
        _ => panic!("Expected Entry variant"),
    }
}

#[test]
fn test_tokenizer_single_quotes() {
    // Single quotes don't support escapes - they take everything literally
    let config = r"menuentry 'Test with \quotes' {}";
    let entries = parse_grub_cfg(config);
    assert_eq!(entries.len(), 1);
    assert_eq!(entries[0].title(), r"Test with \quotes");
}

#[test]
fn test_tokenizer_double_quotes_with_escapes() {
    let config = r#"menuentry "Test with \"quotes\" and \\backslash" {}"#;
    let entries = parse_grub_cfg(config);
    assert_eq!(entries.len(), 1);
    assert_eq!(entries[0].title(), r#"Test with "quotes" and \backslash"#);
}

#[test]
fn test_tokenizer_comment_handling() {
    let config = r#"
# This is a comment
menuentry 'Ubuntu' { # inline comment
linux /boot/vmlinuz # another comment
# Comment in body
initrd /boot/initrd.img
}
"#;
    let entries = parse_grub_cfg(config);
    assert_eq!(entries.len(), 1);
    match &entries[0] {
        MenuEntry::Entry { linux, initrd, .. } => {
            assert_eq!(linux, &Some("/boot/vmlinuz".to_string()));
            assert_eq!(initrd, &Some("/boot/initrd.img".to_string()));
        }
        _ => panic!("Expected Entry variant"),
    }
}

#[test]
fn test_menuentry_without_open_brace() {
    let config = "menuentry 'Test'";
    let entries = parse_grub_cfg(config);
    assert_eq!(entries.len(), 0);
}

#[test]
fn test_menuentry_without_title() {
    let config = "menuentry { linux /boot/vmlinuz }";
    let entries = parse_grub_cfg(config);
    assert_eq!(entries.len(), 0);
}

#[test]
fn test_submenu_without_open_brace() {
    let config = "submenu 'Test'";
    let entries = parse_grub_cfg(config);
    assert_eq!(entries.len(), 0);
}

#[test]
fn test_submenu_without_title() {
    // When submenu has no title ('{' comes immediately), parse_submenu returns None
    // The parser then continues and finds the menuentry inside at the top level
    let config = "submenu { menuentry 'test' { linux /vmlinuz } }";
    let entries = parse_grub_cfg(config);
    // The submenu is rejected, but the menuentry inside is parsed at top level
    assert_eq!(entries.len(), 1);
    match &entries[0] {
        MenuEntry::Entry { title, linux, .. } => {
            assert_eq!(title, "test");
            assert_eq!(linux, &Some("/vmlinuz".to_string()));
        }
        _ => panic!("Expected Entry variant"),
    }
}

#[test]
fn test_linux_command_without_path() {
    let config = "menuentry 'Test' { linux }";
    let entries = parse_grub_cfg(config);
    assert_eq!(entries.len(), 1);
    match &entries[0] {
        MenuEntry::Entry { linux, .. } => {
            assert_eq!(linux, &None);
        }
        _ => panic!("Expected Entry variant"),
    }
}

#[test]
fn test_initrd_command_without_path() {
    let config = "menuentry 'Test' { initrd }";
    let entries = parse_grub_cfg(config);
    assert_eq!(entries.len(), 1);
    match &entries[0] {
        MenuEntry::Entry { initrd, .. } => {
            assert_eq!(initrd, &None);
        }
        _ => panic!("Expected Entry variant"),
    }
}

#[test]
fn test_nested_submenu() {
    let config = r#"
submenu 'Level 1' {
submenu 'Level 2' {
    menuentry 'Test' {
        linux /vmlinuz
    }
}
}
"#;
    let entries = parse_grub_cfg(config);
    assert_eq!(entries.len(), 1);
    match &entries[0] {
        MenuEntry::Submenu { entries, .. } => {
            assert_eq!(entries.len(), 1);
            match &entries[0] {
                MenuEntry::Submenu { entries, .. } => {
                    assert_eq!(entries.len(), 1);
                    assert_eq!(entries[0].title(), "Test");
                }
                _ => panic!("Expected nested Submenu"),
            }
        }
        _ => panic!("Expected Submenu variant"),
    }
}

#[test]
fn test_menuentry_with_multiple_cmdline_args() {
    let config = r#"
menuentry 'Test' {
linux /vmlinuz arg1 arg2 arg3="value with spaces"
}
"#;
    let entries = parse_grub_cfg(config);
    assert_eq!(entries.len(), 1);
    match &entries[0] {
        MenuEntry::Entry { cmdline, .. } => {
            assert_eq!(
                cmdline,
                &Some("arg1 arg2 arg3=value with spaces".to_string())
            );
        }
        _ => panic!("Expected Entry variant"),
    }
}

#[test]
fn test_deeply_nested_braces() {
    let config = r#"
menuentry 'Test' {
if [ x = y ]; then
    if [ a = b ]; then
        echo "nested"
    fi
fi
linux /vmlinuz
}
"#;
    let entries = parse_grub_cfg(config);
    assert_eq!(entries.len(), 1);
    match &entries[0] {
        MenuEntry::Entry { linux, .. } => {
            assert_eq!(linux, &Some("/vmlinuz".to_string()));
        }
        _ => panic!("Expected Entry variant"),
    }
}

#[test]
fn test_menuentry_only_linux_no_cmdline() {
    let config = "menuentry 'Test' { linux /vmlinuz\n }";
    let entries = parse_grub_cfg(config);
    assert_eq!(entries.len(), 1);
    match &entries[0] {
        MenuEntry::Entry { linux, cmdline, .. } => {
            assert_eq!(linux, &Some("/vmlinuz".to_string()));
            assert_eq!(cmdline, &None);
        }
        _ => panic!("Expected Entry variant"),
    }
}

#[test]
fn test_tokenizer_carriage_return() {
    let config = "menuentry 'Test'\r\n{\r\n    linux /vmlinuz\r\n}";
    let entries = parse_grub_cfg(config);
    assert_eq!(entries.len(), 1);
    match &entries[0] {
        MenuEntry::Entry { linux, .. } => {
            assert_eq!(linux, &Some("/vmlinuz".to_string()));
        }
        _ => panic!("Expected Entry variant"),
    }
}

#[test]
fn test_tokenizer_tab_characters() {
    let config = "menuentry\t'Test'\t{\n\tlinux\t/vmlinuz\n}";
    let entries = parse_grub_cfg(config);
    assert_eq!(entries.len(), 1);
    match &entries[0] {
        MenuEntry::Entry { linux, .. } => {
            assert_eq!(linux, &Some("/vmlinuz".to_string()));
        }
        _ => panic!("Expected Entry variant"),
    }
}

#[test]
fn test_tokenizer_semicolon_separator() {
    let config = "menuentry 'Test' { linux /vmlinuz; initrd /initrd.img; }";
    let entries = parse_grub_cfg(config);
    assert_eq!(entries.len(), 1);
    match &entries[0] {
        MenuEntry::Entry { linux, initrd, .. } => {
            assert_eq!(linux, &Some("/vmlinuz".to_string()));
            assert_eq!(initrd, &Some("/initrd.img".to_string()));
        }
        _ => panic!("Expected Entry variant"),
    }
}

#[test]
fn test_new_entry_constructor() {
    let entry = MenuEntry::new_entry("Test Entry".to_string());
    match entry {
        MenuEntry::Entry {
            title,
            linux,
            initrd,
            cmdline,
        } => {
            assert_eq!(title, "Test Entry");
            assert_eq!(linux, None);
            assert_eq!(initrd, None);
            assert_eq!(cmdline, None);
        }
        _ => panic!("Expected Entry variant"),
    }
}

#[test]
fn test_new_submenu_constructor() {
    let entry = MenuEntry::new_submenu("Test Submenu".to_string());
    match entry {
        MenuEntry::Submenu { title, entries } => {
            assert_eq!(title, "Test Submenu");
            assert_eq!(entries.len(), 0);
        }
        _ => panic!("Expected Submenu variant"),
    }
}

#[test]
fn test_submenu_with_nested_menuentry() {
    let config = r#"
submenu 'Options' {
menuentry 'Entry1' {
    linux /vmlinuz1
}
if [ x = y ]; then
    echo test
fi
menuentry 'Entry2' {
    linux /vmlinuz2
}
}
"#;
    let entries = parse_grub_cfg(config);
    assert_eq!(entries.len(), 1);
    match &entries[0] {
        MenuEntry::Submenu { entries, .. } => {
            assert_eq!(entries.len(), 2);
            assert_eq!(entries[0].title(), "Entry1");
            assert_eq!(entries[1].title(), "Entry2");
        }
        _ => panic!("Expected Submenu variant"),
    }
}

#[test]
fn test_menuentry_with_extra_arguments() {
    let config = "menuentry 'Test' --class ubuntu --class gnu-linux { linux /vmlinuz }";
    let entries = parse_grub_cfg(config);
    assert_eq!(entries.len(), 1);
    match &entries[0] {
        MenuEntry::Entry { title, linux, .. } => {
            assert_eq!(title, "Test");
            assert_eq!(linux, &Some("/vmlinuz".to_string()));
        }
        _ => panic!("Expected Entry variant"),
    }
}

#[test]
fn test_submenu_with_extra_arguments() {
    let config = r#"
submenu 'Test' --id=test {
menuentry 'Entry' { linux /vmlinuz }
}
"#;
    let entries = parse_grub_cfg(config);
    assert_eq!(entries.len(), 1);
    match &entries[0] {
        MenuEntry::Submenu { title, entries } => {
            assert_eq!(title, "Test");
            assert_eq!(entries.len(), 1);
        }
        _ => panic!("Expected Submenu variant"),
    }
}

#[test]
fn grub_tokenizer_tokens() {
    let mut t = Tokenizer::new("menuentry 'a b' {\n linux \"x\\\"y\";}");
    assert_eq!(t.next_token(), Some(Token::Word("menuentry".to_string())));
    assert_eq!(t.next_token(), Some(Token::Word("a b".to_string())));
    assert_eq!(t.next_token(), Some(Token::OpenBrace));
    assert_eq!(t.next_token(), Some(Token::Separator));
    assert_eq!(t.next_token(), Some(Token::Word("linux".to_string())));
    assert_eq!(t.next_token(), Some(Token::Word("x\"y".to_string())));
    assert_eq!(t.next_token(), Some(Token::Separator));
    assert_eq!(t.next_token(), Some(Token::CloseBrace));
    assert_eq!(t.next_token(), None);
}

#[test]
fn grub_unterminated_quote_and_stray_close() {
    let entries = parse_grub_cfg("} menuentry 'x' { linux /k a b }");
    assert_eq!(entries.len(), 1);
    match &entries[0] {
        MenuEntry::Entry { cmdline, .. } => assert_eq!(cmdline, &Some("a b".to_string())),
        _ => panic!("Expected Entry variant"),
    }
    let entries = parse_grub_cfg("menuentry 'unterminated {");
    assert_eq!(entries.len(), 0);
}
