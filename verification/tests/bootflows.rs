use lace_util::bootflows::boot_file_paths;
use lace_util::bootflows::ensure_leading_slash;
use lace_util::bootflows::finish_discovery;
use lace_util::bootflows::menu_line;
use lace_util::bootflows::parse_selection;
use lace_util::bootflows::selection_step;
use lace_util::bootflows::BlsBootFlow;
use lace_util::bootflows::BootEntry;
use lace_util::bootflows::BootToml;
use lace_util::bootflows::DirEntry;
use lace_util::bootflows::GrubBootFlow;
use lace_util::bootflows::Profile;
use lace_util::bootflows::SelectionKey;
use lace_util::bootflows::SpeedbootBootFlow;
use lace_util::bootflows::SpeedbootError;
use lace_util::grub::MenuEntry;

fn s(x: &str) -> String {
    x.to_string()
}

fn entry(title: &str, machine_id: Option<&str>) -> BootEntry {
    BootEntry {
        title: s(title),
        linux: Some(s("/vmlinuz")),
        initrd: None,
        cmdline: None,
        machine_id: machine_id.map(s),
    }
}

fn file(name: &str) -> DirEntry {
    DirEntry { name: s(name), is_dir: false }
}

#[test]
fn leading_slash() {
    assert_eq!(ensure_leading_slash("boot/grub/grub.cfg"), "/boot/grub/grub.cfg");
    assert_eq!(ensure_leading_slash("/already"), "/already");
    assert_eq!(ensure_leading_slash(""), "/");
}

#[test]
fn grub_flattens_submenus() {
    let entries = vec![
        MenuEntry::Entry {
            title: s("Ubuntu"),
            linux: Some(s("/vmlinuz")),
            initrd: Some(s("/initrd.img")),
            cmdline: Some(s("ro quiet")),
        },
        MenuEntry::Submenu {
            title: s("Advanced"),
            entries: vec![
                MenuEntry::Entry { title: s("Ubuntu, 6.8"), linux: Some(s("/vmlinuz-6.8")), initrd: None, cmdline: None },
                MenuEntry::Submenu {
                    title: s("Deeper"),
                    entries: vec![MenuEntry::Entry { title: s("Old"), linux: None, initrd: None, cmdline: None }],
                },
            ],
        },
    ];
    let out = GrubBootFlow::new().build_boot_configurations(&entries);
    let titles: Vec<&str> = out.iter().map(|e| e.title.as_str()).collect();
    assert_eq!(titles, vec!["Ubuntu", "Advanced > Ubuntu, 6.8", "Advanced > Deeper > Old"]);
    assert_eq!(out[0].initrd.as_deref(), Some("/initrd.img"));
    assert_eq!(out[0].cmdline.as_deref(), Some("ro quiet"));
    assert_eq!(out[1].linux.as_deref(), Some("/vmlinuz-6.8"));
    assert_eq!(out[2].linux, None);
    assert!(out.iter().all(|e| e.machine_id.is_none()));
}

#[test]
fn grub_discover_in_configs() {
    let cfg = b"menuentry 'Ubuntu' {\n  linux /vmlinuz root=/dev/sda1\n  initrd /initrd.img\n}\n".to_vec();
    let flow = GrubBootFlow::new();
    let out = flow.discover_in(&[cfg.clone(), vec![0xff, 0xfe], cfg]).unwrap();
    assert_eq!(out.len(), 2);
    assert_eq!(out[0].title, "Ubuntu");
    assert_eq!(out[0].linux.as_deref(), Some("/vmlinuz"));
    assert_eq!(out[0].cmdline.as_deref(), Some("root=/dev/sda1"));
    assert_eq!(out[0].initrd.as_deref(), Some("/initrd.img"));
    assert_eq!(flow.discover_in(&[]), Err(SpeedbootError::NoBootEntriesFound));
    assert_eq!(flow.discover_in(&[b"set timeout=5\n".to_vec()]), Err(SpeedbootError::NoBootEntriesFound));
}

#[test]
fn bls_entry_files() {
    assert!(BlsBootFlow::is_entry_file("fedora.conf"));
    assert!(BlsBootFlow::is_entry_file(".conf"));
    assert!(!BlsBootFlow::is_entry_file("fedora.conf.bak"));
    assert!(!BlsBootFlow::is_entry_file("conf"));
    assert_eq!(BlsBootFlow::entry_path("loader/entries", "a.conf"), "/loader/entries/a.conf");
    let e = BlsBootFlow::entry_from_file(b"title Fedora\nlinux /vmlinuz\noptions ro\n").unwrap();
    assert_eq!(e.title, "Fedora");
    assert_eq!(e.linux.as_deref(), Some("/vmlinuz"));
    assert_eq!(e.cmdline.as_deref(), Some("ro"));
    assert_eq!(e.initrd, None);
    assert_eq!(BlsBootFlow::entry_from_file(&[0xc3, 0x28]), None);
    let flow = BlsBootFlow::new();
    let out = flow.discover_in(&[b"title A\n".to_vec(), vec![0xff], b"title B\n".to_vec()]).unwrap();
    let titles: Vec<&str> = out.iter().map(|e| e.title.as_str()).collect();
    assert_eq!(titles, vec!["A", "B"]);
    assert_eq!(flow.discover_in(&[vec![0xff]]), Err(SpeedbootError::NoBootEntriesFound));
}

fn boot_toml(profiles: Vec<Profile>) -> BootToml {
    BootToml {
        flow: s("classic-1"),
        pretty_name: s("Ubuntu 26.04"),
        machine_id: Some(s("abc123")),
        profiles,
    }
}

#[test]
fn speedboot_menu_shape() {
    let toml = boot_toml(vec![
        Profile { label: Some(s("recovery")), cmdline: Some(s("single")) },
        Profile { label: None, cmdline: Some(s("quiet")) },
        Profile { label: None, cmdline: Some(s("ignored")) },
    ]);
    let listing = vec![
        file("vmlinuz-6.8.0-10-generic"),
        file("initrd.img-6.8.0-10-generic"),
        file("vmlinuz-6.11.0-1-generic"),
        file("vmlinuz-not-a-version"),
        DirEntry { name: s("vmlinuz-7.0.0-1-generic"), is_dir: true },
        file("config-6.8.0-10-generic"),
    ];
    let out = SpeedbootBootFlow::new().entries_for(&toml, "/boot", &listing).unwrap();
    let titles: Vec<&str> = out.iter().map(|e| e.title.as_str()).collect();
    assert_eq!(
        titles,
        vec![
            "Ubuntu 26.04",
            "Ubuntu 26.04 - kernel 6.11.0-1-generic",
            "Ubuntu 26.04 - kernel 6.11.0-1-generic, recovery",
            "Ubuntu 26.04 - kernel 6.8.0-10-generic",
            "Ubuntu 26.04 - kernel 6.8.0-10-generic, recovery",
        ]
    );
    // Head entry: default profile with the newest kernel.
    assert_eq!(out[0].linux.as_deref(), Some("/boot/vmlinuz-6.11.0-1-generic"));
    assert_eq!(out[0].initrd, None);
    assert_eq!(out[0].cmdline.as_deref(), Some("quiet"));
    assert_eq!(out[2].cmdline.as_deref(), Some("single"));
    assert_eq!(out[3].initrd.as_deref(), Some("/boot/initrd.img-6.8.0-10-generic"));
    assert!(out.iter().all(|e| e.machine_id.as_deref() == Some("abc123")));
}

#[test]
fn speedboot_root_dir_and_errors() {
    let toml = boot_toml(vec![Profile { label: None, cmdline: None }]);
    let out = SpeedbootBootFlow::new().entries_for(&toml, "/", &[file("vmlinuz-6.8.0-1-generic")]).unwrap();
    assert_eq!(out.len(), 2);
    assert_eq!(out[0].linux.as_deref(), Some("/vmlinuz-6.8.0-1-generic"));

    // No kernels.
    let flow = SpeedbootBootFlow::new();
    assert_eq!(flow.entries_for(&toml, "/boot", &[file("README")]), Err(SpeedbootError::NoBootEntriesFound));
    // Unsupported flow.
    let mut other = toml.clone();
    other.flow = s("classic-2");
    assert_eq!(
        flow.entries_for(&other, "/boot", &[file("vmlinuz-6.8.0-1-generic")]),
        Err(SpeedbootError::NoBootEntriesFound)
    );
    // No profiles at all: nothing to emit.
    let empty = boot_toml(vec![]);
    assert_eq!(
        flow.entries_for(&empty, "/boot", &[file("vmlinuz-6.8.0-1-generic")]),
        Err(SpeedbootError::NoBootEntriesFound)
    );
}

#[test]
fn boot_file_candidates() {
    assert_eq!(boot_file_paths("vmlinuz"), vec![s("/vmlinuz"), s("/boot/vmlinuz")]);
    assert_eq!(boot_file_paths("/vmlinuz"), vec![s("/vmlinuz"), s("/boot/vmlinuz")]);
    assert_eq!(boot_file_paths("boot/vmlinuz"), vec![s("/boot/vmlinuz")]);
    assert_eq!(boot_file_paths("/boot/vmlinuz"), vec![s("/boot/vmlinuz")]);
}

#[test]
fn primary_os_floats_to_top_stably() {
    let entries = vec![
        entry("a", None),
        entry("b", Some("m1")),
        entry("c", Some("m2")),
        entry("d", Some("m1")),
    ];
    let out = finish_discovery(entries.clone(), Some("m1")).unwrap();
    let titles: Vec<&str> = out.iter().map(|e| e.title.as_str()).collect();
    assert_eq!(titles, vec!["b", "d", "a", "c"]);
    let out = finish_discovery(entries.clone(), None).unwrap();
    assert_eq!(out, entries);
    let out = finish_discovery(entries.clone(), Some("nobody")).unwrap();
    assert_eq!(out, entries);
    assert_eq!(finish_discovery(vec![], Some("m1")), Err(SpeedbootError::NoBootEntriesFound));
}

#[test]
fn selection_keys() {
    let mut typed = Vec::new();
    assert_eq!(selection_step(&mut typed, '1'), SelectionKey::Echo('1'));
    assert_eq!(selection_step(&mut typed, 'x'), SelectionKey::Ignore);
    assert_eq!(selection_step(&mut typed, '2'), SelectionKey::Echo('2'));
    assert_eq!(typed, vec!['1', '2']);
    assert_eq!(selection_step(&mut typed, '\x08'), SelectionKey::Erase);
    assert_eq!(typed, vec!['1']);
    assert_eq!(selection_step(&mut typed, '\r'), SelectionKey::Done);
    assert_eq!(typed, vec!['1']);
    let mut empty = Vec::new();
    assert_eq!(selection_step(&mut empty, '\x08'), SelectionKey::Ignore);
    assert_eq!(selection_step(&mut empty, '\n'), SelectionKey::Done);
}

#[test]
fn selection_parsing() {
    assert_eq!(parse_selection(&['1'], 3), Ok(1));
    assert_eq!(parse_selection(&['0', '2'], 3), Ok(2));
    assert_eq!(parse_selection(&['3'], 3), Err(SpeedbootError::InvalidSelection));
    assert_eq!(parse_selection(&[], 3), Err(SpeedbootError::InvalidSelection));
    let huge: Vec<char> = "99999999999999999999999".chars().collect();
    assert_eq!(parse_selection(&huge, 3), Err(SpeedbootError::InvalidSelection));
}

#[test]
fn menu_lines_and_errors() {
    assert_eq!(menu_line(0, "Ubuntu"), "  [0] Ubuntu");
    assert_eq!(menu_line(12, "x"), "  [12] x");
    assert_eq!(SpeedbootError::NoBootEntriesFound.to_string(), "No boot entries found");
    assert_eq!(SpeedbootError::InvalidSelection.to_string(), "Invalid selection");
    assert_eq!(SpeedbootError::NoKernelPath.to_string(), "No kernel path in menu entry");
    assert_eq!(SpeedbootError::FileNotFound.to_string(), "Boot file not found");
    assert_eq!(SpeedbootError::FileReadError.to_string(), "Failed to read boot file");
    assert_eq!(SpeedbootError::BootError(s("x")).to_string(), "Boot error: x");
    assert_eq!(SpeedbootError::PlatformError(s("y")).to_string(), "Platform error: y");
}
