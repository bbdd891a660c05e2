use lace_util::cbfs::CbfsReader;
use lace_util::cbfs::CBFS_TYPE_BOOTBLOCK;
use lace_util::cbfs::CBFS_TYPE_DELETED;
use lace_util::cbfs::CBFS_TYPE_NULL;
use lace_util::cbfs::CBFS_TYPE_RAW;
use lace_util::flashedit::create_image;
use lace_util::flashedit::list_files;
use lace_util::flashedit::list_row;
use lace_util::flashedit::parse_file_arg;
use lace_util::flashedit::parse_size;

fn s(x: &str) -> String {
    x.to_string()
}

#[test]
fn sizes() {
    assert_eq!(parse_size("65536"), Ok(65536));
    assert_eq!(parse_size("64K"), Ok(65536));
    assert_eq!(parse_size(" 1M "), Ok(1048576));
    assert_eq!(parse_size("64 K"), Ok(65536));
    assert_eq!(parse_size("2G"), Ok(2147483648));
    assert_eq!(parse_size("+8"), Ok(8));
    assert_eq!(parse_size("4"), Ok(4));
    assert_eq!(parse_size("3"), Err(s("Invalid size 3")));
    assert_eq!(parse_size("4G"), Err(s("Invalid size 4")));
    assert_eq!(parse_size("abc"), Err(s("Invalid size abc")));
    assert_eq!(parse_size(" 12k "), Err(s("Invalid size 12k")));
    assert_eq!(parse_size(""), Err(s("Invalid size ")));
}

#[test]
fn file_args() {
    assert_eq!(parse_file_arg("fw=path/to/fw.elf"), Ok((s("fw"), s("path/to/fw.elf"))));
    assert_eq!(parse_file_arg("a=b=c"), Ok((s("a"), s("b=c"))));
    assert_eq!(parse_file_arg("a="), Ok((s("a"), s(""))));
    assert_eq!(parse_file_arg("noeq"), Err(s("expected name=path")));
    assert_eq!(parse_file_arg("=path"), Err(s("file name must not be empty")));
    assert_eq!(
        parse_file_arg("a\0b=path"),
        Err(s("file name 'a\\0b' contains NUL; CBFS names are NUL-terminated on flash"))
    );
}

#[test]
fn create_and_list() {
    let bootblock: Vec<u8> = (0..64u8).collect();
    let files = vec![(s("hello"), b"world".to_vec()), (s("fw/blob"), vec![0xAA; 100])];
    let rom = create_image(4096, &bootblock, &files).unwrap();
    assert_eq!(rom.len(), 4096);

    let base = 0u32.wrapping_sub(4096);
    let reader = CbfsReader::open(&rom, base).unwrap();
    assert_eq!(reader.find_file(b"hello").unwrap().unwrap().data, b"world");
    assert_eq!(reader.find_file(b"fw/blob").unwrap().unwrap().data, &vec![0xAA; 100][..]);
    let bb = reader.find_file(b"bootblock").unwrap().unwrap();
    assert_eq!(bb.type_, CBFS_TYPE_BOOTBLOCK);
    assert_eq!(bb.data, &bootblock[..60]);
    assert_eq!(bb.offset, 4096 - 64);

    let (lines, outcome) = list_files(&rom);
    assert_eq!(outcome, Ok(()));
    assert_eq!(lines[0], format!("{:40} {:>10} {:>10} {:>10}", "Name", "Data Offset", "Size", "Type"));
    assert_eq!(lines[1], "-".repeat(74));
    assert!(lines[2].starts_with("cbfs_master_header "));
    assert_eq!(lines[3], format!("{:40} {:#010x} {:>10} {:>10}", "hello", reader.find_file(b"hello").unwrap().unwrap().offset, 5, "raw"));
    assert!(lines.iter().any(|l| l.starts_with("bootblock ") && l.ends_with(" bootblock")));
    assert!(lines.iter().any(|l| l.ends_with("(empty)")));
}

#[test]
fn create_errors() {
    let files: Vec<(String, Vec<u8>)> = Vec::new();
    assert_eq!(
        create_image(4096, &vec![0; 5000], &files),
        Err(s("bootblock (5000 bytes) exceeds ROM size (4096 bytes)"))
    );
    assert_eq!(create_image(4096, &[1, 2, 3], &files), Err(s("bootblock must be at least 4 bytes")));
    let e = create_image(32, &[1, 2, 3, 4], &files).unwrap_err();
    assert!(e.starts_with("failed to create CBFS image: "), "{e}");
    let big = vec![(s("big"), vec![0u8; 8192])];
    let e = create_image(4096, &[0; 64], &big).unwrap_err();
    assert!(e.starts_with("failed to add file 'big': "), "{e}");
    let e = create_image(4096, &[0; 4000], &files).unwrap_err();
    assert!(e.starts_with("failed to add bootblock: "), "{e}");
}

#[test]
fn list_rows() {
    assert_eq!(
        list_row(b"hello", 0x1234, 5, CBFS_TYPE_RAW),
        format!("{:40} {:#010x} {:>10} {:>10}", "hello", 0x1234, 5, "raw")
    );
    assert_eq!(
        list_row(&[0xff, 0xfe], 0, 0, CBFS_TYPE_NULL),
        format!("{:40} {:#010x} {:>10} {:>10}", "???", 0, 0, "(empty)")
    );
    assert!(list_row(b"x", 0, 0, CBFS_TYPE_DELETED).ends_with("   deleted"));
    assert!(list_row(b"x", 0, 0, 0x77).ends_with("   unknown"));
    let long = "n".repeat(50);
    assert!(list_row(long.as_bytes(), 0, 0, CBFS_TYPE_RAW).starts_with(&format!("{long} 0x")));
}

#[test]
fn list_errors() {
    let (lines, outcome) = list_files(&[0, 0]);
    assert!(lines.is_empty());
    assert_eq!(outcome, Err(s("ROM size (2) is not a valid CBFS image size")));
    let (lines, outcome) = list_files(&vec![0u8; 4096]);
    assert!(lines.is_empty());
    assert!(outcome.unwrap_err().starts_with("failed to open CBFS image: "));
}
