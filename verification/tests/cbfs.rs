use lace_util::cbfs::parse_header;
use lace_util::cbfs::CbfsEntryWalker;
use lace_util::cbfs::CbfsError;
use lace_util::cbfs::CbfsFileHeader;
use lace_util::cbfs::CbfsHeader;
use lace_util::cbfs::CbfsReader;
use lace_util::cbfs::CbfsWriter;
use lace_util::cbfs::CBFS_ARCHITECTURE_X86;
use lace_util::cbfs::CBFS_DEFAULT_ALIGNMENT;
use lace_util::cbfs::CBFS_FILE_MAGIC;
use lace_util::cbfs::CBFS_HEADER_MAGIC;
use lace_util::cbfs::CBFS_HEADER_VERSION2;
use lace_util::cbfs::CBFS_TYPE_DELETED;
use lace_util::cbfs::CBFS_TYPE_NULL;
use lace_util::cbfs::CBFS_TYPE_RAW;

const ROM_SIZE: u32 = 4096;
const ROM_BASE: u32 = 0xFFFF_F000;

fn header_bytes(h: &CbfsHeader) -> Vec<u8> {
    let mut v = Vec::new();
    for x in [h.magic, h.version, h.romsize, h.bootblocksize, h.align, h.offset, h.architecture, h._pad] {
        v.extend_from_slice(&x.to_be_bytes());
    }
    v
}

fn file_header_bytes(h: &CbfsFileHeader) -> Vec<u8> {
    let mut v = h.magic.to_vec();
    for x in [h.len, h.type_, h.attributes_offset, h.offset] {
        v.extend_from_slice(&x.to_be_bytes());
    }
    v
}

fn valid_rom() -> Vec<u8> {
    let mut rom = vec![0xFFu8; ROM_SIZE as usize];
    CbfsWriter::create(&mut rom, ROM_BASE, CBFS_DEFAULT_ALIGNMENT).unwrap();
    rom
}

/// Position of the first entry after the master header.
fn second_entry_pos() -> usize {
    let mh_total = std::mem::size_of::<CbfsFileHeader>() + b"cbfs_master_header\0".len();
    let end = mh_total + std::mem::size_of::<CbfsHeader>();
    let a = CBFS_DEFAULT_ALIGNMENT as usize;
    (end + a - 1) / a * a
}

fn rom_with_header_field(mutate: impl FnOnce(&mut CbfsHeader)) -> Vec<u8> {
    let mut hdr = CbfsHeader {
        magic: CBFS_HEADER_MAGIC,
        version: CBFS_HEADER_VERSION2,
        romsize: ROM_SIZE,
        bootblocksize: 4,
        align: CBFS_DEFAULT_ALIGNMENT,
        offset: 0,
        architecture: CBFS_ARCHITECTURE_X86,
        _pad: 0,
    };
    mutate(&mut hdr);
    let mut rom = vec![0u8; ROM_SIZE as usize];
    rom[..std::mem::size_of::<CbfsHeader>()].copy_from_slice(&header_bytes(&hdr));
    rom[ROM_SIZE as usize - 4..].copy_from_slice(&ROM_BASE.to_le_bytes());
    rom
}

fn corrupt_entry(offset_val: u32, len_val: u32) -> CbfsFileHeader {
    CbfsFileHeader {
        magic: CBFS_FILE_MAGIC,
        len: len_val,
        type_: CBFS_TYPE_RAW,
        attributes_offset: 0,
        offset: offset_val,
    }
}

#[test]
fn test_parse_header_valid() {
    let rom = valid_rom();
    let (hdr, align, offset) = parse_header(&rom, ROM_BASE).unwrap();
    assert_eq!(hdr.magic, CBFS_HEADER_MAGIC);
    assert_eq!(align, CBFS_DEFAULT_ALIGNMENT);
    assert_eq!(offset, 0);
}

#[test]
fn test_parse_header_rejects_invalid() {
    // Empty ROM
    assert!(parse_header(&[], 0).is_err());
    // Pointer below ROM base
    let mut rom = vec![0u8; ROM_SIZE as usize];
    rom[ROM_SIZE as usize - 4..].copy_from_slice(&(ROM_BASE - 1).to_le_bytes());
    assert!(parse_header(&rom, ROM_BASE).is_err());
    // Bad magic (zeros at header offset)
    let rom = rom_with_header_field(|h| h.magic = 0);
    assert!(parse_header(&rom, ROM_BASE).is_err());
    // Bad version
    let rom = rom_with_header_field(|h| h.version = 0xDEAD);
    assert!(parse_header(&rom, ROM_BASE).is_err());
    // Mismatched romsize
    let rom = rom_with_header_field(|h| h.romsize = ROM_SIZE + 1);
    assert!(parse_header(&rom, ROM_BASE).is_err());
    // Non-power-of-two alignment
    let rom = rom_with_header_field(|h| h.align = 3);
    assert!(parse_header(&rom, ROM_BASE).is_err());
    // Offset past ROM
    let rom = rom_with_header_field(|h| h.offset = ROM_SIZE + 1);
    assert!(parse_header(&rom, ROM_BASE).is_err());
}

#[test]
fn test_walker_valid_image() {
    let rom = valid_rom();
    let (_, align, offset) = parse_header(&rom, ROM_BASE).unwrap();
    let mut w = CbfsEntryWalker::new(align, offset);

    let e = w.next(&rom).unwrap().unwrap();
    assert_eq!(e.entry_type, CBFS_TYPE_RAW);
    assert_eq!(
        &rom[e.name_start as usize..(e.name_start + e.name_len) as usize],
        b"cbfs_master_header"
    );

    let e = w.next(&rom).unwrap().unwrap();
    assert_eq!(e.entry_type, CBFS_TYPE_NULL);

    assert!(w.next(&rom).is_none());
}

#[test]
fn test_walker_stops_on_corrupt_entry() {
    let cases: &[(u32, u32)] = &[
        (0, 0),                                                           // offset = 0
        (8, 0),                                                           // offset < header size
        (ROM_SIZE, 0),                                                    // offset past ROM
        (std::mem::size_of::<CbfsFileHeader>() as u32 + 1, ROM_SIZE), // len past ROM
    ];
    let pos = second_entry_pos();
    let fh = std::mem::size_of::<CbfsFileHeader>();

    for &(off, len) in cases {
        let mut rom = valid_rom();
        let entry = corrupt_entry(off, len);
        rom[pos..pos + fh].copy_from_slice(&file_header_bytes(&entry));

        let (_, align, offset) = parse_header(&rom, ROM_BASE).unwrap();
        let mut w = CbfsEntryWalker::new(align, offset);
        w.next(&rom); // master header
        assert!(
            matches!(w.next(&rom), Some(Err(CbfsError::CorruptEntry))),
            "expected CorruptEntry for offset={off}, len={len}"
        );
    }
}

#[test]
fn test_walker_stops_on_missing_nul() {
    let mut rom = valid_rom();
    let pos = second_entry_pos();
    let fh = std::mem::size_of::<CbfsFileHeader>();
    let data_offset = fh + 4;
    let entry = corrupt_entry(data_offset as u32, 0);
    rom[pos..pos + fh].copy_from_slice(&file_header_bytes(&entry));
    rom[pos + fh..pos + data_offset].fill(b'A');

    let (_, align, offset) = parse_header(&rom, ROM_BASE).unwrap();
    let mut w = CbfsEntryWalker::new(align, offset);
    w.next(&rom);
    assert!(matches!(w.next(&rom), Some(Err(CbfsError::CorruptEntry))));
}

fn build_test_rom(files: &[(&[u8], u32, &[u8])]) -> Vec<u8> {
    let mut rom = vec![0xFFu8; ROM_SIZE as usize];
    {
        let mut writer = CbfsWriter::create(&mut rom, ROM_BASE, CBFS_DEFAULT_ALIGNMENT).unwrap();
        for &(name, type_, data) in files {
            writer.add_file(None, name, type_, data).unwrap();
        }
    }
    rom
}

#[test]
fn test_open_and_iterate() {
    let rom = build_test_rom(&[]);
    let cbfs = CbfsReader::open(&rom, ROM_BASE).unwrap();
    let mut files = cbfs.files();
    let mut count = 0;
    while files.next().is_some() {
        count += 1;
    }
    assert_eq!(count, 2); // master header + NULL

    let rom = build_test_rom(&[
        (b"file/one", CBFS_TYPE_RAW, b"first"),
        (b"file/two", CBFS_TYPE_RAW, b"second"),
    ]);
    let cbfs = CbfsReader::open(&rom, ROM_BASE).unwrap();
    let mut names: Vec<&[u8]> = Vec::new();
    let mut files = cbfs.files();
    while let Some(f) = files.next() {
        names.push(f.unwrap().name);
    }
    assert_eq!(
        names,
        &[b"cbfs_master_header".as_ref(), b"file/one", b"file/two", b"",]
    );
}

#[test]
fn reader_test_find_file() {
    let rom = build_test_rom(&[
        (b"null", CBFS_TYPE_NULL, b"x"),
        (b"deleted", CBFS_TYPE_DELETED, b"x"),
        (b"test/hello", CBFS_TYPE_RAW, b"Hello CBFS!"),
    ]);
    let cbfs = CbfsReader::open(&rom, ROM_BASE).unwrap();

    let file = cbfs.find_file(b"test/hello").unwrap().unwrap();
    assert_eq!(file.name, b"test/hello");
    assert_eq!(file.data, b"Hello CBFS!");
    assert_eq!(file.type_, CBFS_TYPE_RAW);

    // Skips NULL/DELETED types and missing names
    assert!(cbfs.find_file(b"null").unwrap().is_none());
    assert!(cbfs.find_file(b"deleted").unwrap().is_none());
    assert!(cbfs.find_file(b"nonexistent").unwrap().is_none());
}

fn new_image() -> Vec<u8> {
    let mut rom = vec![0u8; ROM_SIZE as usize];
    CbfsWriter::create(&mut rom, ROM_BASE, CBFS_DEFAULT_ALIGNMENT).unwrap();
    rom
}

#[test]
fn test_create_roundtrip() {
    let mut rom = new_image();
    {
        let mut w = CbfsWriter::open(&mut rom, ROM_BASE).unwrap();
        w.add_file(None, b"hello", CBFS_TYPE_RAW, b"world").unwrap();
        // Place a file at a specific content offset (leading gap path)
        w.add_file(Some(ROM_SIZE - 128), b"placed", CBFS_TYPE_RAW, b"here").unwrap();
    }

    let reader = CbfsReader::open(&rom, ROM_BASE).unwrap();
    assert_eq!(reader.find_file(b"hello").unwrap().unwrap().data, b"world");
    assert_eq!(reader.find_file(b"placed").unwrap().unwrap().data, b"here");
}

#[test]
fn test_create_rejects_bad_alignment() {
    let mut rom = vec![0u8; ROM_SIZE as usize];
    assert!(matches!(
        CbfsWriter::create(&mut rom, ROM_BASE, 3),
        Err(CbfsError::InvalidAlignment)
    ));
}

#[test]
fn test_create_rejects_alignment_larger_than_rom() {
    let mut rom = vec![0u8; ROM_SIZE as usize];
    assert!(matches!(
        CbfsWriter::create(&mut rom, ROM_BASE, ROM_SIZE * 2),
        Err(CbfsError::InvalidAlignment)
    ));
}

#[test]
fn test_open_and_append() {
    let mut rom = new_image();
    CbfsWriter::open(&mut rom, ROM_BASE)
        .unwrap()
        .add_file(None, b"first", CBFS_TYPE_RAW, b"1")
        .unwrap();
    CbfsWriter::open(&mut rom, ROM_BASE)
        .unwrap()
        .add_file(None, b"second", CBFS_TYPE_RAW, b"2")
        .unwrap();

    let reader = CbfsReader::open(&rom, ROM_BASE).unwrap();
    assert_eq!(reader.find_file(b"first").unwrap().unwrap().data, b"1");
    assert_eq!(reader.find_file(b"second").unwrap().unwrap().data, b"2");
}

#[test]
fn test_delete_file() {
    let mut rom = new_image();
    {
        let mut w = CbfsWriter::open(&mut rom, ROM_BASE).unwrap();
        w.add_file(None, b"keep", CBFS_TYPE_RAW, b"yes").unwrap();
        w.add_file(None, b"remove", CBFS_TYPE_RAW, b"no").unwrap();
    }
    {
        let mut w = CbfsWriter::open(&mut rom, ROM_BASE).unwrap();
        assert_eq!(w.delete_file(b"remove"), Ok(true));
        assert_eq!(w.delete_file(b"nonexistent"), Ok(false));
    }

    let reader = CbfsReader::open(&rom, ROM_BASE).unwrap();
    assert_eq!(reader.find_file(b"keep").unwrap().unwrap().data, b"yes");
    assert!(reader.find_file(b"remove").unwrap().is_none());
}

#[test]
fn test_delete_and_reuse_space() {
    let mut rom = new_image();
    {
        let mut w = CbfsWriter::open(&mut rom, ROM_BASE).unwrap();
        w.add_file(None, b"a", CBFS_TYPE_RAW, b"aaaa").unwrap();
        w.add_file(None, b"b", CBFS_TYPE_RAW, b"bbbb").unwrap();
        w.add_file(None, b"c", CBFS_TYPE_RAW, b"cccc").unwrap();
    }
    {
        let mut w = CbfsWriter::open(&mut rom, ROM_BASE).unwrap();
        assert_eq!(w.delete_file(b"b"), Ok(true));
        w.add_file(None, b"d", CBFS_TYPE_RAW, b"dd").unwrap();
    }

    let reader = CbfsReader::open(&rom, ROM_BASE).unwrap();
    assert_eq!(reader.find_file(b"a").unwrap().unwrap().data, b"aaaa");
    assert!(reader.find_file(b"b").unwrap().is_none());
    assert_eq!(reader.find_file(b"c").unwrap().unwrap().data, b"cccc");
    assert_eq!(reader.find_file(b"d").unwrap().unwrap().data, b"dd");
}

#[test]
fn test_delete_adjacent_merges() {
    let mut rom = new_image();
    let large_data = vec![0x42u8; 256];
    {
        let mut w = CbfsWriter::open(&mut rom, ROM_BASE).unwrap();
        w.add_file(None, b"a", CBFS_TYPE_RAW, b"aa").unwrap();
        w.add_file(None, b"b", CBFS_TYPE_RAW, b"bb").unwrap();
        w.add_file(None, b"c", CBFS_TYPE_RAW, b"cc").unwrap();
    }
    {
        let mut w = CbfsWriter::open(&mut rom, ROM_BASE).unwrap();
        assert_eq!(w.delete_file(b"a"), Ok(true));
        assert_eq!(w.delete_file(b"b"), Ok(true));
        w.add_file(None, b"big", CBFS_TYPE_RAW, &large_data).unwrap();
    }

    let reader = CbfsReader::open(&rom, ROM_BASE).unwrap();
    assert_eq!(reader.find_file(b"big").unwrap().unwrap().data, &large_data[..]);
    assert_eq!(reader.find_file(b"c").unwrap().unwrap().data, b"cc");
}

#[test]
fn test_add_file_rejects_invalid() {
    let mut rom = new_image();
    let mut w = CbfsWriter::open(&mut rom, ROM_BASE).unwrap();
    // NUL in name
    assert!(matches!(
        w.add_file(None, b"bad\0name", CBFS_TYPE_RAW, b"x"),
        Err(CbfsError::NulInName)
    ));
    // Data too large for ROM
    assert!(matches!(
        w.add_file(None, b"huge", CBFS_TYPE_RAW, &vec![0u8; ROM_SIZE as usize]),
        Err(CbfsError::NoSpace)
    ));
    // content_offset too early (no room for header)
    assert!(matches!(
        w.add_file(Some(0), b"bad", CBFS_TYPE_RAW, b"x"),
        Err(CbfsError::NoSpace)
    ));
}

#[test]
fn cbfs_error_messages_are_distinct() {
    assert_eq!(CbfsError::NoSpace.to_string(), CbfsError::NoSpace.to_string());
    assert_ne!(CbfsError::NoSpace.to_string(), CbfsError::CorruptEntry.to_string());
}

#[test]
fn cbfs_added_file_is_found_with_its_type() {
    let mut rom = new_image();
    {
        let mut w = CbfsWriter::open(&mut rom, ROM_BASE).unwrap();
        w.add_file(None, b"blob", 0x20, b"\x01\x02\x03").unwrap();
    }
    let reader = CbfsReader::open(&rom, ROM_BASE).unwrap();
    let f = reader.find_file(b"blob").unwrap().unwrap();
    assert_eq!(f.type_, 0x20);
    assert_eq!(f.data, b"\x01\x02\x03");
}

#[test]
fn cbfs_open_rejects_blank_rom() {
    let mut rom = vec![0u8; ROM_SIZE as usize];
    assert!(CbfsWriter::open(&mut rom, ROM_BASE).is_err());
    assert!(CbfsReader::open(&rom, ROM_BASE).is_err());
}

#[test]
fn cbfs_create_rejects_roms_below_four_bytes() {
    for n in [1usize, 2] {
        let mut rom = vec![0u8; n];
        assert_eq!(
            CbfsWriter::create(&mut rom, 0, 1).err(),
            Some(CbfsError::InvalidRomSize)
        );
    }
}

#[test]
fn cbfs_add_file_without_space_leaves_rom_unchanged() {
    let mut rom = new_image();
    let before = rom.clone();
    {
        let mut w = CbfsWriter::open(&mut rom, ROM_BASE).unwrap();
        assert_eq!(
            w.add_file(None, b"huge", CBFS_TYPE_RAW, &vec![0u8; ROM_SIZE as usize]),
            Err(CbfsError::NoSpace)
        );
    }
    assert_eq!(rom, before);
}

#[test]
fn cbfs_delete_then_add_restores_file() {
    let mut rom = new_image();
    {
        let mut w = CbfsWriter::open(&mut rom, ROM_BASE).unwrap();
        w.add_file(None, b"x", CBFS_TYPE_RAW, b"xyz").unwrap();
    }
    let with_file = rom.clone();
    {
        let mut w = CbfsWriter::open(&mut rom, ROM_BASE).unwrap();
        assert_eq!(w.delete_file(b"x"), Ok(true));
        assert_eq!(w.delete_file(b"x"), Ok(false));
    }
    assert_ne!(rom, with_file);
    {
        let mut w = CbfsWriter::open(&mut rom, ROM_BASE).unwrap();
        w.add_file(None, b"x", CBFS_TYPE_RAW, b"xyz").unwrap();
    }
    let reader = CbfsReader::open(&rom, ROM_BASE).unwrap();
    assert_eq!(reader.find_file(b"x").unwrap().unwrap().data, b"xyz");
}

#[test]
fn cbfs_create_rejects_roms_too_small_for_the_header() {
    for n in [4usize, 8, 16, 32, 64] {
        let mut rom = vec![0u8; n];
        assert_eq!(
            CbfsWriter::create(&mut rom, 0, 4).err(),
            Some(CbfsError::InvalidRomSize)
        );
        assert_eq!(rom, vec![0u8; n]);
    }
}

#[test]
fn cbfs_add_at_offset_keeps_other_files() {
    let mut rom = new_image();
    {
        let mut w = CbfsWriter::open(&mut rom, ROM_BASE).unwrap();
        w.add_file(None, b"first", CBFS_TYPE_RAW, b"one").unwrap();
        w.add_file(Some(ROM_SIZE - 256), b"pinned", 0x20, b"two").unwrap();
        w.add_file(None, b"third", CBFS_TYPE_RAW, b"three").unwrap();
    }
    let reader = CbfsReader::open(&rom, ROM_BASE).unwrap();
    let pinned = reader.find_file(b"pinned").unwrap().unwrap();
    assert_eq!(pinned.offset, ROM_SIZE - 256);
    assert_eq!(pinned.type_, 0x20);
    assert_eq!(pinned.data, b"two");
    assert_eq!(reader.find_file(b"first").unwrap().unwrap().data, b"one");
    assert_eq!(reader.find_file(b"third").unwrap().unwrap().data, b"three");
}

#[test]
fn cbfs_delete_keeps_other_files() {
    let mut rom = new_image();
    {
        let mut w = CbfsWriter::open(&mut rom, ROM_BASE).unwrap();
        w.add_file(None, b"a", CBFS_TYPE_RAW, b"aa").unwrap();
        w.add_file(None, b"b", CBFS_TYPE_RAW, b"bb").unwrap();
        w.add_file(None, b"c", CBFS_TYPE_RAW, b"cc").unwrap();
        assert_eq!(w.delete_file(b"b"), Ok(true));
        assert_eq!(w.delete_file(b"c"), Ok(true));
    }
    let reader = CbfsReader::open(&rom, ROM_BASE).unwrap();
    assert!(reader.find_file(b"b").unwrap().is_none());
    assert!(reader.find_file(b"c").unwrap().is_none());
    assert_eq!(reader.find_file(b"a").unwrap().unwrap().data, b"aa");
    assert!(reader.find_file(b"cbfs_master_header").unwrap().is_some());
}
