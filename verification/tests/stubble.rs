use lace_util::peimage::DOS_SIGNATURE;
use lace_util::peimage::DosHeader;
use lace_util::peimage::FileHeader;
use lace_util::peimage::NT_OPTIONAL_HDR64_MAGIC;
use lace_util::peimage::NT_SIGNATURE;
use lace_util::peimage::OptionalHeader64;
use lace_util::peimage::SCN_CNT_INITIALIZED_DATA;
use lace_util::peimage::SCN_MEM_READ;
use lace_util::peimage::SectionHeader;
use lace_util::stubble::select_dtb;
use lace_util::stubble::stubble_parts;
use lace_util::stubble::BootStubbleError;
use lace_util::stubble::InsertOnce;
use lace_util::stubble::StubbleImage;

const E_LFANEW: u32 = 64;
const NT_SIG_OFF: usize = E_LFANEW as usize;
const FILE_HDR_OFF: usize = NT_SIG_OFF + 4;
const OPT_HDR_OFF: usize = FILE_HDR_OFF + 20;
const SECT_HDR_OFF: usize = OPT_HDR_OFF + 112;
/// Offset of `size_of_optional_header` in the file header.
const SIZE_OF_OPTIONAL_HEADER_OFF: usize = 16;
/// Offset of `e_lfanew` in the DOS header.
const E_LFANEW_OFF: usize = 60;
/// Offset of `virtual_address` in a section header.
const VIRTUAL_ADDRESS_OFF: usize = 12;
/// Offset of `pointer_to_relocations` in a section header.
const POINTER_TO_RELOCATIONS_OFF: usize = 24;

fn write_u16(buf: &mut [u8], off: usize, val: u16) {
    buf[off..off + 2].copy_from_slice(&val.to_le_bytes());
}

fn write_u32(buf: &mut [u8], off: usize, val: u32) {
    buf[off..off + 4].copy_from_slice(&val.to_le_bytes());
}

fn build_pe(sections: &[([u8; 8], u32, Vec<u8>)]) -> Vec<u8> {
    let file_alignment: u32 = 512;
    let section_alignment: u32 = 4096;
    let num_sections = sections.len() as u16;

    // Size of all headers (DOS + NT + section headers), rounded up to
    // file_alignment.
    let raw_hdr_size = SECT_HDR_OFF + num_sections as usize * 40;
    let size_of_headers = (raw_hdr_size as u32).div_ceil(file_alignment) * file_alignment;

    // Work out where each section's raw data lands in the file and build
    // the section headers.
    let mut section_headers: Vec<SectionHeader> = Vec::new();
    let mut next_raw_offset = size_of_headers;
    for (name, vaddr, raw_data) in sections {
        let size_of_raw_data = raw_data.len() as u32;
        let pointer_to_raw_data = if size_of_raw_data > 0 {
            next_raw_offset
        } else {
            0
        };
        let raw_rounded = size_of_raw_data.div_ceil(file_alignment) * file_alignment;
        next_raw_offset += raw_rounded;

        section_headers.push(SectionHeader {
            name: *name,
            virtual_size: size_of_raw_data,
            virtual_address: *vaddr,
            size_of_raw_data,
            pointer_to_raw_data,
            pointer_to_relocations: 0,
            pointer_to_linenumbers: 0,
            number_of_relocations: 0,
            number_of_linenumbers: 0,
            characteristics: SCN_CNT_INITIALIZED_DATA | SCN_MEM_READ,
        });
    }

    let total_file_size = next_raw_offset as usize;
    let mut buf = vec![0u8; total_file_size];
    let mut bytes = Vec::new();

    // DOS header
    let dos_hdr = DosHeader {
        e_magic: DOS_SIGNATURE,
        e_cblp: 0,
        e_cp: 0,
        e_crlc: 0,
        e_cparhdr: 0,
        e_minalloc: 0,
        e_maxalloc: 0,
        e_ss: 0,
        e_sp: 0,
        e_csum: 0,
        e_ip: 0,
        e_cs: 0,
        e_lfarlc: 0,
        e_ovno: 0,
        e_res: [0; 4],
        e_oemid: 0,
        e_oeminfo: 0,
        e_res2: [0; 10],
        e_lfanew: E_LFANEW,
    };
    dos_hdr.push_bytes(&mut bytes);
    buf[0..64].copy_from_slice(&bytes);

    // NT signature
    buf[NT_SIG_OFF..NT_SIG_OFF + 4].copy_from_slice(&NT_SIGNATURE.to_le_bytes());

    // FileHeader
    let file_hdr = FileHeader {
        machine: 0,
        number_of_sections: num_sections,
        time_date_stamp: 0,
        pointer_to_symbol_table: 0,
        number_of_symbols: 0,
        size_of_optional_header: 112 as u16,
        characteristics: 0,
    };
    let mut bytes = Vec::new();
    file_hdr.push_bytes(&mut bytes);
    buf[FILE_HDR_OFF..FILE_HDR_OFF + 20].copy_from_slice(&bytes);

    // OptionalHeader64
    let size_of_image = section_headers
        .iter()
        .map(|s| s.virtual_address + s.virtual_size)
        .max()
        .unwrap_or(0);
    let size_of_image = size_of_image.div_ceil(section_alignment) * section_alignment;
    let size_of_image = size_of_image.max(size_of_headers);

    let opt_hdr = OptionalHeader64 {
        magic: NT_OPTIONAL_HDR64_MAGIC,
        major_linker_version: 0,
        minor_linker_version: 0,
        size_of_code: 0,
        size_of_initialized_data: 0,
        size_of_uninitialized_data: 0,
        address_of_entry_point: 0,
        base_of_code: 0,
        image_base: 0,
        section_alignment,
        file_alignment,
        major_operating_system_version: 0,
        minor_operating_system_version: 0,
        major_image_version: 0,
        minor_image_version: 0,
        major_subsystem_version: 0,
        minor_subsystem_version: 0,
        win32_version_value: 0,
        size_of_image,
        size_of_headers,
        check_sum: 0,
        subsystem: 0,
        dll_characteristics: 0,
        size_of_stack_reserve: 0,
        size_of_stack_commit: 0,
        size_of_heap_reserve: 0,
        size_of_heap_commit: 0,
        loader_flags: 0,
        number_of_rva_and_sizes: 0,
    };
    let mut bytes = Vec::new();
    opt_hdr.push_bytes(&mut bytes);
    buf[OPT_HDR_OFF..OPT_HDR_OFF + 112].copy_from_slice(&bytes);

    // Section headers
    for (i, shdr) in section_headers.iter().enumerate() {
        let off = SECT_HDR_OFF + i * 40;
        let mut bytes = Vec::new();
        shdr.push_bytes(&mut bytes);
        buf[off..off + 40].copy_from_slice(&bytes);
    }

    // Raw section data
    for (shdr, (_, _, raw_data)) in section_headers.iter().zip(sections.iter()) {
        if !raw_data.is_empty() {
            let off = shdr.pointer_to_raw_data as usize;
            buf[off..off + raw_data.len()].copy_from_slice(raw_data);
        }
    }

    buf
}

#[test]
fn test_insert_once_success() {
    let mut opt: Option<i32> = None;
    let result = opt.insert_once_or_error(42, "error");
    assert_eq!(result, Ok(()));
    assert_eq!(opt, Some(42));
}

#[test]
fn test_insert_once_duplicate_error() {
    let mut opt: Option<i32> = Some(10);
    let result = opt.insert_once_or_error(42, "duplicate");
    assert_eq!(result, Err("duplicate"));
    assert_eq!(opt, Some(10)); // Original value should be preserved
}

#[test]
fn test_insert_once_with_string() {
    let mut opt: Option<&str> = None;
    let result = opt.insert_once_or_error("hello", "error");
    assert_eq!(result, Ok(()));
    assert_eq!(opt, Some("hello"));
}

#[test]
fn test_insert_once_with_slice() {
    let mut opt: Option<&[u8]> = None;
    let data: &[u8] = &[1, 2, 3];
    let result = opt.insert_once_or_error(data, "error");
    assert_eq!(result, Ok(()));
    assert_eq!(opt, Some(data));
}

fn name(s: &str) -> [u8; 8] {
    let mut n = [0u8; 8];
    n[..s.len()].copy_from_slice(s.as_bytes());
    n
}

#[test]
fn stubble_parts_from_raw_image() {
    let img = build_pe(&[
        (name(".linux"), 0x1000, b"KERNEL".to_vec()),
        (name(".cmdline"), 0x2000, b"console=ttyS0".to_vec()),
        (name(".dtbauto"), 0x3000, b"dtb-one".to_vec()),
        (name(".text"), 0x4000, b"ignored".to_vec()),
        (name(".dtbauto"), 0x5000, b"dtb-two".to_vec()),
    ]);
    let parts = stubble_parts(StubbleImage::Raw(&img), Some(b"EXTRD"), Some("quiet")).unwrap();
    assert_eq!(parts.kernel, b"KERNEL");
    // No .initrd in the image: the external one is used.
    assert_eq!(parts.initrd, Some(&b"EXTRD"[..]));
    // The image's command line wins over the external one.
    assert_eq!(parts.cmdline, Some("console=ttyS0"));
    assert_eq!(parts.hwids, None);
    assert_eq!(parts.dtbauto, vec![&b"dtb-one"[..], &b"dtb-two"[..]]);
}

#[test]
fn stubble_parts_external_cmdline_when_missing() {
    let img = build_pe(&[
        (name(".linux"), 0x1000, b"K".to_vec()),
        (name(".initrd"), 0x2000, b"INITRD".to_vec()),
        (name(".hwids"), 0x3000, b"HW".to_vec()),
    ]);
    let parts = stubble_parts(StubbleImage::Raw(&img), Some(b"EXTRD"), Some("quiet")).unwrap();
    assert_eq!(parts.initrd, Some(&b"INITRD"[..]));
    assert_eq!(parts.cmdline, Some("quiet"));
    assert_eq!(parts.hwids, Some(&b"HW"[..]));
    let parts = stubble_parts(StubbleImage::Raw(&img), None, None).unwrap();
    assert_eq!(parts.cmdline, None);
}

#[test]
fn stubble_parts_errors() {
    let no_kernel = build_pe(&[(name(".initrd"), 0x1000, b"I".to_vec())]);
    assert_eq!(
        stubble_parts(StubbleImage::Raw(&no_kernel), None, None).err(),
        Some(BootStubbleError::NotAStubbleImage)
    );
    let dup = build_pe(&[
        (name(".linux"), 0x1000, b"A".to_vec()),
        (name(".linux"), 0x2000, b"B".to_vec()),
    ]);
    assert_eq!(
        stubble_parts(StubbleImage::Raw(&dup), None, None).err(),
        Some(BootStubbleError::DuplicateSection(".linux"))
    );
    let bad_cmdline = build_pe(&[
        (name(".linux"), 0x1000, b"A".to_vec()),
        (name(".cmdline"), 0x2000, vec![0xff, 0xfe]),
    ]);
    assert_eq!(
        stubble_parts(StubbleImage::Raw(&bad_cmdline), None, None).err(),
        Some(BootStubbleError::InvalidCommandLine)
    );
    let garbage = vec![0u8; 16];
    assert!(matches!(
        stubble_parts(StubbleImage::Raw(&garbage), None, None).err(),
        Some(BootStubbleError::PeError(_))
    ));
}

#[test]
fn stubble_error_text() {
    assert_eq!(BootStubbleError::NotAStubbleImage.to_string(), "Not a Stubble image");
    assert_eq!(
        BootStubbleError::DuplicateSection(".linux").to_string(),
        "Duplicate section in Stubble image: .linux"
    );
    assert_eq!(BootStubbleError::InvalidCommandLine.to_string(), "Invalid command line encoding");
}

/// A flattened device tree whose root node has the given `compatible`.
fn dtb(compatible: &str) -> Vec<u8> {
    let mut structs = Vec::new();
    structs.extend_from_slice(&1u32.to_be_bytes()); // FDT_BEGIN_NODE
    structs.extend_from_slice(&[0, 0, 0, 0]); // root name, padded
    let mut value = compatible.as_bytes().to_vec();
    value.push(0);
    structs.extend_from_slice(&3u32.to_be_bytes()); // FDT_PROP
    structs.extend_from_slice(&(value.len() as u32).to_be_bytes());
    structs.extend_from_slice(&0u32.to_be_bytes()); // name offset
    structs.extend_from_slice(&value);
    while structs.len() % 4 != 0 {
        structs.push(0);
    }
    structs.extend_from_slice(&2u32.to_be_bytes()); // FDT_END_NODE
    structs.extend_from_slice(&9u32.to_be_bytes()); // FDT_END
    let strings = b"compatible\0".to_vec();
    let off_rsv = 40u32;
    let off_struct = off_rsv + 16;
    let off_strings = off_struct + structs.len() as u32;
    let total = off_strings + strings.len() as u32;
    let mut out = Vec::new();
    for v in [0xd00dfeedu32, total, off_struct, off_strings, off_rsv, 17, 16, 0,
              strings.len() as u32, structs.len() as u32] {
        out.extend_from_slice(&v.to_be_bytes());
    }
    out.extend_from_slice(&[0u8; 16]);
    out.extend_from_slice(&structs);
    out.extend_from_slice(&strings);
    out
}

#[test]
fn select_dtb_matches_root_compatible() {
    let a = dtb("acme,board-a");
    let b = dtb("acme,board-b");
    let junk = b"not a tree".to_vec();
    let list: Vec<&[u8]> = vec![&junk, &a, &b];
    assert_eq!(select_dtb(&list, "acme,board-b"), Some(2));
    assert_eq!(select_dtb(&list, "acme,board-a"), Some(1));
    assert_eq!(select_dtb(&list, "acme,board-c"), None);
    // The bytes of a tree are not its compatible string.
    let raw: Vec<&[u8]> = vec![b"acme,board-a"];
    assert_eq!(select_dtb(&raw, "acme,board-a"), None);
}

#[test]
fn select_dtb_skips_trees_it_cannot_walk() {
    // A header pointing its structure block past the data.
    let mut bad = vec![0u8; 40];
    bad[0..4].copy_from_slice(&0xd00dfeedu32.to_be_bytes());
    bad[4..8].copy_from_slice(&40u32.to_be_bytes());
    bad[8..12].copy_from_slice(&1000u32.to_be_bytes());
    bad[36..40].copy_from_slice(&16u32.to_be_bytes());
    assert!(!lace_util::stubble::dtb_root_is_safe(&bad));
    let good = dtb("acme,board-a");
    assert!(lace_util::stubble::dtb_root_is_safe(&good));
    let list: Vec<&[u8]> = vec![&bad, &good];
    assert_eq!(select_dtb(&list, "acme,board-a"), Some(1));
    // A root node that is not the root.
    let mut named = good.clone();
    let name_at = 40 + 16 + 4;
    named[name_at] = b'x';
    assert!(!lace_util::stubble::dtb_root_is_safe(&named));
}
