use lace_util::peimage::DOS_SIGNATURE;
use lace_util::peimage::DosHeader;
use lace_util::peimage::FileHeader;
use lace_util::peimage::NT_OPTIONAL_HDR64_MAGIC;
use lace_util::peimage::NT_SIGNATURE;
use lace_util::peimage::OptionalHeader64;
use lace_util::peimage::PeError;
use lace_util::peimage::PeRef;
use lace_util::peimage::SCN_CNT_INITIALIZED_DATA;
use lace_util::peimage::SCN_MEM_READ;
use lace_util::peimage::SectionHeader;
use lace_util::peimage::parse_pe;

const E_LFANEW: u32 = 64;
const NT_SIG_OFF: usize = E_LFANEW as usize;
const FILE_HDR_OFF: usize = NT_SIG_OFF + 4;
const OPT_HDR_OFF: usize = FILE_HDR_OFF + 20;
const SECT_HDR_OFF: usize = OPT_HDR_OFF + 112;
/// Offset of `size_of_optional_header` in the file header.
const SIZE_OF_OPTIONAL_HEADER_OFF: usize = 16;
/// Offset of `e_lfanew` in the DOS header.
const E_LFANEW_OFF: usize = 60;
/// Offset of `virtual_address` in a section header.
const VIRTUAL_ADDRESS_OFF: usize = 12;
/// Offset of `pointer_to_relocations` in a section header.
const POINTER_TO_RELOCATIONS_OFF: usize = 24;

fn write_u16(buf: &mut [u8], off: usize, val: u16) {
    buf[off..off + 2].copy_from_slice(&val.to_le_bytes());
}

fn write_u32(buf: &mut [u8], off: usize, val: u32) {
    buf[off..off + 4].copy_from_slice(&val.to_le_bytes());
}

/// Collects what a section iterator yields.
fn collect_raw(pe: &PeRef) -> Vec<Result<(SectionHeader, Vec<u8>), PeError>> {
    let mut it = pe.raw_sections();
    let mut out = Vec::new();
    while let Some(r) = it.next() {
        out.push(r.map(|(h, d)| (h, d.to_vec())));
    }
    out
}

fn collect_virtual(pe: &PeRef) -> Vec<Result<(SectionHeader, Vec<u8>), PeError>> {
    let mut it = pe.virtual_sections();
    let mut out = Vec::new();
    while let Some(r) = it.next() {
        out.push(r.map(|(h, d)| (h, d.to_vec())));
    }
    out
}

fn build_pe(sections: &[([u8; 8], u32, Vec<u8>)]) -> Vec<u8> {
    let file_alignment: u32 = 512;
    let section_alignment: u32 = 4096;
    let num_sections = sections.len() as u16;

    // Size of all headers (DOS + NT + section headers), rounded up to
    // file_alignment.
    let raw_hdr_size = SECT_HDR_OFF + num_sections as usize * 40;
    let size_of_headers = (raw_hdr_size as u32).div_ceil(file_alignment) * file_alignment;

    // Work out where each section's raw data lands in the file and build
    // the section headers.
    let mut section_headers: Vec<SectionHeader> = Vec::new();
    let mut next_raw_offset = size_of_headers;
    for (name, vaddr, raw_data) in sections {
        let size_of_raw_data = raw_data.len() as u32;
        let pointer_to_raw_data = if size_of_raw_data > 0 {
            next_raw_offset
        } else {
            0
        };
        let raw_rounded = size_of_raw_data.div_ceil(file_alignment) * file_alignment;
        next_raw_offset += raw_rounded;

        section_headers.push(SectionHeader {
            name: *name,
            virtual_size: size_of_raw_data,
            virtual_address: *vaddr,
            size_of_raw_data,
            pointer_to_raw_data,
            pointer_to_relocations: 0,
            pointer_to_linenumbers: 0,
            number_of_relocations: 0,
            number_of_linenumbers: 0,
            characteristics: SCN_CNT_INITIALIZED_DATA | SCN_MEM_READ,
        });
    }

    let total_file_size = next_raw_offset as usize;
    let mut buf = vec![0u8; total_file_size];
    let mut bytes = Vec::new();

    // DOS header
    let dos_hdr = DosHeader {
        e_magic: DOS_SIGNATURE,
        e_cblp: 0,
        e_cp: 0,
        e_crlc: 0,
        e_cparhdr: 0,
        e_minalloc: 0,
        e_maxalloc: 0,
        e_ss: 0,
        e_sp: 0,
        e_csum: 0,
        e_ip: 0,
        e_cs: 0,
        e_lfarlc: 0,
        e_ovno: 0,
        e_res: [0; 4],
        e_oemid: 0,
        e_oeminfo: 0,
        e_res2: [0; 10],
        e_lfanew: E_LFANEW,
    };
    dos_hdr.push_bytes(&mut bytes);
    buf[0..64].copy_from_slice(&bytes);

    // NT signature
    buf[NT_SIG_OFF..NT_SIG_OFF + 4].copy_from_slice(&NT_SIGNATURE.to_le_bytes());

    // FileHeader
    let file_hdr = FileHeader {
        machine: 0,
        number_of_sections: num_sections,
        time_date_stamp: 0,
        pointer_to_symbol_table: 0,
        number_of_symbols: 0,
        size_of_optional_header: 112 as u16,
        characteristics: 0,
    };
    let mut bytes = Vec::new();
    file_hdr.push_bytes(&mut bytes);
    buf[FILE_HDR_OFF..FILE_HDR_OFF + 20].copy_from_slice(&bytes);

    // OptionalHeader64
    let size_of_image = section_headers
        .iter()
        .map(|s| s.virtual_address + s.virtual_size)
        .max()
        .unwrap_or(0);
    let size_of_image = size_of_image.div_ceil(section_alignment) * section_alignment;
    let size_of_image = size_of_image.max(size_of_headers);

    let opt_hdr = OptionalHeader64 {
        magic: NT_OPTIONAL_HDR64_MAGIC,
        major_linker_version: 0,
        minor_linker_version: 0,
        size_of_code: 0,
        size_of_initialized_data: 0,
        size_of_uninitialized_data: 0,
        address_of_entry_point: 0,
        base_of_code: 0,
        image_base: 0,
        section_alignment,
        file_alignment,
        major_operating_system_version: 0,
        minor_operating_system_version: 0,
        major_image_version: 0,
        minor_image_version: 0,
        major_subsystem_version: 0,
        minor_subsystem_version: 0,
        win32_version_value: 0,
        size_of_image,
        size_of_headers,
        check_sum: 0,
        subsystem: 0,
        dll_characteristics: 0,
        size_of_stack_reserve: 0,
        size_of_stack_commit: 0,
        size_of_heap_reserve: 0,
        size_of_heap_commit: 0,
        loader_flags: 0,
        number_of_rva_and_sizes: 0,
    };
    let mut bytes = Vec::new();
    opt_hdr.push_bytes(&mut bytes);
    buf[OPT_HDR_OFF..OPT_HDR_OFF + 112].copy_from_slice(&bytes);

    // Section headers
    for (i, shdr) in section_headers.iter().enumerate() {
        let off = SECT_HDR_OFF + i * 40;
        let mut bytes = Vec::new();
        shdr.push_bytes(&mut bytes);
        buf[off..off + 40].copy_from_slice(&bytes);
    }

    // Raw section data
    for (shdr, (_, _, raw_data)) in section_headers.iter().zip(sections.iter()) {
        if !raw_data.is_empty() {
            let off = shdr.pointer_to_raw_data as usize;
            buf[off..off + raw_data.len()].copy_from_slice(raw_data);
        }
    }

    buf
}



#[test]
fn test_parse_pe_truncated_empty() {
    let result = parse_pe(&[]);
    assert!(matches!(result, Err(PeError::Truncated)));
}

#[test]
fn test_parse_pe_bad_dos_magic() {
    // Valid-length buffer but wrong DOS magic
    let buf = vec![0u8; 256];
    let result = parse_pe(&buf);
    assert!(matches!(result, Err(PeError::BadHeader)));
}

#[test]
fn test_parse_pe_bad_nt_signature() {
    // Start from a valid PE, corrupt the NT signature
    let mut buf = build_pe(&[]);
    write_u32(&mut buf, NT_SIG_OFF, 0xDEADBEEF);
    let result = parse_pe(&buf);
    assert!(matches!(result, Err(PeError::BadHeader)));
}

#[test]
fn test_parse_pe_bad_optional_header_magic() {
    // Start from a valid PE, set optional header magic to wrong value
    let mut buf = build_pe(&[]);
    write_u16(&mut buf, OPT_HDR_OFF, 0x010b); // PE32, not PE32+
    let result = parse_pe(&buf);
    assert!(matches!(result, Err(PeError::BadHeader)));
}

#[test]
fn test_parse_pe_optional_header_too_small() {
    // size_of_optional_header smaller than OptionalHeader64
    let mut buf = build_pe(&[]);
    write_u16(
        &mut buf,
        FILE_HDR_OFF + SIZE_OF_OPTIONAL_HEADER_OFF,
        (112 - 1) as u16,
    );
    let result = parse_pe(&buf);
    assert!(matches!(result, Err(PeError::Truncated)));
}

#[test]
fn test_parse_pe_e_lfanew_too_large() {
    // e_lfanew points past the end of the buffer
    let mut buf = build_pe(&[]);
    let past_end = buf.len() as u32 + 1;
    write_u32(&mut buf, E_LFANEW_OFF, past_end);
    let result = parse_pe(&buf);
    assert!(matches!(result, Err(PeError::Truncated)));
}

#[test]
fn test_parse_pe_valid_no_sections() {
    let buf = build_pe(&[]);
    let pe = parse_pe(&buf).expect("should parse valid PE");
    assert_eq!(pe.num_sections(), 0);
}

#[test]
fn test_parse_pe_valid_with_sections() {
    let raw = b"Hello, PE!".to_vec();
    let sections = [(*b".text\0\0\0", 0x1000u32, raw)];
    let buf = build_pe(&sections);
    let pe = parse_pe(&buf).expect("should parse valid PE");
    assert_eq!(pe.num_sections(), 1);
}

#[test]
fn test_parse_pe_preserves_dos_header_fields() {
    let buf = build_pe(&[]);
    let pe = parse_pe(&buf).expect("should parse");
    assert_eq!(pe.dos_hdr.e_magic, DOS_SIGNATURE);
    assert_eq!(pe.dos_hdr.e_lfanew, E_LFANEW);
}

#[test]
fn test_parse_pe_preserves_nt_signature() {
    let buf = build_pe(&[]);
    let pe = parse_pe(&buf).expect("should parse");
    assert_eq!(pe.nt_hdrs.signature, NT_SIGNATURE);
}

#[test]
fn test_section_header_name_null_terminated() {
    let shdr = SectionHeader {
        name: *b".text\0\0\0",
        virtual_size: 0,
        virtual_address: 0,
        size_of_raw_data: 0,
        pointer_to_raw_data: 0,
        pointer_to_relocations: 0,
        pointer_to_linenumbers: 0,
        number_of_relocations: 0,
        number_of_linenumbers: 0,
        characteristics: 0,
    };
    assert_eq!(shdr.name(), &b".text"[..]);
}

#[test]
fn test_section_header_name_full_eight_bytes() {
    // A name that uses all 8 bytes with no null terminator
    let shdr = SectionHeader {
        name: *b".rodata.",
        virtual_size: 0,
        virtual_address: 0,
        size_of_raw_data: 0,
        pointer_to_raw_data: 0,
        pointer_to_relocations: 0,
        pointer_to_linenumbers: 0,
        number_of_relocations: 0,
        number_of_linenumbers: 0,
        characteristics: 0,
    };
    assert_eq!(shdr.name(), &b".rodata."[..]);
}

#[test]
fn test_section_header_name_all_zeros() {
    let shdr = SectionHeader {
        name: [0u8; 8],
        virtual_size: 0,
        virtual_address: 0,
        size_of_raw_data: 0,
        pointer_to_raw_data: 0,
        pointer_to_relocations: 0,
        pointer_to_linenumbers: 0,
        number_of_relocations: 0,
        number_of_linenumbers: 0,
        characteristics: 0,
    };
    assert_eq!(shdr.name(), &b""[..]);
}

#[test]
fn test_nth_section_out_of_bounds_returns_none() {
    let buf = build_pe(&[]);
    let pe = parse_pe(&buf).expect("should parse");
    assert!(pe.nth_section(0).is_none());
}

#[test]
fn test_nth_section_returns_correct_header() {
    let sections = [
        (*b".text\0\0\0", 0x1000u32, vec![0xCCu8; 16]),
        (*b".data\0\0\0", 0x2000u32, vec![0xAAu8; 8]),
    ];
    let buf = build_pe(&sections);
    let pe = parse_pe(&buf).expect("should parse");

    assert_eq!(pe.num_sections(), 2);

    let s0 = pe.nth_section(0).expect("section 0 should exist");
    assert_eq!(s0.name(), &b".text"[..]);
    assert_eq!(s0.virtual_address, 0x1000);

    let s1 = pe.nth_section(1).expect("section 1 should exist");
    assert_eq!(s1.name(), &b".data"[..]);
    assert_eq!(s1.virtual_address, 0x2000);

    assert!(pe.nth_section(2).is_none());
}

#[test]
fn test_raw_sections_no_sections() {
    let buf = build_pe(&[]);
    let pe = parse_pe(&buf).expect("should parse");
    let results = collect_raw(&pe);
    assert!(results.is_empty());
}

#[test]
fn test_raw_sections_correct_data() {
    let raw0 = b"KERNEL__".to_vec();
    let raw1 = b"INITRD__".to_vec();
    let sections = [
        (*b".kern\0\0\0", 0x1000u32, raw0.clone()),
        (*b".init\0\0\0", 0x2000u32, raw1.clone()),
    ];
    let buf = build_pe(&sections);
    let pe = parse_pe(&buf).expect("should parse");

    let results: Vec<_> = collect_raw(&pe).into_iter().map(|r| r.expect("no error")).collect();

    assert_eq!(results.len(), 2);
    assert_eq!(results[0].1, raw0);
    assert_eq!(results[1].1, raw1);
}

#[test]
fn test_virtual_sections_no_sections() {
    let buf = build_pe(&[]);
    let pe = parse_pe(&buf).expect("should parse");
    let results = collect_virtual(&pe);
    assert!(results.is_empty());
}

#[test]
fn test_virtual_sections_correct_data() {
    // virtual_address = 0 points into the PE file at offset 0, where the
    // DOS magic lives.  virtual_sections() must return Ok with the correct
    // bytes.
    let sections = [(*b".text\0\0\0", 0u32, vec![0u8; 8])];
    let buf = build_pe(&sections);
    let pe = parse_pe(&buf).expect("should parse");

    let results: Vec<_> = collect_virtual(&pe).into_iter().map(|r| r.expect("no error")).collect();

    assert_eq!(results.len(), 1);
    assert_eq!(results[0].0.virtual_address, 0);
    // virtual_size == size_of_raw_data == 8, so eight bytes are returned
    assert_eq!(results[0].1.len(), 8);
    // The first two bytes at file offset 0 are the DOS magic (MZ)
    assert_eq!(
        u16::from_le_bytes([results[0].1[0], results[0].1[1]]),
        DOS_SIGNATURE
    );
}

#[test]
fn test_virtual_sections_out_of_bounds_returns_truncated() {
    // virtual_address = 0 is within the buffer; confirm the iterator
    // yields Ok before corruption.
    let sections = [(*b".text\0\0\0", 0u32, vec![0u8; 8])];
    let mut buf = build_pe(&sections);

    {
        let pe = parse_pe(&buf).expect("should parse");
        assert!(
            pe.virtual_sections()
                .next()
                .expect("iterator should yield")
                .is_ok(),
            "section should be in-bounds before corruption"
        );
    }

    // Corrupt virtual_address to place the section past the end of buf.
    let vaddr_off = SECT_HDR_OFF + VIRTUAL_ADDRESS_OFF;
    let buf_len = buf.len() as u32;
    write_u32(&mut buf, vaddr_off, buf_len);

    let pe = parse_pe(&buf).expect("should still parse");
    let result = pe.virtual_sections().next().expect("iterator should yield");
    assert!(matches!(result, Err(PeError::Truncated)));
}

#[test]
fn test_relocate_into_success() {
    let raw = b"PAYLOAD!".to_vec();
    let sections = [(*b".text\0\0\0", 0x1000u32, raw.clone())];
    let buf = build_pe(&sections);
    let pe = parse_pe(&buf).expect("should parse");

    let size_of_image = pe.nt_hdrs.optional_header.size_of_image as usize;
    // Pre-fill with a non-zero sentinel so the zero-fill assertion is
    // meaningful: if relocate_into skips the fill, the test will fail.
    let mut pages = vec![0xAAu8; size_of_image];
    pe.relocate_into(&mut pages)
        .expect("relocate_into should succeed");

    // The section data should appear at virtual_address 0x1000
    assert_eq!(&pages[0x1000..0x1000 + raw.len()], raw.as_slice());

    // Bytes beyond raw data but within the section-aligned region must be
    // zero-filled by relocate_into.  section_alignment is 4096, so the
    // padded region runs from 0x1000 + raw.len() to 0x2000.
    let section_alignment = pe.nt_hdrs.optional_header.section_alignment as usize;
    let virt_end = 0x1000 + section_alignment;
    assert!(pages[0x1000 + raw.len()..virt_end].iter().all(|&b| b == 0));
}

#[test]
fn test_relocate_into_output_too_small() {
    let sections = [(*b".text\0\0\0", 0x1000u32, vec![0u8; 8])];
    let buf = build_pe(&sections);
    let pe = parse_pe(&buf).expect("should parse");

    // Provide a destination that is too small to hold the headers
    let mut pages = vec![0u8; 1];
    let result = pe.relocate_into(&mut pages);
    assert!(matches!(result, Err(PeError::Truncated)));
}

#[test]
fn test_relocate_into_with_relocations_errors() {
    let sections = [(*b".text\0\0\0", 0x1000u32, vec![0u8; 8])];
    let mut buf = build_pe(&sections);
    let pe_check = parse_pe(&buf).expect("should parse initially");
    let size_of_image = pe_check.nt_hdrs.optional_header.size_of_image as usize;

    // Set pointer_to_relocations != 0 in the first section header
    let reloc_off = SECT_HDR_OFF + POINTER_TO_RELOCATIONS_OFF;
    write_u32(&mut buf, reloc_off, 0x400);

    let pe = parse_pe(&buf).expect("should still parse");
    let mut pages = vec![0u8; size_of_image];
    let result = pe.relocate_into(&mut pages);
    assert!(matches!(result, Err(PeError::RelocationsNotYetSupported)));
}
