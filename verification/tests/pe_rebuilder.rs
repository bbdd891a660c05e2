use lace_util::stubble::{stubble_parts, StubbleImage};
use lace_util::pe_rebuilder::write_zeros;
use lace_util::pe_rebuilder::PeRebuildError;
use lace_util::pe_rebuilder::PeRebuilder;
use lace_util::peimage::parse_pe;
use lace_util::peimage::DOS_SIGNATURE;
use lace_util::peimage::DLLCHARACTERISTICS_NX_COMPAT;
use lace_util::peimage::DosHeader;
use lace_util::peimage::FileHeader;
use lace_util::peimage::NT_OPTIONAL_HDR64_MAGIC;
use lace_util::peimage::NT_SIGNATURE;
use lace_util::peimage::OptionalHeader64;
use lace_util::peimage::SCN_CNT_CODE;
use lace_util::peimage::SCN_CNT_INITIALIZED_DATA;
use lace_util::peimage::SCN_MEM_READ;
use lace_util::peimage::SectionHeader;

const E_LFANEW: u32 = 64;
const NT_SIG_OFF: usize = E_LFANEW as usize;
const FILE_HDR_OFF: usize = NT_SIG_OFF + 4;
const OPT_HDR_OFF: usize = FILE_HDR_OFF + 20;
const SECT_HDR_OFF: usize = OPT_HDR_OFF + 112;
/// Offset of `size_of_optional_header` in the file header.
const SIZE_OF_OPTIONAL_HEADER_OFF: usize = 16;
/// Offset of `e_lfanew` in the DOS header.
const E_LFANEW_OFF: usize = 60;
/// Offset of `virtual_address` in a section header.
const VIRTUAL_ADDRESS_OFF: usize = 12;
/// Offset of `pointer_to_relocations` in a section header.
const POINTER_TO_RELOCATIONS_OFF: usize = 24;

fn write_u16(buf: &mut [u8], off: usize, val: u16) {
    buf[off..off + 2].copy_from_slice(&val.to_le_bytes());
}

fn write_u32(buf: &mut [u8], off: usize, val: u32) {
    buf[off..off + 4].copy_from_slice(&val.to_le_bytes());
}

fn build_pe(sections: &[([u8; 8], u32, Vec<u8>)]) -> Vec<u8> {
    let file_alignment: u32 = 512;
    let section_alignment: u32 = 4096;
    let num_sections = sections.len() as u16;

    // Size of all headers (DOS + NT + section headers), rounded up to
    // file_alignment.
    let raw_hdr_size = SECT_HDR_OFF + num_sections as usize * 40;
    let size_of_headers = (raw_hdr_size as u32).div_ceil(file_alignment) * file_alignment;

    // Work out where each section's raw data lands in the file and build
    // the section headers.
    let mut section_headers: Vec<SectionHeader> = Vec::new();
    let mut next_raw_offset = size_of_headers;
    for (name, vaddr, raw_data) in sections {
        let size_of_raw_data = raw_data.len() as u32;
        let pointer_to_raw_data = if size_of_raw_data > 0 {
            next_raw_offset
        } else {
            0
        };
        let raw_rounded = size_of_raw_data.div_ceil(file_alignment) * file_alignment;
        next_raw_offset += raw_rounded;

        section_headers.push(SectionHeader {
            name: *name,
            virtual_size: size_of_raw_data,
            virtual_address: *vaddr,
            size_of_raw_data,
            pointer_to_raw_data,
            pointer_to_relocations: 0,
            pointer_to_linenumbers: 0,
            number_of_relocations: 0,
            number_of_linenumbers: 0,
            characteristics: SCN_CNT_INITIALIZED_DATA | SCN_MEM_READ,
        });
    }

    let total_file_size = next_raw_offset as usize;
    let mut buf = vec![0u8; total_file_size];
    let mut bytes = Vec::new();

    // DOS header
    let dos_hdr = DosHeader {
        e_magic: DOS_SIGNATURE,
        e_cblp: 0,
        e_cp: 0,
        e_crlc: 0,
        e_cparhdr: 0,
        e_minalloc: 0,
        e_maxalloc: 0,
        e_ss: 0,
        e_sp: 0,
        e_csum: 0,
        e_ip: 0,
        e_cs: 0,
        e_lfarlc: 0,
        e_ovno: 0,
        e_res: [0; 4],
        e_oemid: 0,
        e_oeminfo: 0,
        e_res2: [0; 10],
        e_lfanew: E_LFANEW,
    };
    dos_hdr.push_bytes(&mut bytes);
    buf[0..64].copy_from_slice(&bytes);

    // NT signature
    buf[NT_SIG_OFF..NT_SIG_OFF + 4].copy_from_slice(&NT_SIGNATURE.to_le_bytes());

    // FileHeader
    let file_hdr = FileHeader {
        machine: 0,
        number_of_sections: num_sections,
        time_date_stamp: 0,
        pointer_to_symbol_table: 0,
        number_of_symbols: 0,
        size_of_optional_header: 112 as u16,
        characteristics: 0,
    };
    let mut bytes = Vec::new();
    file_hdr.push_bytes(&mut bytes);
    buf[FILE_HDR_OFF..FILE_HDR_OFF + 20].copy_from_slice(&bytes);

    // OptionalHeader64
    let size_of_image = section_headers
        .iter()
        .map(|s| s.virtual_address + s.virtual_size)
        .max()
        .unwrap_or(0);
    let size_of_image = size_of_image.div_ceil(section_alignment) * section_alignment;
    let size_of_image = size_of_image.max(size_of_headers);

    let opt_hdr = OptionalHeader64 {
        magic: NT_OPTIONAL_HDR64_MAGIC,
        major_linker_version: 0,
        minor_linker_version: 0,
        size_of_code: 0,
        size_of_initialized_data: 0,
        size_of_uninitialized_data: 0,
        address_of_entry_point: 0,
        base_of_code: 0,
        image_base: 0,
        section_alignment,
        file_alignment,
        major_operating_system_version: 0,
        minor_operating_system_version: 0,
        major_image_version: 0,
        minor_image_version: 0,
        major_subsystem_version: 0,
        minor_subsystem_version: 0,
        win32_version_value: 0,
        size_of_image,
        size_of_headers,
        check_sum: 0,
        subsystem: 0,
        dll_characteristics: 0,
        size_of_stack_reserve: 0,
        size_of_stack_commit: 0,
        size_of_heap_reserve: 0,
        size_of_heap_commit: 0,
        loader_flags: 0,
        number_of_rva_and_sizes: 0,
    };
    let mut bytes = Vec::new();
    opt_hdr.push_bytes(&mut bytes);
    buf[OPT_HDR_OFF..OPT_HDR_OFF + 112].copy_from_slice(&bytes);

    // Section headers
    for (i, shdr) in section_headers.iter().enumerate() {
        let off = SECT_HDR_OFF + i * 40;
        let mut bytes = Vec::new();
        shdr.push_bytes(&mut bytes);
        buf[off..off + 40].copy_from_slice(&bytes);
    }

    // Raw section data
    for (shdr, (_, _, raw_data)) in section_headers.iter().zip(sections.iter()) {
        if !raw_data.is_empty() {
            let off = shdr.pointer_to_raw_data as usize;
            buf[off..off + raw_data.len()].copy_from_slice(raw_data);
        }
    }

    buf
}


const MAJOR_IMAGE_VERSION_OFF: usize = OPT_HDR_OFF + 44;
const DLL_CHARACTERISTICS_OFF: usize = OPT_HDR_OFF + 70;

fn name(s: &str) -> [u8; 8] {
    let mut n = [0u8; 8];
    n[..s.len()].copy_from_slice(s.as_bytes());
    n
}

fn section_data(img: &[u8]) -> Vec<(String, Vec<u8>)> {
    let pe = parse_pe(img).unwrap();
    let mut it = pe.raw_sections();
    let mut out = Vec::new();
    while let Some(r) = it.next() {
        let (h, d) = r.unwrap();
        let n: Vec<u8> = h.name.iter().copied().take_while(|&b| b != 0).collect();
        out.push((String::from_utf8(n).unwrap(), d.to_vec()));
    }
    out
}

#[test]
fn rebuild_with_added_sections() {
    let stub = build_pe(&[(name(".text"), 0x1000, vec![0x90; 700])]);
    let pe = parse_pe(&stub).unwrap();
    let mut bld = PeRebuilder::from_ref(&pe).unwrap();
    assert_eq!(bld.sections.len(), 1);
    assert_eq!(bld.sections[0].1.len(), 700);

    bld.add_section(".cmdline", b"console=ttyS0".to_vec(), SCN_CNT_INITIALIZED_DATA | SCN_MEM_READ);
    bld.add_section(".a-very-long-name", vec![7; 5000], SCN_CNT_CODE);
    let (h, d) = &bld.sections[1];
    assert_eq!(&h.name, b".cmdline");
    assert_eq!(h.virtual_address, 0x2000); // past .text (0x1000 + 700), aligned
    assert_eq!(h.virtual_size, 13);
    assert_eq!(h.size_of_raw_data, 512);
    assert_eq!(h.pointer_to_raw_data, 0);
    assert_eq!(d, b"console=ttyS0");
    let (h, _) = &bld.sections[2];
    assert_eq!(&h.name, b".a-very-");
    assert_eq!(h.virtual_address, 0x3000);
    assert_eq!(h.size_of_raw_data, 5120);

    bld.fixup_offsets(false).unwrap();
    assert_eq!(bld.nt_hdrs.file_header.number_of_sections, 3);
    assert_eq!(bld.nt_hdrs.optional_header.size_of_headers, 512);
    assert_eq!(bld.sections[0].0.pointer_to_raw_data, 512);
    assert_eq!(bld.sections[1].0.pointer_to_raw_data, 512 + 1024);
    assert_eq!(bld.sections[2].0.pointer_to_raw_data, 512 + 1024 + 512);
    assert_eq!(bld.nt_hdrs.optional_header.size_of_code, 5120);
    assert_eq!(bld.nt_hdrs.optional_header.size_of_initialized_data, 1024 + 512);
    assert_eq!(bld.nt_hdrs.optional_header.size_of_image, 0x3000 + 0x2000);

    let mut out = Vec::new();
    bld.write_pe(&mut out);
    assert_eq!(out.len(), 512 + 1024 + 512 + 5120);
    let secs = section_data(&out);
    assert_eq!(secs.len(), 3);
    assert_eq!(secs[1].0, ".cmdline");
    assert_eq!(&secs[1].1[..13], b"console=ttyS0");
    assert!(secs[1].1[13..].iter().all(|&b| b == 0));
    assert_eq!(&secs[0].1[..700], &vec![0x90; 700][..]);
}

#[test]
fn maximized_header_space() {
    let stub = build_pe(&[(name(".text"), 0x1000, vec![1; 16])]);
    let pe = parse_pe(&stub).unwrap();
    let mut bld = PeRebuilder::from_ref(&pe).unwrap();
    bld.fixup_offsets(true).unwrap();
    assert_eq!(bld.nt_hdrs.optional_header.size_of_headers, 0x1000);
    assert_eq!(bld.sections[0].0.pointer_to_raw_data, 0x1000);
}

#[test]
fn headers_too_large() {
    // A section mapped below the end of the headers.
    let stub = build_pe(&[(name(".text"), 0x100, vec![1; 16])]);
    let pe = parse_pe(&stub).unwrap();
    let mut bld = PeRebuilder::from_ref(&pe).unwrap();
    assert_eq!(bld.fixup_offsets(false), Err(PeRebuildError::HeadersTooLarge));
    assert_eq!(PeRebuildError::HeadersTooLarge.to_string(), "PE headers exceed maximum allowed size");
}

#[test]
fn kernel_properties() {
    let stub = build_pe(&[(name(".text"), 0x1000, vec![1; 16])]);
    let pe = parse_pe(&stub).unwrap();

    let mut old_kernel = build_pe(&[(name(".text"), 0x1000, vec![2; 16])]);
    write_u16(&mut old_kernel, MAJOR_IMAGE_VERSION_OFF, 0);
    let k = parse_pe(&old_kernel).unwrap();
    let mut bld = PeRebuilder::from_ref(&pe).unwrap();
    assert!(!bld.adopt_kernel_properties(&k));
    assert_eq!(bld.nt_hdrs.optional_header.major_image_version, 0);

    let mut kernel = build_pe(&[(name(".text"), 0x1000, vec![2; 16])]);
    write_u16(&mut kernel, MAJOR_IMAGE_VERSION_OFF, 1);
    write_u16(&mut kernel, DLL_CHARACTERISTICS_OFF, DLLCHARACTERISTICS_NX_COMPAT);
    let k = parse_pe(&kernel).unwrap();
    assert!(bld.adopt_kernel_properties(&k));
    assert_eq!(bld.nt_hdrs.optional_header.major_image_version, 1);
    assert_eq!(bld.nt_hdrs.optional_header.dll_characteristics, DLLCHARACTERISTICS_NX_COMPAT);

    write_u16(&mut kernel, DLL_CHARACTERISTICS_OFF, 0);
    let k = parse_pe(&kernel).unwrap();
    assert!(bld.adopt_kernel_properties(&k));
    assert_eq!(bld.nt_hdrs.optional_header.dll_characteristics, 0);
}

#[test]
fn zeros_are_written() {
    let mut out = vec![9u8];
    assert_eq!(write_zeros(&mut out, 5), 5);
    assert_eq!(out, vec![9, 0, 0, 0, 0, 0]);
    assert_eq!(write_zeros(&mut out, 0), 0);
}

#[test]
fn layout_checks_before_rebuilding() {
    let stub = build_pe(&[(name(".text"), 0x1000, vec![0x90; 700])]);
    let pe = parse_pe(&stub).unwrap();
    let mut bld = PeRebuilder::from_ref(&pe).unwrap();
    assert!(bld.can_add_section(13));
    bld.add_section(".cmdline", b"console=ttyS0".to_vec(), SCN_CNT_INITIALIZED_DATA | SCN_MEM_READ);
    // Section offsets are not laid out yet.
    assert!(!bld.can_write_pe(0));
    assert!(bld.can_fixup_offsets(false));
    bld.fixup_offsets(false).unwrap();
    assert!(bld.can_write_pe(0));
    assert!(!bld.can_write_pe(usize::MAX));
    // An alignment of zero leaves nothing to compute.
    bld.nt_hdrs.optional_header.file_alignment = 0;
    assert!(!bld.can_fixup_offsets(false));
    assert!(!bld.can_add_section(1));
}

#[test]
fn written_image_reads_back_as_stubble() {
    let stub = build_pe(&[(name(".text"), 0x1000, vec![0x90; 64])]);
    let pe = parse_pe(&stub).unwrap();
    let mut bld = PeRebuilder::from_ref(&pe).unwrap();
    bld.add_section(".linux", vec![0x4d, 0x5a, 1, 2, 3], SCN_CNT_INITIALIZED_DATA | SCN_MEM_READ);
    bld.add_section(".initrd", vec![7; 600], SCN_CNT_INITIALIZED_DATA | SCN_MEM_READ);
    bld.add_section(".cmdline", b"quiet".to_vec(), SCN_CNT_INITIALIZED_DATA | SCN_MEM_READ);
    bld.fixup_offsets(false).unwrap();
    let mut out = Vec::new();
    bld.write_pe(&mut out);

    let parts = stubble_parts(StubbleImage::Raw(&out), None, None).unwrap();
    let mut kernel = vec![0x4d, 0x5a, 1, 2, 3];
    kernel.resize(512, 0);
    assert_eq!(parts.kernel, &kernel[..]);
    let mut initrd = vec![7; 600];
    initrd.resize(1024, 0);
    assert_eq!(parts.initrd, Some(&initrd[..]));
    assert!(parts.cmdline.unwrap().starts_with("quiet"));
    assert_eq!(parts.cmdline.unwrap().len(), 512);
    assert_eq!(parts.hwids, None);
    assert!(parts.dtbauto.is_empty());
}
