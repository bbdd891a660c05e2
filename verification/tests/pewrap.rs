use lace_util::chid_mapping::ChidMapping;
use lace_util::guid_str;
use lace_util::pe_rebuilder::PeRebuilder;
use lace_util::peimage::parse_pe;
use lace_util::peimage::PeError;
use lace_util::peimage::DOS_SIGNATURE;
use lace_util::peimage::DLLCHARACTERISTICS_NX_COMPAT;
use lace_util::peimage::DosHeader;
use lace_util::peimage::FileHeader;
use lace_util::peimage::NT_OPTIONAL_HDR64_MAGIC;
use lace_util::peimage::NT_SIGNATURE;
use lace_util::peimage::OptionalHeader64;
use lace_util::peimage::SCN_CNT_INITIALIZED_DATA;
use lace_util::peimage::SCN_MEM_READ;
use lace_util::peimage::SectionHeader;
use lace_util::pewrap::add_input_section;
use lace_util::pewrap::DtbError;
use lace_util::pewrap::GenerateChidMappingsError;
use lace_util::pewrap::HwidJson;
use lace_util::pewrap::InputSectionError;
use lace_util::GuidParseError;

const E_LFANEW: u32 = 64;
const NT_SIG_OFF: usize = E_LFANEW as usize;
const FILE_HDR_OFF: usize = NT_SIG_OFF + 4;
const OPT_HDR_OFF: usize = FILE_HDR_OFF + 20;
const SECT_HDR_OFF: usize = OPT_HDR_OFF + 112;
/// Offset of `size_of_optional_header` in the file header.
const SIZE_OF_OPTIONAL_HEADER_OFF: usize = 16;
/// Offset of `e_lfanew` in the DOS header.
const E_LFANEW_OFF: usize = 60;
/// Offset of `virtual_address` in a section header.
const VIRTUAL_ADDRESS_OFF: usize = 12;
/// Offset of `pointer_to_relocations` in a section header.
const POINTER_TO_RELOCATIONS_OFF: usize = 24;

fn write_u16(buf: &mut [u8], off: usize, val: u16) {
    buf[off..off + 2].copy_from_slice(&val.to_le_bytes());
}

fn write_u32(buf: &mut [u8], off: usize, val: u32) {
    buf[off..off + 4].copy_from_slice(&val.to_le_bytes());
}

fn build_pe(sections: &[([u8; 8], u32, Vec<u8>)]) -> Vec<u8> {
    let file_alignment: u32 = 512;
    let section_alignment: u32 = 4096;
    let num_sections = sections.len() as u16;

    // Size of all headers (DOS + NT + section headers), rounded up to
    // file_alignment.
    let raw_hdr_size = SECT_HDR_OFF + num_sections as usize * 40;
    let size_of_headers = (raw_hdr_size as u32).div_ceil(file_alignment) * file_alignment;

    // Work out where each section's raw data lands in the file and build
    // the section headers.
    let mut section_headers: Vec<SectionHeader> = Vec::new();
    let mut next_raw_offset = size_of_headers;
    for (name, vaddr, raw_data) in sections {
        let size_of_raw_data = raw_data.len() as u32;
        let pointer_to_raw_data = if size_of_raw_data > 0 {
            next_raw_offset
        } else {
            0
        };
        let raw_rounded = size_of_raw_data.div_ceil(file_alignment) * file_alignment;
        next_raw_offset += raw_rounded;

        section_headers.push(SectionHeader {
            name: *name,
            virtual_size: size_of_raw_data,
            virtual_address: *vaddr,
            size_of_raw_data,
            pointer_to_raw_data,
            pointer_to_relocations: 0,
            pointer_to_linenumbers: 0,
            number_of_relocations: 0,
            number_of_linenumbers: 0,
            characteristics: SCN_CNT_INITIALIZED_DATA | SCN_MEM_READ,
        });
    }

    let total_file_size = next_raw_offset as usize;
    let mut buf = vec![0u8; total_file_size];
    let mut bytes = Vec::new();

    // DOS header
    let dos_hdr = DosHeader {
        e_magic: DOS_SIGNATURE,
        e_cblp: 0,
        e_cp: 0,
        e_crlc: 0,
        e_cparhdr: 0,
        e_minalloc: 0,
        e_maxalloc: 0,
        e_ss: 0,
        e_sp: 0,
        e_csum: 0,
        e_ip: 0,
        e_cs: 0,
        e_lfarlc: 0,
        e_ovno: 0,
        e_res: [0; 4],
        e_oemid: 0,
        e_oeminfo: 0,
        e_res2: [0; 10],
        e_lfanew: E_LFANEW,
    };
    dos_hdr.push_bytes(&mut bytes);
    buf[0..64].copy_from_slice(&bytes);

    // NT signature
    buf[NT_SIG_OFF..NT_SIG_OFF + 4].copy_from_slice(&NT_SIGNATURE.to_le_bytes());

    // FileHeader
    let file_hdr = FileHeader {
        machine: 0,
        number_of_sections: num_sections,
        time_date_stamp: 0,
        pointer_to_symbol_table: 0,
        number_of_symbols: 0,
        size_of_optional_header: 112 as u16,
        characteristics: 0,
    };
    let mut bytes = Vec::new();
    file_hdr.push_bytes(&mut bytes);
    buf[FILE_HDR_OFF..FILE_HDR_OFF + 20].copy_from_slice(&bytes);

    // OptionalHeader64
    let size_of_image = section_headers
        .iter()
        .map(|s| s.virtual_address + s.virtual_size)
        .max()
        .unwrap_or(0);
    let size_of_image = size_of_image.div_ceil(section_alignment) * section_alignment;
    let size_of_image = size_of_image.max(size_of_headers);

    let opt_hdr = OptionalHeader64 {
        magic: NT_OPTIONAL_HDR64_MAGIC,
        major_linker_version: 0,
        minor_linker_version: 0,
        size_of_code: 0,
        size_of_initialized_data: 0,
        size_of_uninitialized_data: 0,
        address_of_entry_point: 0,
        base_of_code: 0,
        image_base: 0,
        section_alignment,
        file_alignment,
        major_operating_system_version: 0,
        minor_operating_system_version: 0,
        major_image_version: 0,
        minor_image_version: 0,
        major_subsystem_version: 0,
        minor_subsystem_version: 0,
        win32_version_value: 0,
        size_of_image,
        size_of_headers,
        check_sum: 0,
        subsystem: 0,
        dll_characteristics: 0,
        size_of_stack_reserve: 0,
        size_of_stack_commit: 0,
        size_of_heap_reserve: 0,
        size_of_heap_commit: 0,
        loader_flags: 0,
        number_of_rva_and_sizes: 0,
    };
    let mut bytes = Vec::new();
    opt_hdr.push_bytes(&mut bytes);
    buf[OPT_HDR_OFF..OPT_HDR_OFF + 112].copy_from_slice(&bytes);

    // Section headers
    for (i, shdr) in section_headers.iter().enumerate() {
        let off = SECT_HDR_OFF + i * 40;
        let mut bytes = Vec::new();
        shdr.push_bytes(&mut bytes);
        buf[off..off + 40].copy_from_slice(&bytes);
    }

    // Raw section data
    for (shdr, (_, _, raw_data)) in section_headers.iter().zip(sections.iter()) {
        if !raw_data.is_empty() {
            let off = shdr.pointer_to_raw_data as usize;
            buf[off..off + raw_data.len()].copy_from_slice(raw_data);
        }
    }

    buf
}


const MAJOR_IMAGE_VERSION_OFF: usize = OPT_HDR_OFF + 44;
const DLL_CHARACTERISTICS_OFF: usize = OPT_HDR_OFF + 70;

fn name(s: &str) -> [u8; 8] {
    let mut n = [0u8; 8];
    n[..s.len()].copy_from_slice(s.as_bytes());
    n
}

fn section_data(img: &[u8]) -> Vec<(String, Vec<u8>)> {
    let pe = parse_pe(img).unwrap();
    let mut it = pe.raw_sections();
    let mut out = Vec::new();
    while let Some(r) = it.next() {
        let (h, d) = r.unwrap();
        let n: Vec<u8> = h.name.iter().copied().take_while(|&b| b != 0).collect();
        out.push((String::from_utf8(n).unwrap(), d.to_vec()));
    }
    out
}

/// A flattened device tree whose root node has the given `compatible`.
fn dtb(compatible: &str) -> Vec<u8> {
    let mut structs = Vec::new();
    structs.extend_from_slice(&1u32.to_be_bytes()); // FDT_BEGIN_NODE
    structs.extend_from_slice(&[0, 0, 0, 0]); // root name, padded
    let mut value = compatible.as_bytes().to_vec();
    value.push(0);
    structs.extend_from_slice(&3u32.to_be_bytes()); // FDT_PROP
    structs.extend_from_slice(&(value.len() as u32).to_be_bytes());
    structs.extend_from_slice(&0u32.to_be_bytes()); // name offset
    structs.extend_from_slice(&value);
    while structs.len() % 4 != 0 {
        structs.push(0);
    }
    structs.extend_from_slice(&2u32.to_be_bytes()); // FDT_END_NODE
    structs.extend_from_slice(&9u32.to_be_bytes()); // FDT_END
    let strings = b"compatible\0".to_vec();
    let off_rsv = 40u32;
    let off_struct = off_rsv + 16;
    let off_strings = off_struct + structs.len() as u32;
    let total = off_strings + strings.len() as u32;
    let mut out = Vec::new();
    for v in [0xd00dfeedu32, total, off_struct, off_strings, off_rsv, 17, 16, 0,
              strings.len() as u32, structs.len() as u32] {
        out.extend_from_slice(&v.to_be_bytes());
    }
    out.extend_from_slice(&[0u8; 16]);
    out.extend_from_slice(&structs);
    out.extend_from_slice(&strings);
    out
}



fn s(x: &str) -> String {
    x.to_string()
}

const G1: &str = "12345678-1234-5678-9abc-def012345678";
const G2: &str = "ABCDEF01-2345-6789-ABCD-EF0123456789";

fn json(type_: &str, hwids: &[&str]) -> HwidJson {
    HwidJson {
        type_: s(type_),
        name: Some(s("Board")),
        compatible: Some(s("vendor,board")),
        fwid: Some(s("FW1")),
        hwids: hwids.iter().map(|h| s(h)).collect(),
    }
}

#[test]
fn hwids_to_device_tree_mappings() {
    let j = json("devicetree", &[G1, G2]);
    let mut v = Vec::new();
    assert_eq!(j.generate_chid_mappings(&mut v), Ok(()));
    assert_eq!(
        v,
        vec![
            ChidMapping::DeviceTree { chid: guid_str(G1), name: Some("Board"), compatible: Some("vendor,board") },
            ChidMapping::DeviceTree { chid: guid_str(G2), name: Some("Board"), compatible: Some("vendor,board") },
        ]
    );
}

#[test]
fn hwids_to_firmware_mappings() {
    let j = json("uefi-fw", &[G2]);
    let mut v = vec![ChidMapping::UefiFw { chid: guid_str(G1), name: None, fwid: None }];
    assert_eq!(j.generate_chid_mappings(&mut v), Ok(()));
    assert_eq!(v.len(), 2);
    assert_eq!(v[1], ChidMapping::UefiFw { chid: guid_str(G2), name: Some("Board"), fwid: Some("FW1") });
}

#[test]
fn hwid_errors() {
    let mut v = Vec::new();
    let j = json("acpi", &[G1]);
    assert_eq!(j.generate_chid_mappings(&mut v), Err(GenerateChidMappingsError::UnknownType(s("acpi"))));
    assert!(v.is_empty());
    assert_eq!(
        GenerateChidMappingsError::UnknownType(s("acpi")).to_string(),
        "unknown HWID type: acpi"
    );
    // A bad GUID is reported before the type is looked at.
    let j = json("acpi", &["nope"]);
    assert_eq!(
        j.generate_chid_mappings(&mut v),
        Err(GenerateChidMappingsError::GuidParseError(GuidParseError))
    );
    assert_eq!(GenerateChidMappingsError::GuidParseError(GuidParseError).to_string(), "invalid GUID format");
    // Mappings before a bad GUID stay.
    let j = json("devicetree", &[G1, "nope", G2]);
    assert!(j.generate_chid_mappings(&mut v).is_err());
    assert_eq!(v.len(), 1);
    // No HWIDs: nothing to do, whatever the type.
    let j = json("acpi", &[]);
    assert_eq!(j.generate_chid_mappings(&mut v), Ok(()));
    assert_eq!(v.len(), 1);
}

fn stub_builder(stub: &[u8]) -> PeRebuilder<'_> {
    let pe = parse_pe(stub).unwrap();
    PeRebuilder::from_ref(&pe).unwrap()
}

#[test]
fn kernel_input_section() {
    let stub = build_pe(&[(name(".text"), 0x1000, vec![1; 16])]);
    let mut bld = stub_builder(&stub);

    let mut kernel = build_pe(&[(name(".text"), 0x1000, vec![2; 16])]);
    assert_eq!(
        add_input_section(&mut bld, ".linux", kernel.clone()),
        Err(InputSectionError::KernelLacksLoadFile2)
    );
    assert_eq!(bld.sections.len(), 1);

    write_u16(&mut kernel, OPT_HDR_OFF + 44, 1);
    write_u16(&mut kernel, OPT_HDR_OFF + 70, DLLCHARACTERISTICS_NX_COMPAT);
    assert_eq!(add_input_section(&mut bld, ".linux", kernel.clone()), Ok(()));
    assert_eq!(bld.sections.len(), 2);
    assert_eq!(&bld.sections[1].0.name, b".linux\0\0");
    assert_eq!(bld.sections[1].1, kernel);
    assert_eq!(bld.sections[1].0.characteristics, SCN_CNT_INITIALIZED_DATA | SCN_MEM_READ);
    assert_eq!(bld.nt_hdrs.optional_header.major_image_version, 1);
    assert_eq!(bld.nt_hdrs.optional_header.dll_characteristics, DLLCHARACTERISTICS_NX_COMPAT);

    assert_eq!(
        add_input_section(&mut bld, ".linux", vec![0; 10]),
        Err(InputSectionError::InvalidKernel(PeError::Truncated))
    );
    assert_eq!(
        InputSectionError::KernelLacksLoadFile2.to_string(),
        "Linux kernel PE image does not support LoadFile2 initrd"
    );
    assert!(InputSectionError::InvalidKernel(PeError::Truncated)
        .to_string()
        .starts_with("invalid Linux kernel PE image: "));
}

#[test]
fn dtb_input_section() {
    let stub = build_pe(&[(name(".text"), 0x1000, vec![1; 16])]);
    let mut bld = stub_builder(&stub);
    assert_eq!(add_input_section(&mut bld, ".dtbauto", dtb("acme,board")), Ok(()));
    assert_eq!(
        add_input_section(&mut bld, ".dtbauto", b"not a device tree at all, but long enough to hold a header".to_vec()),
        Err(InputSectionError::InvalidDtb(DtbError::BadMagic))
    );
    assert_eq!(
        add_input_section(&mut bld, ".dtbauto", vec![0xd0, 0x0d, 0xfe, 0xed]),
        Err(InputSectionError::InvalidDtb(DtbError::BufferTooSmall))
    );
    let mut cut = dtb("acme,board");
    cut.pop();
    assert_eq!(
        add_input_section(&mut bld, ".dtbauto", cut),
        Err(InputSectionError::InvalidDtb(DtbError::BufferTooSmall))
    );
    assert_eq!(
        InputSectionError::InvalidDtb(DtbError::BadMagic).to_string(),
        "invalid device tree blob: bad FDT magic value"
    );
    // Other sections are taken as they are.
    assert_eq!(add_input_section(&mut bld, ".initrd", b"anything".to_vec()), Ok(()));
    assert_eq!(bld.sections.len(), 3);
    assert_eq!(bld.nt_hdrs.optional_header.major_image_version, 0);
}
