use lace_util::elf64::Elf64;
use lace_util::elf64::ELF64_HEADER_SIZE;
use lace_util::elf64::ELF64_PHDR_SIZE;
use lace_util::elf64::PT_LOAD;

/// Build a minimal ELF64 binary with the given entry point and segments.
/// Each segment is (p_vaddr, p_paddr, data).
fn build_elf64(entry: u64, segments: &[(u64, u64, &[u8])]) -> Vec<u8> {
    let ehdr_size = ELF64_HEADER_SIZE;
    let phdr_size = ELF64_PHDR_SIZE;
    let phoff = ehdr_size;
    let data_start = ehdr_size + segments.len() * phdr_size;

    let mut buf = vec![0u8; data_start];

    // ELF header
    buf[0..4].copy_from_slice(b"\x7fELF");
    buf[4] = 2; // ELFCLASS64
    buf[5] = 1; // ELFDATA2LSB
    buf[6] = 1; // EV_CURRENT
    buf[16..18].copy_from_slice(&2u16.to_le_bytes()); // ET_EXEC
    buf[18..20].copy_from_slice(&62u16.to_le_bytes()); // EM_X86_64
    buf[20..24].copy_from_slice(&1u32.to_le_bytes());
    buf[24..32].copy_from_slice(&entry.to_le_bytes());
    buf[32..40].copy_from_slice(&(phoff as u64).to_le_bytes());
    buf[52..54].copy_from_slice(&(ehdr_size as u16).to_le_bytes());
    buf[54..56].copy_from_slice(&(phdr_size as u16).to_le_bytes());
    buf[56..58].copy_from_slice(&(segments.len() as u16).to_le_bytes());

    // Program headers and data
    for (i, &(vaddr, paddr, data)) in segments.iter().enumerate() {
        let file_offset = buf.len();
        buf.extend_from_slice(data);

        let phdr_off = phoff + i * phdr_size;
        buf[phdr_off..phdr_off + 4].copy_from_slice(&1u32.to_le_bytes());
        buf[phdr_off + 8..phdr_off + 16].copy_from_slice(&(file_offset as u64).to_le_bytes());
        buf[phdr_off + 16..phdr_off + 24].copy_from_slice(&vaddr.to_le_bytes());
        buf[phdr_off + 24..phdr_off + 32].copy_from_slice(&paddr.to_le_bytes());
        buf[phdr_off + 32..phdr_off + 40].copy_from_slice(&(data.len() as u64).to_le_bytes());
        buf[phdr_off + 40..phdr_off + 48].copy_from_slice(&(data.len() as u64).to_le_bytes());
    }

    buf
}

#[test]
fn test_parse_valid_elf() {
    let elf_data = build_elf64(0x100000, &[(0x100000, 0x100000, b"hello")]);
    let elf = Elf64::parse(&elf_data).unwrap();
    assert_eq!(elf.entry(), 0x100000);
}

#[test]
fn elf64_test_bad_magic() {
    let mut data = build_elf64(0, &[]);
    data[0] = 0; // corrupt magic
    assert!(Elf64::parse(&data).is_err());
}

#[test]
fn test_not_elf64() {
    let mut data = build_elf64(0, &[]);
    data[4] = 1; // ELFCLASS32
    assert_eq!(Elf64::parse(&data).unwrap_err(), "not ELF64");
}

#[test]
fn test_not_little_endian() {
    let mut data = build_elf64(0, &[]);
    data[5] = 2; // ELFDATA2MSB
    assert_eq!(Elf64::parse(&data).unwrap_err(), "not little-endian");
}

#[test]
fn test_program_headers() {
    let seg1 = b"segment one data";
    let seg2 = b"two";
    let elf_data = build_elf64(0x200000, &[(0x100000, 0x100000, seg1), (0x200000, 0x200000, seg2)]);
    let elf = Elf64::parse(&elf_data).unwrap();

    let mut phdrs = Vec::new();
    elf.for_each_phdr(|phdr| {
        phdrs.push(*phdr);
        true
    })
    .unwrap();

    assert_eq!(phdrs.len(), 2);
    assert_eq!(phdrs[0].p_type, PT_LOAD);
    assert_eq!(phdrs[0].p_vaddr, 0x100000);
    assert_eq!(phdrs[0].p_filesz, seg1.len() as u64);
    assert_eq!(phdrs[1].p_vaddr, 0x200000);

    // Check segment data
    let data = elf.segment_data(&phdrs[0]).unwrap();
    assert_eq!(data, seg1);
}

#[test]
fn test_too_small() {
    assert!(Elf64::parse(&[0; 10]).is_err());
}

#[test]
fn elf64_error_messages() {
    assert_eq!(Elf64::parse(&[0; 10]).unwrap_err(), "ELF header too small");
    let mut data = build_elf64(0, &[]);
    data[1] = b'X';
    assert_eq!(Elf64::parse(&data).unwrap_err(), "bad ELF magic");
    let mut data = build_elf64(0, &[]);
    data[54..56].copy_from_slice(&10u16.to_le_bytes());
    assert_eq!(Elf64::parse(&data).unwrap_err(), "phentsize too small");
}

#[test]
fn elf64_phdr_and_segment_errors() {
    let elf_data = build_elf64(0x1000, &[(0x1000, 0x1000, b"abc")]);
    // Claim two program headers where only one fits before the data.
    let mut data = elf_data.clone();
    data[56..58].copy_from_slice(&200u16.to_le_bytes());
    let elf = Elf64::parse(&data).unwrap();
    let mut seen = 0;
    assert!(elf.for_each_phdr(|_| {
        seen += 1;
        true
    })
    .is_err());
    assert!(seen >= 1);

    let elf = Elf64::parse(&elf_data).unwrap();
    let mut first = None;
    elf.for_each_phdr(|p| {
        first = Some(*p);
        false
    })
    .unwrap();
    let mut p = first.unwrap();
    p.p_offset = elf_data.len() as u64;
    p.p_filesz = 1;
    assert_eq!(elf.segment_data(&p).unwrap_err(), "segment data out of bounds");
}
