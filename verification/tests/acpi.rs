use lace_util::acpi::fadt::{Facs, Fadt};
use lace_util::acpi::fadt::{parse_fadt_facs_addr, FADT_SIZE};
use lace_util::acpi::mcfg::parse_mcfg;
use lace_util::acpi::{acpi_checksum, Rsdp};

/// Size of an ACPI system description table header.
const SDT_HEADER_SIZE: usize = 36;

/// Offset of `X_FIRMWARE_CTRL` in the FADT.
const X_FIRMWARE_CTRL_OFFSET: usize = 132;

fn fix_checksum(data: &mut [u8], checksum_index: usize, length: usize) {
    data[checksum_index] = 0;
    let sum = acpi_checksum(&data[..length]);
    data[checksum_index] = 0u8.wrapping_sub(sum);
}

/// An MCFG table with one allocation.
fn build_mcfg(base_address: u64, segment_group: u16, start_bus: u8, end_bus: u8) -> Vec<u8> {
    let entries_offset = SDT_HEADER_SIZE + 8;
    let total = entries_offset + 16;
    let mut buf = vec![0u8; total];
    buf[0..4].copy_from_slice(b"MCFG");
    buf[4..8].copy_from_slice(&(total as u32).to_le_bytes());
    let entry_bytes = &mut buf[entries_offset..total];
    entry_bytes[0..8].copy_from_slice(&base_address.to_le_bytes());
    entry_bytes[8..10].copy_from_slice(&segment_group.to_le_bytes());
    entry_bytes[10] = start_bus;
    entry_bytes[11] = end_bus;
    buf
}


#[test]
fn test_parse_rsdp_v1() {
    let mut data = [0u8; 20];
    data[0..8].copy_from_slice(b"RSD PTR ");
    data[15] = 0; // revision 0
    data[16..20].copy_from_slice(&0x12345678u32.to_le_bytes());
    fix_checksum(&mut data, 8, 20);

    let rsdp = Rsdp::parse(&data).unwrap();
    assert_eq!(rsdp.revision, 0);
    assert_eq!(rsdp.rsdt_address, 0x12345678);
    assert_eq!(rsdp.xsdt_address, 0);
}

#[test]
fn test_parse_rsdp_v2() {
    let mut data = [0u8; 36];
    data[0..8].copy_from_slice(b"RSD PTR ");
    data[15] = 2; // revision 2
    data[16..20].copy_from_slice(&0xAABBCCDDu32.to_le_bytes());
    data[20..24].copy_from_slice(&36u32.to_le_bytes());
    data[24..32].copy_from_slice(&0xDEADBEEF_CAFEBABEu64.to_le_bytes());
    fix_checksum(&mut data, 8, 20);
    fix_checksum(&mut data, 32, 36);

    let rsdp = Rsdp::parse(&data).unwrap();
    assert_eq!(rsdp.revision, 2);
    assert_eq!(rsdp.rsdt_address, 0xAABBCCDD);
    assert_eq!(rsdp.xsdt_address, 0xDEADBEEF_CAFEBABE);
}

#[test]
fn test_parse_rsdp_bad_signature() {
    let mut data = [0u8; 20];
    data[0..8].copy_from_slice(b"NOT RSDP");
    assert!(Rsdp::parse(&data).is_none());
}

#[test]
fn test_parse_rsdp_too_small() {
    assert!(Rsdp::parse(&[0u8; 10]).is_none());
}

#[test]
fn test_parse_rsdp_bad_checksum_v1() {
    let mut data = [0u8; 20];
    data[0..8].copy_from_slice(b"RSD PTR ");
    data[15] = 0;
    data[16..20].copy_from_slice(&0x12345678u32.to_le_bytes());
    // Deliberately do not fix the checksum byte.
    assert!(Rsdp::parse(&data).is_none());
}

#[test]
fn test_parse_rsdp_bad_checksum_v2() {
    let mut data = [0u8; 36];
    data[0..8].copy_from_slice(b"RSD PTR ");
    data[15] = 2;
    data[20..24].copy_from_slice(&36u32.to_le_bytes());
    fix_checksum(&mut data, 8, 20);
    // Leave the extended checksum wrong.
    assert!(Rsdp::parse(&data).is_none());
}

#[test]
fn test_find_table_xsdt() {
    let sdt_hdr_size = SDT_HEADER_SIZE;

    // Place the XSDT at a non-zero offset so the revision>=2 &&
    // xsdt_address!=0 branch is taken (rather than falling back to RSDT).
    let xsdt_base = 0x100usize;
    let xsdt_entries = 2;
    let xsdt_len = sdt_hdr_size + xsdt_entries * 8;
    let facp_off = xsdt_base + xsdt_len;
    let mcfg_off = facp_off + sdt_hdr_size;
    let total = mcfg_off + sdt_hdr_size;

    let mut buf = vec![0u8; total];

    // XSDT header
    buf[xsdt_base..xsdt_base + 4].copy_from_slice(b"XSDT");
    buf[xsdt_base + 4..xsdt_base + 8].copy_from_slice(&(xsdt_len as u32).to_le_bytes());

    // FACP and MCFG table headers
    buf[facp_off..facp_off + 4].copy_from_slice(b"FACP");
    buf[mcfg_off..mcfg_off + 4].copy_from_slice(b"MCFG");

    // 8-byte XSDT entries
    let e0 = xsdt_base + sdt_hdr_size;
    buf[e0..e0 + 8].copy_from_slice(&(facp_off as u64).to_le_bytes());
    buf[e0 + 8..e0 + 16].copy_from_slice(&(mcfg_off as u64).to_le_bytes());

    let rsdp = Rsdp {
        revision: 2,
        rsdt_address: 0,
        xsdt_address: xsdt_base as u64,
    };

    // deref treats addresses as offsets into buf
    let deref = |addr: u64, len: usize| &buf[addr as usize..addr as usize + len];

    assert_eq!(rsdp.find_table(b"MCFG", &deref), Some(mcfg_off as u64));
    assert_eq!(rsdp.find_table(b"FACP", &deref), Some(facp_off as u64));
    assert_eq!(rsdp.find_table(b"HPET", &deref), None);
}

#[test]
fn test_find_table_rsdt() {
    let sdt_hdr_size = SDT_HEADER_SIZE;

    // Build RSDT with 2 entries (32-bit pointers)
    let rsdt_entries = 2;
    let rsdt_len = sdt_hdr_size + rsdt_entries * 4;
    let facp_off = rsdt_len;
    let apic_off = facp_off + sdt_hdr_size;
    let total = apic_off + sdt_hdr_size;

    let mut buf = vec![0u8; total];

    buf[0..4].copy_from_slice(b"RSDT");
    buf[4..8].copy_from_slice(&(rsdt_len as u32).to_le_bytes());

    buf[facp_off..facp_off + 4].copy_from_slice(b"FACP");
    buf[apic_off..apic_off + 4].copy_from_slice(b"APIC");

    buf[sdt_hdr_size..sdt_hdr_size + 4].copy_from_slice(&(facp_off as u32).to_le_bytes());
    buf[sdt_hdr_size + 4..sdt_hdr_size + 8].copy_from_slice(&(apic_off as u32).to_le_bytes());

    let rsdp = Rsdp {
        revision: 0,
        rsdt_address: 0,
        xsdt_address: 0,
    };

    let deref = |addr: u64, len: usize| &buf[addr as usize..addr as usize + len];

    assert_eq!(rsdp.find_table(b"APIC", &deref), Some(apic_off as u64));
    assert_eq!(rsdp.find_table(b"FACP", &deref), Some(facp_off as u64));
    assert_eq!(rsdp.find_table(b"MCFG", &deref), None);
}



#[test]
fn test_parse_fadt_facs_addr_32bit() {
    let mut data = [0u8; FADT_SIZE];
    data[0..4].copy_from_slice(b"FACP");
    data[4..8].copy_from_slice(&(FADT_SIZE as u32).to_le_bytes());
    // firmware_ctrl at offset 36
    let facs_addr: u32 = 0xDEAD_0000;
    data[36..40].copy_from_slice(&facs_addr.to_le_bytes());

    assert_eq!(parse_fadt_facs_addr(&data), Some(0xDEAD_0000));
}

#[test]
fn test_parse_fadt_facs_addr_64bit() {
    let mut data = [0u8; FADT_SIZE];
    data[0..4].copy_from_slice(b"FACP");
    data[4..8].copy_from_slice(&(FADT_SIZE as u32).to_le_bytes());
    // firmware_ctrl (32-bit) at offset 36
    data[36..40].copy_from_slice(&0x1234_0000u32.to_le_bytes());
    // x_firmware_ctrl (64-bit)
    let x_offset = X_FIRMWARE_CTRL_OFFSET;
    data[x_offset..x_offset + 8].copy_from_slice(&0xCAFE_BABE_0000u64.to_le_bytes());

    // Should prefer x_firmware_ctrl
    assert_eq!(parse_fadt_facs_addr(&data), Some(0xCAFE_BABE_0000));
}

#[test]
fn test_parse_fadt_bad_signature() {
    let mut data = [0u8; FADT_SIZE];
    data[0..4].copy_from_slice(b"XXXX");
    assert_eq!(parse_fadt_facs_addr(&data), None);
}

#[test]
fn test_parse_fadt_zero_facs() {
    let mut data = [0u8; FADT_SIZE];
    data[0..4].copy_from_slice(b"FACP");
    data[4..8].copy_from_slice(&(FADT_SIZE as u32).to_le_bytes());
    assert_eq!(parse_fadt_facs_addr(&data), None);
}



#[test]
fn test_parse_mcfg_valid() {
    let buf = build_mcfg(0xE000_0000, 0, 0, 0xFF);
    let parsed = parse_mcfg(&buf).unwrap();
    assert_eq!(parsed.base_address, 0xE000_0000);
    assert_eq!(parsed.segment_group, 0);
    assert_eq!(parsed.start_bus, 0);
    assert_eq!(parsed.end_bus, 0xFF);
}

#[test]
fn test_parse_mcfg_bad_signature() {
    let mut buf = build_mcfg(0, 0, 0, 0);
    buf[0..4].copy_from_slice(b"FACP");
    assert!(parse_mcfg(&buf).is_none());
}

#[test]
fn test_parse_mcfg_truncated() {
    let buf = build_mcfg(0, 0, 0, 0);
    // Drop the last byte of the entry — length field still claims full size.
    assert!(parse_mcfg(&buf[..buf.len() - 1]).is_none());
}

#[test]
fn test_parse_mcfg_no_entries() {
    let sdt_hdr_size = SDT_HEADER_SIZE;
    let total = sdt_hdr_size + 8; // header + reserved, no entries
    let mut buf = vec![0u8; total];
    buf[0..4].copy_from_slice(b"MCFG");
    buf[4..8].copy_from_slice(&(total as u32).to_le_bytes());
    assert!(parse_mcfg(&buf).is_none());
}

#[test]
fn acpi_checksum_wraps() {
    assert_eq!(acpi_checksum(&[]), 0);
    assert_eq!(acpi_checksum(&[0xff, 0x02]), 1);
    assert_eq!(acpi_checksum(&[0x80; 4]), 0);
}

#[test]
fn rsdp_v2_with_zero_xsdt_keeps_revision() {
    let mut data = [0u8; 36];
    data[0..8].copy_from_slice(b"RSD PTR ");
    data[15] = 2;
    data[16..20].copy_from_slice(&7u32.to_le_bytes());
    data[20..24].copy_from_slice(&36u32.to_le_bytes());
    fix_checksum(&mut data, 8, 20);
    fix_checksum(&mut data, 32, 36);
    let rsdp = Rsdp::parse(&data).unwrap();
    assert_eq!(rsdp.revision, 2);
    assert_eq!(rsdp.rsdt_address, 7);
    assert_eq!(rsdp.xsdt_address, 0);
}

#[test]
fn fadt_and_facs_decode_their_fields() {
    let mut d = vec![0u8; 244];
    d[0..4].copy_from_slice(b"FACP");
    d[36..40].copy_from_slice(&0x1111_2222u32.to_le_bytes());
    d[116] = 1;
    d[120..128].copy_from_slice(&0xcf9u64.to_le_bytes());
    d[132..140].copy_from_slice(&0xAABB_CCDD_0000u64.to_le_bytes());
    let f = Fadt::read(&d, 0);
    assert_eq!(&f.header.signature, b"FACP");
    assert_eq!(f.firmware_ctrl, 0x1111_2222);
    assert_eq!(f.reset_reg.address_space_id, 1);
    assert_eq!(f.reset_reg.address, 0xcf9);
    assert_eq!(f.x_firmware_ctrl, 0xAABB_CCDD_0000);

    let mut s = vec![0u8; 33];
    s[0..4].copy_from_slice(b"FACS");
    s[4..8].copy_from_slice(&64u32.to_le_bytes());
    s[24..32].copy_from_slice(&0x1000u64.to_le_bytes());
    s[32] = 2;
    let c = Facs::read(&s, 0);
    assert_eq!(&c.signature, b"FACS");
    assert_eq!(c.length, 64);
    assert_eq!(c.x_firmware_waking_vector, 0x1000);
    assert_eq!(c.version, 2);
}
