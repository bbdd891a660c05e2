//! The FADT (fixed ACPI description table): the address of the FACS.
use vstd::prelude::*;
use crate::bytes::{le16, le32, le64, read_le16, read_le32, read_le64};
use crate::acpi::{sdt_header_at, SdtHeader};

verus! {

/// Size of the FADT fields read (through the extended GPE1 block).
pub const FADT_SIZE: usize = 244;

/// ACPI generic address structure: a register in an address space.
#[derive(Clone, Copy, Debug)]
pub struct Gas {
    pub address_space_id: u8,
    pub register_bit_width: u8,
    pub register_bit_offset: u8,
    pub access_size: u8,
    pub address: u64,
}

/// `h` is the Gas stored at offset `base` of `s`.
pub open spec fn gas_at(h: Gas, s: Seq<u8>, base: int) -> bool {
    &&& h.address_space_id == s[base + 0]
    &&& h.register_bit_width == s[base + 1]
    &&& h.register_bit_offset == s[base + 2]
    &&& h.access_size == s[base + 3]
    &&& h.address == le64(s, base + 4)
}

impl Gas {
    /// Decodes the structure stored at offset `base` of `s`.
    pub fn read(s: &[u8], base: usize) -> (h: Gas)
        requires
            base + 12 <= s@.len(),
        ensures
            gas_at(h, s@, base as int),
    {
        let _n = s.len();
        let h = Gas {
            address_space_id: s[base + 0],
            register_bit_width: s[base + 1],
            register_bit_offset: s[base + 2],
            access_size: s[base + 3],
            address: read_le64(s, base + 4),
        };
        h
    }
}

/// ACPI FADT (fixed ACPI description table), revision 3 and later layout.
#[derive(Clone, Copy, Debug)]
pub struct Fadt {
    pub header: SdtHeader,
    pub firmware_ctrl: u32,
    pub dsdt: u32,
    pub reserved0: u8,
    pub preferred_pm_profile: u8,
    pub sci_int: u16,
    pub smi_cmd: u32,
    pub acpi_enable: u8,
    pub acpi_disable: u8,
    pub s4bios_req: u8,
    pub pstate_cnt: u8,
    pub pm1a_evt_blk: u32,
    pub pm1b_evt_blk: u32,
    pub pm1a_cnt_blk: u32,
    pub pm1b_cnt_blk: u32,
    pub pm2_cnt_blk: u32,
    pub pm_tmr_blk: u32,
    pub gpe0_blk: u32,
    pub gpe1_blk: u32,
    pub pm1_evt_len: u8,
    pub pm1_cnt_len: u8,
    pub pm2_cnt_len: u8,
    pub pm_tmr_len: u8,
    pub gpe0_blk_len: u8,
    pub gpe1_blk_len: u8,
    pub gpe1_base: u8,
    pub cst_cnt: u8,
    pub p_lvl2_lat: u16,
    pub p_lvl3_lat: u16,
    pub flush_size: u16,
    pub flush_stride: u16,
    pub duty_offset: u8,
    pub duty_width: u8,
    pub day_alrm: u8,
    pub mon_alrm: u8,
    pub century: u8,
    pub iapc_boot_arch: u16,
    pub reserved1: u8,
    pub flags: u32,
    pub reset_reg: Gas,
    pub reset_value: u8,
    pub reserved2: [u8; 3],
    pub x_firmware_ctrl: u64,
    pub x_dsdt: u64,
    pub x_pm1a_evt_blk: Gas,
    pub x_pm1b_evt_blk: Gas,
    pub x_pm1a_cnt_blk: Gas,
    pub x_pm1b_cnt_blk: Gas,
    pub x_pm2_cnt_blk: Gas,
    pub x_pm_tmr_blk: Gas,
    pub x_gpe0_blk: Gas,
    pub x_gpe1_blk: Gas,
}

/// `h` is the Fadt stored at offset `base` of `s`.
pub open spec fn fadt_at(h: Fadt, s: Seq<u8>, base: int) -> bool {
    &&& sdt_header_at(h.header, s, base + 0)
    &&& h.firmware_ctrl == le32(s, base + 36)
    &&& h.dsdt == le32(s, base + 40)
    &&& h.reserved0 == s[base + 44]
    &&& h.preferred_pm_profile == s[base + 45]
    &&& h.sci_int == le16(s, base + 46)
    &&& h.smi_cmd == le32(s, base + 48)
    &&& h.acpi_enable == s[base + 52]
    &&& h.acpi_disable == s[base + 53]
    &&& h.s4bios_req == s[base + 54]
    &&& h.pstate_cnt == s[base + 55]
    &&& h.pm1a_evt_blk == le32(s, base + 56)
    &&& h.pm1b_evt_blk == le32(s, base + 60)
    &&& h.pm1a_cnt_blk == le32(s, base + 64)
    &&& h.pm1b_cnt_blk == le32(s, base + 68)
    &&& h.pm2_cnt_blk == le32(s, base + 72)
    &&& h.pm_tmr_blk == le32(s, base + 76)
    &&& h.gpe0_blk == le32(s, base + 80)
    &&& h.gpe1_blk == le32(s, base + 84)
    &&& h.pm1_evt_len == s[base + 88]
    &&& h.pm1_cnt_len == s[base + 89]
    &&& h.pm2_cnt_len == s[base + 90]
    &&& h.pm_tmr_len == s[base + 91]
    &&& h.gpe0_blk_len == s[base + 92]
    &&& h.gpe1_blk_len == s[base + 93]
    &&& h.gpe1_base == s[base + 94]
    &&& h.cst_cnt == s[base + 95]
    &&& h.p_lvl2_lat == le16(s, base + 96)
    &&& h.p_lvl3_lat == le16(s, base + 98)
    &&& h.flush_size == le16(s, base + 100)
    &&& h.flush_stride == le16(s, base + 102)
    &&& h.duty_offset == s[base + 104]
    &&& h.duty_width == s[base + 105]
    &&& h.day_alrm == s[base + 106]
    &&& h.mon_alrm == s[base + 107]
    &&& h.century == s[base + 108]
    &&& h.iapc_boot_arch == le16(s, base + 109)
    &&& h.reserved1 == s[base + 111]
    &&& h.flags == le32(s, base + 112)
    &&& gas_at(h.reset_reg, s, base + 116)
    &&& h.reset_value == s[base + 128]
    &&& h.reserved2@ == s.subrange(base + 129, base + 132)
    &&& h.x_firmware_ctrl == le64(s, base + 132)
    &&& h.x_dsdt == le64(s, base + 140)
    &&& gas_at(h.x_pm1a_evt_blk, s, base + 148)
    &&& gas_at(h.x_pm1b_evt_blk, s, base + 160)
    &&& gas_at(h.x_pm1a_cnt_blk, s, base + 172)
    &&& gas_at(h.x_pm1b_cnt_blk, s, base + 184)
    &&& gas_at(h.x_pm2_cnt_blk, s, base + 196)
    &&& gas_at(h.x_pm_tmr_blk, s, base + 208)
    &&& gas_at(h.x_gpe0_blk, s, base + 220)
    &&& gas_at(h.x_gpe1_blk, s, base + 232)
}

impl Fadt {
    /// Decodes the structure stored at offset `base` of `s`.
    pub fn read(s: &[u8], base: usize) -> (h: Fadt)
        requires
            base + 244 <= s@.len(),
        ensures
            fadt_at(h, s@, base as int),
    {
        let _n = s.len();
        let h = Fadt {
            header: SdtHeader::read(s, base + 0),
            firmware_ctrl: read_le32(s, base + 36),
            dsdt: read_le32(s, base + 40),
            reserved0: s[base + 44],
            preferred_pm_profile: s[base + 45],
            sci_int: read_le16(s, base + 46),
            smi_cmd: read_le32(s, base + 48),
            acpi_enable: s[base + 52],
            acpi_disable: s[base + 53],
            s4bios_req: s[base + 54],
            pstate_cnt: s[base + 55],
            pm1a_evt_blk: read_le32(s, base + 56),
            pm1b_evt_blk: read_le32(s, base + 60),
            pm1a_cnt_blk: read_le32(s, base + 64),
            pm1b_cnt_blk: read_le32(s, base + 68),
            pm2_cnt_blk: read_le32(s, base + 72),
            pm_tmr_blk: read_le32(s, base + 76),
            gpe0_blk: read_le32(s, base + 80),
            gpe1_blk: read_le32(s, base + 84),
            pm1_evt_len: s[base + 88],
            pm1_cnt_len: s[base + 89],
            pm2_cnt_len: s[base + 90],
            pm_tmr_len: s[base + 91],
            gpe0_blk_len: s[base + 92],
            gpe1_blk_len: s[base + 93],
            gpe1_base: s[base + 94],
            cst_cnt: s[base + 95],
            p_lvl2_lat: read_le16(s, base + 96),
            p_lvl3_lat: read_le16(s, base + 98),
            flush_size: read_le16(s, base + 100),
            flush_stride: read_le16(s, base + 102),
            duty_offset: s[base + 104],
            duty_width: s[base + 105],
            day_alrm: s[base + 106],
            mon_alrm: s[base + 107],
            century: s[base + 108],
            iapc_boot_arch: read_le16(s, base + 109),
            reserved1: s[base + 111],
            flags: read_le32(s, base + 112),
            reset_reg: Gas::read(s, base + 116),
            reset_value: s[base + 128],
            reserved2: [s[base + 129], s[base + 130], s[base + 131]],
            x_firmware_ctrl: read_le64(s, base + 132),
            x_dsdt: read_le64(s, base + 140),
            x_pm1a_evt_blk: Gas::read(s, base + 148),
            x_pm1b_evt_blk: Gas::read(s, base + 160),
            x_pm1a_cnt_blk: Gas::read(s, base + 172),
            x_pm1b_cnt_blk: Gas::read(s, base + 184),
            x_pm2_cnt_blk: Gas::read(s, base + 196),
            x_pm_tmr_blk: Gas::read(s, base + 208),
            x_gpe0_blk: Gas::read(s, base + 220),
            x_gpe1_blk: Gas::read(s, base + 232),
        };
        assert(h.reserved2@ =~= s@.subrange(base + 129, base + 132));
        h
    }
}

/// ACPI FACS (firmware ACPI control structure).
#[derive(Clone, Copy, Debug)]
pub struct Facs {
    pub signature: [u8; 4],
    pub length: u32,
    pub hardware_signature: u32,
    pub firmware_waking_vector: u32,
    pub global_lock: u32,
    pub flags: u32,
    pub x_firmware_waking_vector: u64,
    pub version: u8,
}

/// `h` is the Facs stored at offset `base` of `s`.
pub open spec fn facs_at(h: Facs, s: Seq<u8>, base: int) -> bool {
    &&& h.signature@ == s.subrange(base + 0, base + 4)
    &&& h.length == le32(s, base + 4)
    &&& h.hardware_signature == le32(s, base + 8)
    &&& h.firmware_waking_vector == le32(s, base + 12)
    &&& h.global_lock == le32(s, base + 16)
    &&& h.flags == le32(s, base + 20)
    &&& h.x_firmware_waking_vector == le64(s, base + 24)
    &&& h.version == s[base + 32]
}

impl Facs {
    /// Decodes the structure stored at offset `base` of `s`.
    pub fn read(s: &[u8], base: usize) -> (h: Facs)
        requires
            base + 33 <= s@.len(),
        ensures
            facs_at(h, s@, base as int),
    {
        let _n = s.len();
        let h = Facs {
            signature: [s[base + 0], s[base + 1], s[base + 2], s[base + 3]],
            length: read_le32(s, base + 4),
            hardware_signature: read_le32(s, base + 8),
            firmware_waking_vector: read_le32(s, base + 12),
            global_lock: read_le32(s, base + 16),
            flags: read_le32(s, base + 20),
            x_firmware_waking_vector: read_le64(s, base + 24),
            version: s[base + 32],
        };
        assert(h.signature@ =~= s@.subrange(base + 0, base + 4));
        h
    }
}

/// `FACP`, the FADT's signature.
pub open spec fn facp_signature() -> Seq<u8> {
    seq![0x46u8, 0x41, 0x43, 0x50]
}

/// The FACS address an FADT gives: the 64-bit field when set, else the
/// 32-bit one; `None` when both are 0, or `data` is not an FADT.
pub open spec fn facs_addr_spec(data: Seq<u8>) -> Option<u64> {
    if data.len() < 244 || data.subrange(0, 4) != facp_signature() {
        None
    } else {
        let a = if le64(data, 132) != 0 {
            le64(data, 132)
        } else {
            le32(data, 36)
        };
        if a == 0 {
            None
        } else {
            Some(a as u64)
        }
    }
}

/// The address of the FACS given by an FADT.
pub fn parse_fadt_facs_addr(data: &[u8]) -> (r: Option<u64>)
    ensures
        r == facs_addr_spec(data@),
{
    if data.len() < FADT_SIZE {
        return None;
    }
    if data[0] != 0x46 || data[1] != 0x41 || data[2] != 0x43 || data[3] != 0x50 {
        proof {
            if data@.subrange(0, 4) == facp_signature() {
                assert(data@.subrange(0, 4)[0] == data@[0]);
                assert(data@.subrange(0, 4)[1] == data@[1]);
                assert(data@.subrange(0, 4)[2] == data@[2]);
                assert(data@.subrange(0, 4)[3] == data@[3]);
            }
        }
        return None;
    }
    assert(data@.subrange(0, 4) =~= facp_signature());
    let fadt = Fadt::read(data, 0);
    let addr = if fadt.x_firmware_ctrl != 0 {
        fadt.x_firmware_ctrl
    } else {
        fadt.firmware_ctrl as u64
    };
    if addr == 0 {
        None
    } else {
        Some(addr)
    }
}

} // verus!
