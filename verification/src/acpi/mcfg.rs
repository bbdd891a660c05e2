//! The MCFG table: the PCI Express configuration space.
use vstd::prelude::*;
use crate::bytes::{le16, le32, le64, read_le16, read_le32, read_le64};

verus! {

/// An MCFG configuration space allocation (16 bytes).
#[derive(Debug, Clone, Copy, PartialEq, Eq)]
pub struct McfgEntry {
    pub base_address: u64,
    pub segment_group: u16,
    pub start_bus: u8,
    pub end_bus: u8,
    pub _reserved: u32,
}

/// `h` is the McfgEntry stored at offset `base` of `s`.
pub open spec fn mcfg_entry_at(h: McfgEntry, s: Seq<u8>, base: int) -> bool {
    &&& h.base_address == le64(s, base + 0)
    &&& h.segment_group == le16(s, base + 8)
    &&& h.start_bus == s[base + 10]
    &&& h.end_bus == s[base + 11]
    &&& h._reserved == le32(s, base + 12)
}

impl McfgEntry {
    /// Decodes the structure stored at offset `base` of `s`.
    pub fn read(s: &[u8], base: usize) -> (h: McfgEntry)
        requires
            base + 16 <= s@.len(),
        ensures
            mcfg_entry_at(h, s@, base as int),
    {
        let _n = s.len();
        let h = McfgEntry {
            base_address: read_le64(s, base + 0),
            segment_group: read_le16(s, base + 8),
            start_bus: s[base + 10],
            end_bus: s[base + 11],
            _reserved: read_le32(s, base + 12),
        };
        h
    }
}

/// `MCFG`, the table's signature.
pub open spec fn mcfg_signature() -> Seq<u8> {
    seq![0x4du8, 0x43, 0x46, 0x47]
}

/// The first allocation of an MCFG table, if `data` is one long enough to
/// hold it.
pub open spec fn mcfg_spec(data: Seq<u8>) -> bool {
    &&& data.len() >= 36
    &&& data.subrange(0, 4) == mcfg_signature()
    &&& le32(data, 4) <= data.len()
    &&& le32(data, 4) >= 60
}

/// Parses an MCFG table and returns its first allocation.
pub fn parse_mcfg(data: &[u8]) -> (r: Option<McfgEntry>)
    ensures
        mcfg_spec(data@) ==> (r matches Some(e) && mcfg_entry_at(e, data@, 44)),
        !mcfg_spec(data@) ==> r is None,
{
    if data.len() < 36 {
        return None;
    }
    let sig: [u8; 4] = [0x4d, 0x43, 0x46, 0x47];
    proof {
        assert(sig@ =~= mcfg_signature());
    }
    if data[0] != sig[0] || data[1] != sig[1] || data[2] != sig[2] || data[3] != sig[3] {
        proof {
            if data@.subrange(0, 4) == mcfg_signature() {
                assert(data@.subrange(0, 4)[0] == data@[0]);
                assert(data@.subrange(0, 4)[1] == data@[1]);
                assert(data@.subrange(0, 4)[2] == data@[2]);
                assert(data@.subrange(0, 4)[3] == data@[3]);
            }
        }
        return None;
    }
    assert(data@.subrange(0, 4) =~= mcfg_signature());
    let total_length = read_le32(data, 4) as usize;
    if total_length > data.len() || total_length < 60 {
        return None;
    }
    Some(McfgEntry::read(data, 44))
}

} // verus!
