//! ACPI: the root system description pointer and the lookup of tables
//! through the RSDT or XSDT.
use vstd::prelude::*;
use crate::bytes::{le16, le32, le64, read_le16, read_le32, read_le64};

pub mod fadt;
pub mod mcfg;

verus! {

/// The header of a system description table (36 bytes).
#[derive(Clone, Copy, Debug)]
pub struct SdtHeader {
    pub signature: [u8; 4],
    pub length: u32,
    pub revision: u8,
    pub checksum: u8,
    pub oem_id: [u8; 6],
    pub oem_table_id: [u8; 8],
    pub oem_revision: u32,
    pub creator_id: u32,
    pub creator_revision: u32,
}

/// `h` is the SdtHeader stored at offset `base` of `s`.
pub open spec fn sdt_header_at(h: SdtHeader, s: Seq<u8>, base: int) -> bool {
    &&& h.signature@ == s.subrange(base + 0, base + 4)
    &&& h.length == le32(s, base + 4)
    &&& h.revision == s[base + 8]
    &&& h.checksum == s[base + 9]
    &&& h.oem_id@ == s.subrange(base + 10, base + 16)
    &&& h.oem_table_id@ == s.subrange(base + 16, base + 24)
    &&& h.oem_revision == le32(s, base + 24)
    &&& h.creator_id == le32(s, base + 28)
    &&& h.creator_revision == le32(s, base + 32)
}

impl SdtHeader {
    /// Decodes the structure stored at offset `base` of `s`.
    pub fn read(s: &[u8], base: usize) -> (h: SdtHeader)
        requires
            base + 36 <= s@.len(),
        ensures
            sdt_header_at(h, s@, base as int),
    {
        let _n = s.len();
        let h = SdtHeader {
            signature: [s[base + 0], s[base + 1], s[base + 2], s[base + 3]],
            length: read_le32(s, base + 4),
            revision: s[base + 8],
            checksum: s[base + 9],
            oem_id: [s[base + 10], s[base + 11], s[base + 12], s[base + 13], s[base + 14], s[base + 15]],
            oem_table_id: [s[base + 16], s[base + 17], s[base + 18], s[base + 19], s[base + 20], s[base + 21], s[base + 22], s[base + 23]],
            oem_revision: read_le32(s, base + 24),
            creator_id: read_le32(s, base + 28),
            creator_revision: read_le32(s, base + 32),
        };
        assert(h.signature@ =~= s@.subrange(base + 0, base + 4));
        assert(h.oem_id@ =~= s@.subrange(base + 10, base + 16));
        assert(h.oem_table_id@ =~= s@.subrange(base + 16, base + 24));
        h
    }
}

/// The ACPI 1.0 root system description pointer (20 bytes).
#[derive(Clone, Copy, Debug)]
pub struct RsdpV1 {
    pub signature: [u8; 8],
    pub checksum: u8,
    pub oem_id: [u8; 6],
    pub revision: u8,
    pub rsdt_address: u32,
}

/// `h` is the RsdpV1 stored at offset `base` of `s`.
pub open spec fn rsdp_v1_at(h: RsdpV1, s: Seq<u8>, base: int) -> bool {
    &&& h.signature@ == s.subrange(base + 0, base + 8)
    &&& h.checksum == s[base + 8]
    &&& h.oem_id@ == s.subrange(base + 9, base + 15)
    &&& h.revision == s[base + 15]
    &&& h.rsdt_address == le32(s, base + 16)
}

impl RsdpV1 {
    /// Decodes the structure stored at offset `base` of `s`.
    pub fn read(s: &[u8], base: usize) -> (h: RsdpV1)
        requires
            base + 20 <= s@.len(),
        ensures
            rsdp_v1_at(h, s@, base as int),
    {
        let _n = s.len();
        let h = RsdpV1 {
            signature: [s[base + 0], s[base + 1], s[base + 2], s[base + 3], s[base + 4], s[base + 5], s[base + 6], s[base + 7]],
            checksum: s[base + 8],
            oem_id: [s[base + 9], s[base + 10], s[base + 11], s[base + 12], s[base + 13], s[base + 14]],
            revision: s[base + 15],
            rsdt_address: read_le32(s, base + 16),
        };
        assert(h.signature@ =~= s@.subrange(base + 0, base + 8));
        assert(h.oem_id@ =~= s@.subrange(base + 9, base + 15));
        h
    }
}

/// The ACPI 2.0 root system description pointer (36 bytes).
#[derive(Clone, Copy, Debug)]
pub struct RsdpV2 {
    pub v1: RsdpV1,
    pub length: u32,
    pub xsdt_address: u64,
    pub extended_checksum: u8,
    pub _reserved: [u8; 3],
}

/// What a root system description pointer gives.
#[derive(Clone, Copy, Debug, PartialEq, Eq)]
pub struct Rsdp {
    pub revision: u8,
    pub rsdt_address: u32,
    /// 0 before revision 2.
    pub xsdt_address: u64,
}

/// The sum of `s` modulo 256.
pub open spec fn byte_sum(s: Seq<u8>) -> int
    decreases s.len(),
{
    if s.len() == 0 {
        0
    } else {
        (byte_sum(s.drop_last()) + s.last()) % 256
    }
}

/// The sum of the bytes of `data`, modulo 256 (0 for a valid table).
pub fn acpi_checksum(data: &[u8]) -> (r: u8)
    ensures
        r == byte_sum(data@),
{
    let mut acc: u8 = 0;
    let mut i: usize = 0;
    while i < data.len()
        invariant
            i <= data@.len(),
            acc == byte_sum(data@.subrange(0, i as int)),
        decreases data@.len() - i,
    {
        assert(data@.subrange(0, i + 1).drop_last() =~= data@.subrange(0, i as int));
        acc = acc.wrapping_add(data[i]);
        i += 1;
    }
    assert(data@.subrange(0, data@.len() as int) =~= data@);
    acc
}

/// `RSD PTR `, the signature of the root system description pointer.
pub open spec fn rsdp_signature() -> Seq<u8> {
    seq![0x52u8, 0x53, 0x44, 0x20, 0x50, 0x54, 0x52, 0x20]
}

/// What parsing `data` as a root system description pointer gives: the
/// signature and the checksum of the first 20 bytes must hold, and from
/// revision 2 on the length and the extended checksum.
pub open spec fn rsdp_spec(data: Seq<u8>) -> Option<(u8, u32, u64)> {
    if data.len() < 20 || data.subrange(0, 8) != rsdp_signature() || byte_sum(
        data.subrange(0, 20),
    ) != 0 {
        None
    } else if data[15] >= 2 {
        let len = le32(data, 20);
        if data.len() < 36 || len < 36 || len > data.len() || byte_sum(data.subrange(0, len)) != 0 {
            None
        } else {
            Some((data[15], le32(data, 16) as u32, le64(data, 24) as u64))
        }
    } else {
        Some((data[15], le32(data, 16) as u32, 0))
    }
}

fn bytes_are(d: &[u8], off: usize, sig: &[u8]) -> (r: bool)
    requires
        off + sig@.len() <= d@.len(),
    ensures
        r == (d@.subrange(off as int, off + sig@.len()) == sig@),
{
    let _n = d.len();
    let mut i: usize = 0;
    while i < sig.len()
        invariant
            off + sig@.len() <= d@.len(),
            d@.len() <= usize::MAX,
            i <= sig@.len(),
            forall|j: int| 0 <= j < i ==> d@[off + j] == sig@[j],
        decreases sig@.len() - i,
    {
        if d[off + i] != sig[i] {
            assert(d@.subrange(off as int, off + sig@.len())[i as int] != sig@[i as int]);
            return false;
        }
        i += 1;
    }
    assert(d@.subrange(off as int, off + sig@.len()) =~= sig@);
    true
}

/// `deref` gives the same bytes whenever it is asked for the same range, as
/// a reader of a fixed memory image does.
pub open spec fn deref_deterministic<'a, F: Fn(u64, usize) -> &'a [u8]>(deref: F) -> bool {
    forall|a: u64, n: usize, t1: &'a [u8], t2: &'a [u8]|
        #![trigger deref.ensures((a, n), t1), deref.ensures((a, n), t2)]
        deref.ensures((a, n), t1) && deref.ensures((a, n), t2) ==> t1@ == t2@
}

/// The bytes that `deref` gives for `n` bytes at address `a`.
pub open spec fn deref_bytes<'a, F: Fn(u64, usize) -> &'a [u8]>(deref: F, a: u64, n: usize) -> Seq<u8> {
    (choose|t: &'a [u8]| deref.ensures((a, n), t))@
}

/// The address of the first table from the `i`-th of `count` entries of the
/// pointer table `d` (entries of `ptr_size` bytes from offset 36) whose first
/// four bytes are `sig`; `None` once an entry lies past the end of `d`.
pub open spec fn scan_tables<'a, F: Fn(u64, usize) -> &'a [u8]>(
    deref: F,
    d: Seq<u8>,
    ptr_size: int,
    sig: Seq<u8>,
    i: int,
    count: int,
) -> Option<u64>
    decreases count - i,
{
    if i < 0 || i >= count {
        None
    } else {
        let off = 36 + i * ptr_size;
        if off + ptr_size > d.len() {
            None
        } else {
            let addr = if ptr_size == 8 {
                le64(d, off) as u64
            } else {
                le32(d, off) as u64
            };
            if deref_bytes(deref, addr, 4) == sig {
                Some(addr)
            } else {
                scan_tables(deref, d, ptr_size, sig, i + 1, count)
            }
        }
    }
}

/// What looking up the table `sig` through `rsdp` finds: the XSDT (from
/// revision 2, when it has an address) or the RSDT is read, its header for
/// the total length, then the whole table, and its entries are scanned.
pub open spec fn find_table_spec<'a, F: Fn(u64, usize) -> &'a [u8]>(
    rsdp: Rsdp,
    sig: Seq<u8>,
    deref: F,
) -> Option<u64> {
    let (sdt, ptr_size) = if rsdp.revision >= 2 && rsdp.xsdt_address != 0 {
        (rsdp.xsdt_address, 8int)
    } else {
        (rsdp.rsdt_address as u64, 4int)
    };
    let h = deref_bytes(deref, sdt, 36);
    if h.len() < 36 {
        None
    } else {
        let total = le32(h, 4);
        if total < 36 {
            None
        } else {
            let d = deref_bytes(deref, sdt, total as usize);
            scan_tables(deref, d, ptr_size, sig, 0, (total - 36) / ptr_size)
        }
    }
}

impl Rsdp {
    /// Parses a root system description pointer.
    pub fn parse(data: &[u8]) -> (r: Option<Self>)
        ensures
            match rsdp_spec(data@) {
                None => r is None,
                Some((rev, rsdt, xsdt)) => r == Some(
                    Rsdp { revision: rev, rsdt_address: rsdt, xsdt_address: xsdt },
                ),
            },
    {
        if data.len() < 20 {
            return None;
        }
        let sig: [u8; 8] = [0x52, 0x53, 0x44, 0x20, 0x50, 0x54, 0x52, 0x20];
        proof {
            assert(sig@ =~= rsdp_signature());
        }
        if !bytes_are(data, 0, &sig) {
            return None;
        }
        let v1 = RsdpV1::read(data, 0);
        if acpi_checksum(&data[0..20]) != 0 {
            return None;
        }
        let revision = v1.revision;
        let rsdt_address = v1.rsdt_address;
        let xsdt_address = if revision >= 2 {
            if data.len() < 36 {
                return None;
            }
            let length = read_le32(data, 20) as usize;
            if length < 36 || length > data.len() {
                return None;
            }
            if acpi_checksum(&data[0..length]) != 0 {
                return None;
            }
            read_le64(data, 24)
        } else {
            0
        };
        Some(Rsdp { revision, rsdt_address, xsdt_address })
    }

    /// Finds the table with signature `signature` among those the RSDT (or,
    /// from revision 2 with an address, the XSDT) points to; `deref` gives
    /// the bytes at a physical address. A result is an address at which
    /// `deref` gave the signature.
    pub fn find_table<'a, F: Fn(u64, usize) -> &'a [u8]>(&self, signature: &[u8; 4], deref: F) -> (r:
        Option<u64>)
        requires
            forall|a: u64, n: usize| #[trigger] deref.requires((a, n)),
        ensures
            r matches Some(a) ==> exists|t: &[u8]|
                #[trigger] deref.ensures((a, 4usize), t) && t@ == signature@,
            deref_deterministic(deref) ==> r == find_table_spec(*self, signature@, deref),
    {
        let (sdt_addr, ptr_size) = if self.revision >= 2 && self.xsdt_address != 0 {
            (self.xsdt_address, 8usize)
        } else {
            (self.rsdt_address as u64, 4usize)
        };
        let header_bytes = deref(sdt_addr, 36);
        proof {
            if deref_deterministic(deref) {
                let c = choose|t: &'a [u8]| deref.ensures((sdt_addr, 36usize), t);
                assert(deref.ensures((sdt_addr, 36usize), c));
                assert(deref_bytes(deref, sdt_addr, 36) == header_bytes@);
            }
        }
        if header_bytes.len() < 36 {
            return None;
        }
        let total_length = read_le32(header_bytes, 4) as usize;
        let sdt_data = deref(sdt_addr, total_length);
        proof {
            if deref_deterministic(deref) {
                let c = choose|t: &'a [u8]| deref.ensures((sdt_addr, total_length), t);
                assert(deref.ensures((sdt_addr, total_length), c));
                assert(deref_bytes(deref, sdt_addr, total_length) == sdt_data@);
            }
        }
        if total_length < 36 {
            return None;
        }
        let num_entries = (total_length - 36) / ptr_size;
        let ghost whole = find_table_spec(*self, signature@, deref);
        let mut i: usize = 0;
        while i < num_entries
            invariant
                forall|a: u64, n: usize| #[trigger] deref.requires((a, n)),
                ptr_size == 4 || ptr_size == 8,
                num_entries == (total_length - 36) / ptr_size as int,
                36 <= total_length,
                whole == find_table_spec(*self, signature@, deref),
                deref_deterministic(deref) ==> whole == scan_tables(
                    deref,
                    sdt_data@,
                    ptr_size as int,
                    signature@,
                    i as int,
                    num_entries as int,
                ),
            decreases num_entries - i,
        {
            proof {
                assert(i * ptr_size <= total_length - 36) by (nonlinear_arith)
                    requires
                        i < num_entries,
                        num_entries == (total_length - 36) / ptr_size as int,
                        ptr_size > 0,
                        total_length >= 36,
                ;
            }
            let off = 36 + i * ptr_size;
            if off > sdt_data.len() || sdt_data.len() - off < ptr_size {
                return None;
            }
            let addr = if ptr_size == 8 {
                read_le64(sdt_data, off)
            } else {
                read_le32(sdt_data, off) as u64
            };
            let table_header = deref(addr, 4);
            proof {
                if deref_deterministic(deref) {
                    let c = choose|t: &'a [u8]| deref.ensures((addr, 4usize), t);
                    assert(deref.ensures((addr, 4usize), c));
                    assert(deref_bytes(deref, addr, 4) == table_header@);
                    assert(signature@.len() == 4);
                }
            }
            if table_header.len() == 4 && bytes_are(table_header, 0, signature) {
                proof {
                    assert(table_header@ =~= table_header@.subrange(0, 4));
                }
                return Some(addr);
            }
            proof {
                if deref_deterministic(deref) {
                    if table_header@.len() == 4 {
                        assert(table_header@ =~= table_header@.subrange(0, 4));
                    }
                    assert(deref_bytes(deref, addr, 4) != signature@);
                    assert(off + ptr_size <= sdt_data@.len());
                    assert(addr == (if ptr_size == 8 {
                        le64(sdt_data@, off as int) as u64
                    } else {
                        le32(sdt_data@, off as int) as u64
                    }));
                }
            }
            i += 1;
        }
        None
    }
}

} // verus!
