//! SMBIOS entry points, structure tables and their string sets.
use vstd::prelude::*;
use crate::bytes::{find_byte_sequence, le16, le32, le64, occurs_at, read_le16, read_le32, read_le64};
use vstd::string::StringExecFns;

verus! {

/// Size of the 32-bit (`_SM_`) entry point structure.
pub const SMBIOS_ENTRY_POINT_SIZE: usize = 31;

/// Size of the 64-bit (`_SM3_`) entry point structure.
pub const SMBIOS3_ENTRY_POINT_SIZE: usize = 24;

/// Size of a structure header.
pub const SMBIOS_HEADER_SIZE: usize = 4;

/// Size of the type 0 (BIOS information) structure before SMBIOS 2.4.
pub const SMBIOS_TABLE_TYPE0_SIZE: usize = 20;

/// Size of the type 0 structure including the 2.4+ release fields.
pub const SMBIOS_TABLE_TYPE0_24_SIZE: usize = 26;

/// Size of the type 1 (system information) structure.
pub const SMBIOS_TABLE_TYPE1_SIZE: usize = 27;

/// Size of the type 2 (baseboard information) structure.
pub const SMBIOS_TABLE_TYPE2_SIZE: usize = 8;

/// Size of the type 3 (system enclosure) structure.
pub const SMBIOS_TABLE_TYPE3_SIZE: usize = 9;

/// Type of the end-of-table structure.
pub const SMBIOS_TYPE_END_OF_TABLE: u8 = 127;

/// SMBIOS 2.x entry point (`_SM_`).
#[derive(Clone, Copy, Debug)]
pub struct SmbiosEntryPoint {
    pub anchor_string: [u8; 4],
    pub entry_point_structure_checksum: u8,
    pub entry_point_length: u8,
    pub major_version: u8,
    pub minor_version: u8,
    pub max_structure_size: u16,
    pub entry_point_revision: u8,
    pub formatted_area: [u8; 5],
    pub intermediate_anchor_string: [u8; 5],
    pub intermediate_checksum: u8,
    pub table_length: u16,
    pub table_address: u32,
    pub number_of_smbios_structures: u16,
    pub smbios_bcd_revision: u8,
}

/// SMBIOS 3.x entry point (`_SM3_`).
#[derive(Clone, Copy, Debug)]
pub struct Smbios3EntryPoint {
    pub anchor_string: [u8; 5],
    pub entry_point_structure_checksum: u8,
    pub entry_point_length: u8,
    pub major_version: u8,
    pub minor_version: u8,
    pub docrev: u8,
    pub entry_point_revision: u8,
    pub reserved: u8,
    pub table_maximum_size: u32,
    pub table_address: u64,
}

/// Common header of every SMBIOS structure.
#[derive(Clone, Copy, Debug)]
pub struct SmbiosHeader {
    pub type_: u8,
    pub length: u8,
    pub handle: [u8; 2],
}

/// Type 0: BIOS information (pre-2.4 layout).
#[derive(Clone, Copy, Debug)]
pub struct SmbiosTableType0 {
    pub header: SmbiosHeader,
    pub vendor: u8,
    pub bios_version: u8,
    pub bios_segment: u16,
    pub bios_release_date: u8,
    pub bios_size: u8,
    pub bios_characteristics: u64,
    pub bios_characteristics_ext: [u8; 2],
}

/// Type 0: BIOS information with the 2.4+ release fields.
#[derive(Clone, Copy, Debug)]
pub struct SmbiosTableType0_24 {
    pub header: SmbiosHeader,
    pub vendor: u8,
    pub bios_version: u8,
    pub bios_segment: u16,
    pub bios_release_date: u8,
    pub bios_size: u8,
    pub bios_characteristics: u64,
    pub bios_characteristics_ext: [u8; 2],
    pub bios_major_release: u8,
    pub bios_minor_release: u8,
    pub ec_fw_major_release: u8,
    pub ec_fw_minor_release: u8,
    pub ext_bios_rom_size: u16,
}

/// GUID layout used in SMBIOS structures.
#[allow(non_camel_case_types)]
#[derive(Clone, Copy, Debug)]
pub struct EFI_GUID {
    pub data1: u32,
    pub data2: u16,
    pub data3: u16,
    pub data4: [u8; 8],
}

/// Type 1: system information.
#[derive(Clone, Copy, Debug)]
pub struct SmbiosTableType1 {
    pub header: SmbiosHeader,
    pub manufacturer: u8,
    pub product_name: u8,
    pub version: u8,
    pub serial_number: u8,
    pub uuid: EFI_GUID,
    pub wake_up_type: u8,
    pub sku_number: u8,
    pub family: u8,
}

/// Type 2: baseboard information.
#[derive(Clone, Copy, Debug)]
pub struct SmbiosTableType2 {
    pub header: SmbiosHeader,
    pub manufacturer: u8,
    pub product_name: u8,
    pub version: u8,
    pub serial_number: u8,
}

/// Type 3: system enclosure.
#[derive(Clone, Copy, Debug)]
pub struct SmbiosTableType3 {
    pub header: SmbiosHeader,
    pub manufacturer: u8,
    pub type_: u8,
    pub version: u8,
    pub serial_number: u8,
    pub asset_tag_number: u8,
}

/// Why a structure lookup stopped.
#[derive(Clone, Copy, Debug, Eq, PartialEq, Structural)]
pub enum SmbiosError {
    /// The end-of-table structure came before a matching one.
    TableNotFound,
    /// The structure data is malformed.
    InvalidTable,
}

/// Malformed SMBIOS structure data.
#[derive(Clone, Copy, Debug, Default, Eq, PartialEq, Structural)]
pub struct SmbiosParseError;

impl SmbiosParseError {
    /// Human-readable description of the error.
    pub fn to_string(&self) -> (s: String)
        ensures
            s@ == "invalid SMBIOS data"@,
    {
        String::from_str("invalid SMBIOS data")
    }
}

/// A structure found in the SMBIOS data: its formatted area and its string
/// set (without the final double NUL).
#[derive(Clone, Copy)]
pub struct SmbiosTable<'s> {
    pub table: &'s [u8],
    pub strings: &'s [u8],
}

/// Reads a header from the first four bytes of `b`.
pub fn parse_header(b: &[u8]) -> (h: SmbiosHeader)
    requires
        b@.len() >= 4,
    ensures
        h.type_ == b@[0],
        h.length == b@[1],
        h.handle@ == b@.subrange(2, 4),
{
    let h = SmbiosHeader { type_: b[0], length: b[1], handle: [b[2], b[3]] };
    assert(h.handle@ =~= b@.subrange(2, 4));
    h
}

impl SmbiosEntryPoint {
    /// Decodes the entry point from the start of `ep`; `None` if `ep` is
    /// shorter than the structure.
    pub fn read_from_prefix(ep: &[u8]) -> (r: Option<SmbiosEntryPoint>)
        ensures
            ep@.len() < 31 <==> r is None,
            r matches Some(e) ==> {
                &&& e.anchor_string@ == ep@.subrange(0, 4)
                &&& e.entry_point_structure_checksum == ep@[4]
                &&& e.entry_point_length == ep@[5]
                &&& e.major_version == ep@[6]
                &&& e.minor_version == ep@[7]
                &&& e.max_structure_size == le16(ep@, 8)
                &&& e.entry_point_revision == ep@[10]
                &&& e.formatted_area@ == ep@.subrange(11, 16)
                &&& e.intermediate_anchor_string@ == ep@.subrange(16, 21)
                &&& e.intermediate_checksum == ep@[21]
                &&& e.table_length == le16(ep@, 22)
                &&& e.table_address == le32(ep@, 24)
                &&& e.number_of_smbios_structures == le16(ep@, 28)
                &&& e.smbios_bcd_revision == ep@[30]
            },
    {
        if ep.len() < SMBIOS_ENTRY_POINT_SIZE {
            return None;
        }
        let e = SmbiosEntryPoint {
            anchor_string: [ep[0], ep[1], ep[2], ep[3]],
            entry_point_structure_checksum: ep[4],
            entry_point_length: ep[5],
            major_version: ep[6],
            minor_version: ep[7],
            max_structure_size: read_le16(ep, 8),
            entry_point_revision: ep[10],
            formatted_area: [ep[11], ep[12], ep[13], ep[14], ep[15]],
            intermediate_anchor_string: [ep[16], ep[17], ep[18], ep[19], ep[20]],
            intermediate_checksum: ep[21],
            table_length: read_le16(ep, 22),
            table_address: read_le32(ep, 24),
            number_of_smbios_structures: read_le16(ep, 28),
            smbios_bcd_revision: ep[30],
        };
        assert(e.anchor_string@ =~= ep@.subrange(0, 4));
        assert(e.formatted_area@ =~= ep@.subrange(11, 16));
        assert(e.intermediate_anchor_string@ =~= ep@.subrange(16, 21));
        Some(e)
    }
}

impl Smbios3EntryPoint {
    /// Decodes the entry point from the start of `ep`; `None` if `ep` is
    /// shorter than the structure.
    pub fn read_from_prefix(ep: &[u8]) -> (r: Option<Smbios3EntryPoint>)
        ensures
            ep@.len() < 24 <==> r is None,
            r matches Some(e) ==> {
                &&& e.anchor_string@ == ep@.subrange(0, 5)
                &&& e.entry_point_structure_checksum == ep@[5]
                &&& e.entry_point_length == ep@[6]
                &&& e.major_version == ep@[7]
                &&& e.minor_version == ep@[8]
                &&& e.docrev == ep@[9]
                &&& e.entry_point_revision == ep@[10]
                &&& e.reserved == ep@[11]
                &&& e.table_maximum_size == le32(ep@, 12)
                &&& e.table_address == le64(ep@, 16)
            },
    {
        if ep.len() < SMBIOS3_ENTRY_POINT_SIZE {
            return None;
        }
        let e = Smbios3EntryPoint {
            anchor_string: [ep[0], ep[1], ep[2], ep[3], ep[4]],
            entry_point_structure_checksum: ep[5],
            entry_point_length: ep[6],
            major_version: ep[7],
            minor_version: ep[8],
            docrev: ep[9],
            entry_point_revision: ep[10],
            reserved: ep[11],
            table_maximum_size: read_le32(ep, 12),
            table_address: read_le64(ep, 16),
        };
        assert(e.anchor_string@ =~= ep@.subrange(0, 5));
        Some(e)
    }
}

impl SmbiosTableType0 {
    /// Decodes the structure from its formatted area.
    pub fn parse(t: &[u8]) -> (r: SmbiosTableType0)
        requires
            t@.len() >= 20,
        ensures
            r.header.type_ == t@[0] && r.header.length == t@[1],
            r.vendor == t@[4],
            r.bios_version == t@[5],
            r.bios_segment == le16(t@, 6),
            r.bios_release_date == t@[8],
            r.bios_size == t@[9],
            r.bios_characteristics == le64(t@, 10),
            r.bios_characteristics_ext@ == t@.subrange(18, 20),
    {
        let r = SmbiosTableType0 {
            header: parse_header(t),
            vendor: t[4],
            bios_version: t[5],
            bios_segment: read_le16(t, 6),
            bios_release_date: t[8],
            bios_size: t[9],
            bios_characteristics: read_le64(t, 10),
            bios_characteristics_ext: [t[18], t[19]],
        };
        assert(r.bios_characteristics_ext@ =~= t@.subrange(18, 20));
        r
    }
}

impl SmbiosTableType0_24 {
    /// Decodes the structure from its formatted area.
    pub fn parse(t: &[u8]) -> (r: SmbiosTableType0_24)
        requires
            t@.len() >= 26,
        ensures
            r.header.type_ == t@[0] && r.header.length == t@[1],
            r.vendor == t@[4],
            r.bios_version == t@[5],
            r.bios_segment == le16(t@, 6),
            r.bios_release_date == t@[8],
            r.bios_size == t@[9],
            r.bios_characteristics == le64(t@, 10),
            r.bios_characteristics_ext@ == t@.subrange(18, 20),
            r.bios_major_release == t@[20],
            r.bios_minor_release == t@[21],
            r.ec_fw_major_release == t@[22],
            r.ec_fw_minor_release == t@[23],
            r.ext_bios_rom_size == le16(t@, 24),
    {
        let r = SmbiosTableType0_24 {
            header: parse_header(t),
            vendor: t[4],
            bios_version: t[5],
            bios_segment: read_le16(t, 6),
            bios_release_date: t[8],
            bios_size: t[9],
            bios_characteristics: read_le64(t, 10),
            bios_characteristics_ext: [t[18], t[19]],
            bios_major_release: t[20],
            bios_minor_release: t[21],
            ec_fw_major_release: t[22],
            ec_fw_minor_release: t[23],
            ext_bios_rom_size: read_le16(t, 24),
        };
        assert(r.bios_characteristics_ext@ =~= t@.subrange(18, 20));
        r
    }
}

impl SmbiosTableType1 {
    /// Decodes the structure from its formatted area.
    pub fn parse(t: &[u8]) -> (r: SmbiosTableType1)
        requires
            t@.len() >= 27,
        ensures
            r.header.type_ == t@[0] && r.header.length == t@[1],
            r.manufacturer == t@[4],
            r.product_name == t@[5],
            r.version == t@[6],
            r.serial_number == t@[7],
            r.uuid.data1 == le32(t@, 8),
            r.uuid.data2 == le16(t@, 12),
            r.uuid.data3 == le16(t@, 14),
            r.uuid.data4@ == t@.subrange(16, 24),
            r.wake_up_type == t@[24],
            r.sku_number == t@[25],
            r.family == t@[26],
    {
        let uuid = EFI_GUID {
            data1: read_le32(t, 8),
            data2: read_le16(t, 12),
            data3: read_le16(t, 14),
            data4: [t[16], t[17], t[18], t[19], t[20], t[21], t[22], t[23]],
        };
        assert(uuid.data4@ =~= t@.subrange(16, 24));
        SmbiosTableType1 {
            header: parse_header(t),
            manufacturer: t[4],
            product_name: t[5],
            version: t[6],
            serial_number: t[7],
            uuid,
            wake_up_type: t[24],
            sku_number: t[25],
            family: t[26],
        }
    }
}

impl SmbiosTableType2 {
    /// Decodes the structure from its formatted area.
    pub fn parse(t: &[u8]) -> (r: SmbiosTableType2)
        requires
            t@.len() >= 8,
        ensures
            r.header.type_ == t@[0] && r.header.length == t@[1],
            r.manufacturer == t@[4],
            r.product_name == t@[5],
            r.version == t@[6],
            r.serial_number == t@[7],
    {
        SmbiosTableType2 {
            header: parse_header(t),
            manufacturer: t[4],
            product_name: t[5],
            version: t[6],
            serial_number: t[7],
        }
    }
}

impl SmbiosTableType3 {
    /// Decodes the structure from its formatted area.
    pub fn parse(t: &[u8]) -> (r: SmbiosTableType3)
        requires
            t@.len() >= 9,
        ensures
            r.header.type_ == t@[0] && r.header.length == t@[1],
            r.manufacturer == t@[4],
            r.type_ == t@[5],
            r.version == t@[6],
            r.serial_number == t@[7],
            r.asset_tag_number == t@[8],
    {
        SmbiosTableType3 {
            header: parse_header(t),
            manufacturer: t[4],
            type_: t[5],
            version: t[6],
            serial_number: t[7],
            asset_tag_number: t[8],
        }
    }
}

/// Index of the first NUL byte at or after `from`, or `s.len()`.
pub open spec fn next_nul(s: Seq<u8>, from: int) -> int
    decreases s.len() - from,
{
    if from >= s.len() {
        s.len() as int
    } else if s[from] == 0 {
        from
    } else {
        next_nul(s, from + 1)
    }
}

/// Start of the `k`-th NUL-separated piece of `s`, if there are that many.
pub open spec fn piece_start(s: Seq<u8>, k: nat) -> Option<int>
    decreases k,
{
    if k == 0 {
        Some(0)
    } else {
        match piece_start(s, (k - 1) as nat) {
            Some(st) => {
                let e = next_nul(s, st);
                if e < s.len() {
                    Some(e + 1)
                } else {
                    None
                }
            },
            None => None,
        }
    }
}

/// The `k`-th NUL-separated piece of `s` (counting from zero).
pub open spec fn nul_piece(s: Seq<u8>, k: nat) -> Option<Seq<u8>> {
    match piece_start(s, k) {
        Some(st) => Some(s.subrange(st, next_nul(s, st))),
        None => None,
    }
}

proof fn lemma_next_nul_bounds(s: Seq<u8>, from: int)
    requires
        0 <= from <= s.len(),
    ensures
        from <= next_nul(s, from) <= s.len(),
        forall|j: int| from <= j < next_nul(s, from) ==> s[j] != 0,
        next_nul(s, from) < s.len() ==> s[next_nul(s, from)] == 0,
    decreases s.len() - from,
{
    if from < s.len() && s[from] != 0 {
        lemma_next_nul_bounds(s, from + 1);
    }
}

proof fn lemma_piece_start_bounds(s: Seq<u8>, k: nat)
    ensures
        piece_start(s, k) matches Some(st) ==> 0 <= st <= s.len(),
    decreases k,
{
    if k > 0 {
        lemma_piece_start_bounds(s, (k - 1) as nat);
        if let Some(st) = piece_start(s, (k - 1) as nat) {
            lemma_next_nul_bounds(s, st);
        }
    }
}

fn find_nul(s: &[u8], from: usize) -> (r: usize)
    requires
        from <= s@.len(),
    ensures
        r == next_nul(s@, from as int),
{
    let mut i = from;
    while i < s.len() && s[i] != 0
        invariant
            from <= i <= s@.len(),
            next_nul(s@, from as int) == next_nul(s@, i as int),
        decreases s@.len() - i,
    {
        i += 1;
    }
    i
}

impl<'s> SmbiosTable<'s> {
    /// The `i`-th string of the structure (strings are numbered from 1).
    pub fn get_string(&self, i: usize) -> (r: Option<&'s [u8]>)
        ensures
            i < 1 ==> r is None,
            i >= 1 ==> match nul_piece(self.strings@, (i - 1) as nat) {
                Some(p) => r matches Some(x) && x@ == p,
                None => r is None,
            },
    {
        if i < 1 {
            return None;
        }
        let s = self.strings;
        let mut start: usize = 0;
        let mut k: usize = 0;
        while k < i - 1
            invariant
                s@ == self.strings@,
                k <= i - 1,
                piece_start(s@, k as nat) == Some(start as int),
                start <= s@.len(),
            decreases i - 1 - k,
        {
            let e = find_nul(s, start);
            proof {
                lemma_next_nul_bounds(s@, start as int);
            }
            if e >= s.len() {
                proof {
                    assert(piece_start(s@, (k + 1) as nat) is None);
                    lemma_no_more_pieces(s@, (k + 1) as nat, (i - 1) as nat);
                    assert(piece_start(s@, (i - 1) as nat) is None);
                    assert(nul_piece(s@, (i - 1) as nat) is None);
                }
                return None;
            }
            start = e + 1;
            k += 1;
        }
        let e = find_nul(s, start);
        proof {
            lemma_next_nul_bounds(s@, start as int);
        }
        Some(&s[start..e])
    }
}

proof fn lemma_no_more_pieces(s: Seq<u8>, k: nat, m: nat)
    requires
        piece_start(s, k) is None,
        k <= m,
    ensures
        piece_start(s, m) is None,
    decreases m - k,
{
    if k < m {
        lemma_no_more_pieces(s, k, (m - 1) as nat);
    }
}

/// Outcome of scanning SMBIOS structures for a type.
pub enum SmbiosScan {
    /// A matching structure at `start` of `len` bytes whose string set
    /// spans `strings_len` bytes after it.
    Found { start: int, len: int, strings_len: int },
    /// The end-of-table structure came first.
    NotFound,
    /// Malformed data.
    Invalid,
}

/// The index of the first `\0\0` in `s` at or after `from`, if any.
pub open spec fn double_nul_from(s: Seq<u8>, from: int) -> Option<int>
    decreases s.len() - from,
{
    if from < 0 || from + 2 > s.len() {
        None
    } else if s[from] == 0 && s[from + 1] == 0 {
        Some(from)
    } else {
        double_nul_from(s, from + 1)
    }
}

/// The index of the first `\0\0` in `s`, if any.
pub open spec fn first_double_nul(s: Seq<u8>) -> Option<int> {
    double_nul_from(s, 0)
}

proof fn lemma_double_nul_from(s: Seq<u8>, from: int)
    requires
        0 <= from,
    ensures
        double_nul_from(s, from) matches Some(i) ==> from <= i && occurs_at(s, seq![0u8, 0u8], i)
            && forall|j: int| from <= j < i ==> !occurs_at(s, seq![0u8, 0u8], j),
        double_nul_from(s, from) is None ==> forall|j: int|
            from <= j ==> !occurs_at(s, seq![0u8, 0u8], j),
    decreases s.len() - from,
{
    if from + 2 <= s.len() {
        if s[from] == 0 && s[from + 1] == 0 {
            assert(s.subrange(from, from + 2) =~= seq![0u8, 0u8]);
        } else {
            lemma_double_nul_from(s, from + 1);
            assert(!occurs_at(s, seq![0u8, 0u8], from)) by {
                if occurs_at(s, seq![0u8, 0u8], from) {
                    assert(s.subrange(from, from + 2)[0] == 0);
                    assert(s.subrange(from, from + 2)[1] == 0);
                }
            }
        }
    }
}

/// Scans the structures of `s` starting at `pos` for one of type `type_`
/// whose formatted area holds at least `min_len` bytes.
pub open spec fn smbios_scan(s: Seq<u8>, pos: int, type_: u8, min_len: int) -> SmbiosScan
    decreases s.len() - pos,
{
    if pos < 0 || pos + 4 > s.len() {
        SmbiosScan::Invalid
    } else {
        let len = s[pos + 1] as int;
        if len < 4 || pos + len > s.len() {
            SmbiosScan::Invalid
        } else {
            let rest = s.subrange(pos + len, s.len() as int);
            match first_double_nul(rest) {
                None => SmbiosScan::Invalid,
                Some(eos) => {
                    if s[pos] == 127 {
                        SmbiosScan::NotFound
                    } else if s[pos] == type_ {
                        if len < min_len {
                            SmbiosScan::Invalid
                        } else {
                            SmbiosScan::Found { start: pos, len, strings_len: eos }
                        }
                    } else if eos < 0 || eos + 2 > rest.len() {
                        SmbiosScan::Invalid
                    } else {
                        smbios_scan(s, pos + len + eos + 2, type_, min_len)
                    }
                },
            }
        }
    }
}

/// A structure found by the scan lies inside `s`, at or after `pos`, with a
/// formatted area of at least `min_len` bytes.
pub proof fn lemma_smbios_scan_found(s: Seq<u8>, pos: int, type_: u8, min_len: int)
    ensures
        smbios_scan(s, pos, type_, min_len) matches SmbiosScan::Found { start, len, strings_len }
            ==> pos <= start && 4 <= len && min_len <= len && 0 <= strings_len && start + len
            + strings_len <= s.len(),
    decreases s.len() - pos,
{
    if pos >= 0 && pos + 4 <= s.len() {
        let len = s[pos + 1] as int;
        if len >= 4 && pos + len <= s.len() {
            let rest = s.subrange(pos + len, s.len() as int);
            lemma_double_nul_from(rest, 0);
            if let Some(eos) = first_double_nul(rest) {
                if s[pos] != 127 && s[pos] != type_ && eos >= 0 && eos + 2 <= rest.len() {
                    lemma_smbios_scan_found(s, pos + len + eos + 2, type_, min_len);
                }
            }
        }
    }
}

/// Finds the first structure of type `type_` in the SMBIOS structure table
/// `s`, requiring its formatted area to hold at least `min_len` bytes.
pub fn find_smbios_table_by_type<'s>(s: &'s [u8], type_: u8, min_len: usize) -> (r: Result<
    SmbiosTable<'s>,
    SmbiosError,
>)
    ensures
        match smbios_scan(s@, 0, type_, min_len as int) {
            SmbiosScan::Found { start, len, strings_len } => r matches Ok(t) && t.table@
                == s@.subrange(start, start + len) && t.strings@ == s@.subrange(
                start + len,
                start + len + strings_len,
            ),
            SmbiosScan::NotFound => r == Err::<SmbiosTable, SmbiosError>(
                SmbiosError::TableNotFound,
            ),
            SmbiosScan::Invalid => r == Err::<SmbiosTable, SmbiosError>(SmbiosError::InvalidTable),
        },
        r matches Ok(t) ==> t.table@.len() >= min_len,
{
    let mut pos: usize = 0;
    let n = s.len();
    let nn: [u8; 2] = [0, 0];
    loop
        invariant
            n == s@.len(),
            pos <= n,
            smbios_scan(s@, 0, type_, min_len as int) == smbios_scan(
                s@,
                pos as int,
                type_,
                min_len as int,
            ),
            nn@ == seq![0u8, 0u8],
        decreases n - pos,
    {
        if n - pos < 4 {
            return Err(SmbiosError::InvalidTable);
        }
        let len = s[pos + 1] as usize;
        if len < SMBIOS_HEADER_SIZE || len > n - pos {
            return Err(SmbiosError::InvalidTable);
        }
        let rest = &s[pos + len..n];
        let eos = match find_byte_sequence(rest, &nn) {
            Some(e) => e,
            None => {
                proof {
                    lemma_double_nul_from(rest@, 0);
                    if let Some(c) = first_double_nul(rest@) {
                        assert(occurs_at(rest@, seq![0u8, 0u8], c));
                    }
                }
                return Err(SmbiosError::InvalidTable);
            },
        };
        proof {
            lemma_double_nul_from(rest@, 0);
            let fd = first_double_nul(rest@);
            if fd is None {
                assert(!occurs_at(rest@, seq![0u8, 0u8], eos as int));
            }
            let c = fd->0;
            if c < eos {
                assert(!occurs_at(rest@, seq![0u8, 0u8], c));
            } else if c > eos {
                assert(!occurs_at(rest@, seq![0u8, 0u8], eos as int));
            }
            assert(c == eos);
        }
        let t = s[pos];
        if t == SMBIOS_TYPE_END_OF_TABLE {
            return Err(SmbiosError::TableNotFound);
        } else if t == type_ {
            if len < min_len {
                return Err(SmbiosError::InvalidTable);
            }
            return Ok(SmbiosTable { table: &s[pos..pos + len], strings: &rest[0..eos] });
        }
        pos = pos + len + eos + 2;
    }
}

} // verus!
