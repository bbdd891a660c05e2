//! The binary CHID mapping format, which associates CHIDs with a device
//! tree (or firmware) to use on matching hardware.
//!
//! The data is a sequence of entries, each a 20-byte header (a descriptor
//! whose upper 4 bits are the entry type and lower 28 bits its total length,
//! then the CHID) and a body, ended by an all-zero header. Strings are
//! NUL-terminated UTF-8 stored after the entries and referred to by their
//! offset from the start of the data (0 meaning absent).
use vstd::prelude::*;
use vstd::string::{StringExecFns, StringSliceAdditionalSpecFns};
use vstd::utf8::{decode_utf8, encode_scalar, encode_utf8, encode_utf8_decode_utf8, encode_utf8_valid_utf8, valid_utf8};
use crate::bytes::{bytes_eq, le16, le16_bytes, le32, le32_bytes, lemma_le16_roundtrip, lemma_le32_roundtrip, push_all, push_le32, push_zeros, read_le32};
use crate::guid::{Guid, guid_le_at, guid_le_bytes};
use crate::smbios::next_nul;

verus! {

/// Size of an entry header (descriptor and CHID).
pub const CHID_MAPPING_HEADER_SIZE: usize = 20;

/// Entry type of a device tree mapping.
pub const CHID_MAPPING_DESCRIPTOR_DEVICE_TREE: u32 = 1;

/// Entry type of a UEFI firmware mapping.
pub const CHID_MAPPING_DESCRIPTOR_UEFI_FW: u32 = 2;

/// One CHID mapping.
#[derive(Clone, Debug, PartialEq, Eq)]
pub enum ChidMapping<'s> {
    DeviceTree { chid: Guid, name: Option<&'s str>, compatible: Option<&'s str> },
    UefiFw { chid: Guid, name: Option<&'s str>, fwid: Option<&'s str> },
    Unknown { kind: u32, chid: Guid, body: &'s [u8] },
}

/// Error returned for malformed CHID mapping data.
#[derive(Clone, Copy, Default, Debug, PartialEq, Eq, Structural)]
pub struct MalformedChidMappings;

impl MalformedChidMappings {
    /// Human-readable description of the error.
    pub fn to_string(&self) -> (s: String)
        ensures
            s@ == "malformed CHID mappings data"@,
    {
        String::from_str("malformed CHID mappings data")
    }
}

/// The text of an optional string slice.
pub open spec fn opt_str_view(o: Option<&str>) -> Option<Seq<char>> {
    match o {
        Some(s) => Some(s@),
        None => None,
    }
}

/// The string at offset `off` of `d`: `Some(None)` for offset 0,
/// `Some(Some(text))` for a NUL-terminated UTF-8 string, `None` if the
/// offset is past the data, the string is unterminated or not UTF-8.
pub open spec fn string_at(d: Seq<u8>, off: int) -> Option<Option<Seq<char>>> {
    if off == 0 {
        Some(None)
    } else if off > d.len() || next_nul(d, off) >= d.len() {
        None
    } else {
        let b = d.subrange(off, next_nul(d, off));
        if valid_utf8(b) {
            Some(Some(decode_utf8(b)))
        } else {
            None
        }
    }
}

/// What the data holds at an entry position.
pub enum EntryStatus {
    /// The terminating header.
    End,
    /// A malformed or truncated entry.
    Malformed,
    /// A well-formed entry of the given total length.
    Entry(int),
}

/// The status of the entry at offset `pos` of `d`.
pub open spec fn entry_status(d: Seq<u8>, pos: int) -> EntryStatus {
    if pos < 0 || pos + 20 > d.len() {
        EntryStatus::Malformed
    } else {
        let desc = le32(d, pos);
        let n = desc % 0x1000_0000;
        let kind = desc / 0x1000_0000;
        if desc == 0 {
            EntryStatus::End
        } else if n < 20 || pos + n > d.len() {
            EntryStatus::Malformed
        } else if kind == 1 || kind == 2 {
            if n < 28 {
                EntryStatus::Malformed
            } else if string_at(d, le32(d, pos + 20)) is None || string_at(d, le32(d, pos + 24)) is None {
                EntryStatus::Malformed
            } else {
                EntryStatus::Entry(n)
            }
        } else {
            EntryStatus::Entry(n)
        }
    }
}

/// `m` is the mapping decoded from the well-formed entry at `pos` of `d`.
pub open spec fn mapping_at(m: ChidMapping, d: Seq<u8>, pos: int) -> bool {
    let desc = le32(d, pos);
    let n = desc % 0x1000_0000;
    let kind = desc / 0x1000_0000;
    match m {
        ChidMapping::DeviceTree { chid, name, compatible } => {
            &&& kind == 1
            &&& guid_le_at(chid, d, pos + 4)
            &&& opt_str_view(name) == string_at(d, le32(d, pos + 20))->0
            &&& opt_str_view(compatible) == string_at(d, le32(d, pos + 24))->0
        },
        ChidMapping::UefiFw { chid, name, fwid } => {
            &&& kind == 2
            &&& guid_le_at(chid, d, pos + 4)
            &&& opt_str_view(name) == string_at(d, le32(d, pos + 20))->0
            &&& opt_str_view(fwid) == string_at(d, le32(d, pos + 24))->0
        },
        ChidMapping::Unknown { kind: k, chid, body } => {
            &&& k == kind
            &&& kind != 1 && kind != 2
            &&& guid_le_at(chid, d, pos + 4)
            &&& body@ == d.subrange(pos + 20, pos + n)
        },
    }
}

/// The positions of the entries of `d` from `pos` up to the terminator;
/// `None` if a malformed entry comes first.
pub open spec fn entry_positions(d: Seq<u8>, pos: int) -> Option<Seq<int>>
    decreases d.len() - pos,
{
    match entry_status(d, pos) {
        EntryStatus::Malformed => None,
        EntryStatus::End => Some(Seq::empty()),
        EntryStatus::Entry(n) => if n > 0 && pos + n <= d.len() {
            match entry_positions(d, pos + n) {
                Some(rest) => Some(seq![pos] + rest),
                None => None,
            }
        } else {
            None
        },
    }
}

/// An iterator over the mappings of CHID mapping data.
pub struct ChidMappingIterator<'s> {
    data: &'s [u8],
    pos: usize,
}

impl<'s> ChidMappingIterator<'s> {
    #[verifier::type_invariant]
    spec fn inv(&self) -> bool {
        self.pos <= self.data@.len()
    }

    /// The data being iterated over.
    pub closed spec fn data(&self) -> Seq<u8> {
        self.data@
    }

    /// The offset of the next entry.
    pub closed spec fn position(&self) -> int {
        self.pos as int
    }

    /// An iterator positioned at the first entry of `data`.
    pub fn new(data: &'s [u8]) -> (it: Self)
        ensures
            it.data() == data@,
            it.position() == 0,
    {
        ChidMappingIterator { data, pos: 0 }
    }

    fn extract_string(&self, offset: usize) -> (r: Result<Option<&'s str>, MalformedChidMappings>)
        ensures
            match string_at(self.data(), offset as int) {
                Some(v) => r matches Ok(x) && opt_str_view(x) == v,
                None => r is Err,
            },
    {
        if offset == 0 {
            return Ok(None);
        }
        let d = self.data;
        if offset > d.len() {
            return Err(MalformedChidMappings);
        }
        let mut e = offset;
        while e < d.len() && d[e] != 0
            invariant
                offset <= e <= d@.len(),
                next_nul(d@, offset as int) == next_nul(d@, e as int),
            decreases d@.len() - e,
        {
            e += 1;
        }
        if e >= d.len() {
            return Err(MalformedChidMappings);
        }
        let b = &d[offset..e];
        match crate::chid::utf8_str(b) {
            Some(x) => {
                proof {
                    encode_utf8_decode_utf8(x@);
                }
                Ok(Some(x))
            },
            None => Err(MalformedChidMappings),
        }
    }

    /// Decodes the entry at the current position and advances past it;
    /// `Ok(None)` at the terminator.
    pub fn next_chid_mapping(&mut self) -> (r: Result<Option<ChidMapping<'s>>, MalformedChidMappings>)
        ensures
            final(self).data() == old(self).data(),
            match entry_status(old(self).data(), old(self).position()) {
                EntryStatus::Malformed => r is Err && final(self).position() == old(self).position(),
                EntryStatus::End => r matches Ok(None) && final(self).position()
                    == old(self).position(),
                EntryStatus::Entry(n) => r matches Ok(Some(m)) && mapping_at(
                    m,
                    old(self).data(),
                    old(self).position(),
                ) && final(self).position() == old(self).position() + n,
            },
    {
        proof {
            use_type_invariant(&*self);
        }
        let d = self.data;
        let pos = self.pos;
        if d.len() - pos < CHID_MAPPING_HEADER_SIZE {
            return Err(MalformedChidMappings);
        }
        let desc = read_le32(d, pos);
        if desc == 0 {
            return Ok(None);
        }
        let chid = Guid::read_le(d, pos + 4);
        let entry_length = (desc % 0x1000_0000) as usize;
        let kind = desc / 0x1000_0000;
        if entry_length < CHID_MAPPING_HEADER_SIZE || entry_length > d.len() - pos {
            return Err(MalformedChidMappings);
        }
        let mapping = if kind == CHID_MAPPING_DESCRIPTOR_DEVICE_TREE || kind
            == CHID_MAPPING_DESCRIPTOR_UEFI_FW {
            if entry_length < CHID_MAPPING_HEADER_SIZE + 8 {
                return Err(MalformedChidMappings);
            }
            let name = self.extract_string(read_le32(d, pos + 20) as usize)?;
            let other = self.extract_string(read_le32(d, pos + 24) as usize)?;
            if kind == CHID_MAPPING_DESCRIPTOR_DEVICE_TREE {
                ChidMapping::DeviceTree { chid, name, compatible: other }
            } else {
                ChidMapping::UefiFw { chid, name, fwid: other }
            }
        } else {
            ChidMapping::Unknown { kind, chid, body: &d[pos + 20..pos + entry_length] }
        };
        self.pos = pos + entry_length;
        Ok(Some(mapping))
    }

    /// The next mapping, an error for malformed data, or `None` at the
    /// terminator.
    pub fn next(&mut self) -> (r: Option<Result<ChidMapping<'s>, MalformedChidMappings>>)
        ensures
            final(self).data() == old(self).data(),
            match entry_status(old(self).data(), old(self).position()) {
                EntryStatus::Malformed => r matches Some(Err(_)),
                EntryStatus::End => r is None,
                EntryStatus::Entry(n) => r matches Some(Ok(m)) && mapping_at(
                    m,
                    old(self).data(),
                    old(self).position(),
                ) && final(self).position() == old(self).position() + n,
            },
    {
        match self.next_chid_mapping() {
            Ok(Some(m)) => Some(Ok(m)),
            Ok(None) => None,
            Err(e) => Some(Err(e)),
        }
    }
}

impl<'s> From<&'s [u8]> for ChidMappingIterator<'s> {
    fn from(data: &'s [u8]) -> (it: Self) {
        ChidMappingIterator { data, pos: 0 }
    }
}

impl<'s> vstd::std_specs::convert::FromSpecImpl<&'s [u8]> for ChidMappingIterator<'s> {
    open spec fn obeys_from_spec() -> bool {
        true
    }

    closed spec fn from_spec(data: &'s [u8]) -> Self {
        ChidMappingIterator { data, pos: 0 }
    }
}

/// Decodes all mappings of `data` up to the terminator.
pub fn parse_chid_mappings<'s>(data: &'s [u8]) -> (r: Result<Vec<ChidMapping<'s>>, MalformedChidMappings>)
    ensures
        match entry_positions(data@, 0) {
            None => r is Err,
            Some(ps) => r matches Ok(v) && v@.len() == ps.len() && forall|i: int|
                0 <= i < ps.len() ==> mapping_at(#[trigger] v@[i], data@, ps[i]),
        },
{
    let mut it = ChidMappingIterator::new(data);
    let mut out: Vec<ChidMapping<'s>> = Vec::new();
    let ghost mut seen: Seq<int> = Seq::empty();
    loop
        invariant
            it.data() == data@,
            0 <= it.position() <= data@.len(),
            entry_positions(data@, 0) == match entry_positions(data@, it.position()) {
                Some(rest) => Some(seen + rest),
                None => None,
            },
            out@.len() == seen.len(),
            forall|i: int| 0 <= i < seen.len() ==> mapping_at(#[trigger] out@[i], data@, seen[i]),
        decreases data@.len() - it.position(),
    {
        let ghost p = it.position();
        proof {
            use_type_invariant(&it);
        }
        match it.next_chid_mapping() {
            Err(e) => {
                return Err(e);
            },
            Ok(None) => {
                assert(seen + Seq::<int>::empty() =~= seen);
                return Ok(out);
            },
            Ok(Some(m)) => {
                proof {
                    use_type_invariant(&it);
                    assert(seen + (seq![p] + entry_positions(data@, it.position()).unwrap_or(
                        Seq::empty(),
                    )) =~= seen.push(p) + entry_positions(data@, it.position()).unwrap_or(
                        Seq::empty(),
                    ));
                    seen = seen.push(p);
                }
                out.push(m);
            },
        }
    }
}

impl<'s> ChidMapping<'s> {
    /// The CHID the mapping applies to.
    pub fn chid(&self) -> (g: &Guid)
        ensures
            *g == chid_of(*self),
    {
        match self {
            ChidMapping::DeviceTree { chid, .. } => chid,
            ChidMapping::UefiFw { chid, .. } => chid,
            ChidMapping::Unknown { chid, .. } => chid,
        }
    }

    fn serialized_kind(&self) -> (k: u32)
        ensures
            k == kind_of(*self),
    {
        match self {
            ChidMapping::DeviceTree { .. } => CHID_MAPPING_DESCRIPTOR_DEVICE_TREE,
            ChidMapping::UefiFw { .. } => CHID_MAPPING_DESCRIPTOR_UEFI_FW,
            ChidMapping::Unknown { kind, .. } => *kind,
        }
    }

    fn serialized_size(&self) -> (n: usize)
        requires
            entry_size(*self) <= usize::MAX,
        ensures
            n == entry_size(*self),
    {
        CHID_MAPPING_HEADER_SIZE + match self {
            ChidMapping::DeviceTree { .. } => 8,
            ChidMapping::UefiFw { .. } => 8,
            ChidMapping::Unknown { body, .. } => body.len(),
        }
    }
}

/// The CHID of a mapping.
pub open spec fn chid_of(m: ChidMapping) -> Guid {
    match m {
        ChidMapping::DeviceTree { chid, .. } => chid,
        ChidMapping::UefiFw { chid, .. } => chid,
        ChidMapping::Unknown { chid, .. } => chid,
    }
}

/// The entry type written for a mapping.
pub open spec fn kind_of(m: ChidMapping) -> u32 {
    match m {
        ChidMapping::DeviceTree { .. } => 1,
        ChidMapping::UefiFw { .. } => 2,
        ChidMapping::Unknown { kind, .. } => kind,
    }
}

/// The size of the entry written for a mapping.
pub open spec fn entry_size(m: ChidMapping) -> int {
    20 + match m {
        ChidMapping::DeviceTree { .. } => 8,
        ChidMapping::UefiFw { .. } => 8,
        ChidMapping::Unknown { body, .. } => body@.len() as int,
    }
}

/// The total size of the entries written for `ms`.
pub open spec fn entries_size(ms: Seq<ChidMapping>) -> int
    decreases ms.len(),
{
    if ms.len() == 0 {
        0
    } else {
        entries_size(ms.drop_last()) + entry_size(ms.last())
    }
}

/// The strings a mapping refers to, in the order they are written.
pub open spec fn mapping_strs(m: ChidMapping) -> Seq<Option<Seq<char>>> {
    match m {
        ChidMapping::DeviceTree { name, compatible, .. } => seq![
            opt_str_view(name),
            opt_str_view(compatible),
        ],
        ChidMapping::UefiFw { name, fwid, .. } => seq![opt_str_view(name), opt_str_view(fwid)],
        ChidMapping::Unknown { .. } => Seq::empty(),
    }
}

/// The strings all of `ms` refer to, in order.
pub open spec fn all_strs(ms: Seq<ChidMapping>) -> Seq<Option<Seq<char>>>
    decreases ms.len(),
{
    if ms.len() == 0 {
        Seq::empty()
    } else {
        all_strs(ms.drop_last()) + mapping_strs(ms.last())
    }
}

/// `pool` with `s` appended unless absent or already there.
pub open spec fn pool_add(pool: Seq<Seq<char>>, s: Option<Seq<char>>) -> Seq<Seq<char>> {
    match s {
        Some(x) => if pool.contains(x) {
            pool
        } else {
            pool.push(x)
        },
        None => pool,
    }
}

/// The distinct present strings of `ss`, in order of first occurrence.
pub open spec fn pool_of(ss: Seq<Option<Seq<char>>>) -> Seq<Seq<char>>
    decreases ss.len(),
{
    if ss.len() == 0 {
        Seq::empty()
    } else {
        pool_add(pool_of(ss.drop_last()), ss.last())
    }
}

/// The string table: each string of `pool` in UTF-8 followed by a NUL.
pub open spec fn pool_bytes(pool: Seq<Seq<char>>) -> Seq<u8>
    decreases pool.len(),
{
    if pool.len() == 0 {
        Seq::empty()
    } else {
        pool_bytes(pool.drop_last()) + vstd::utf8::encode_utf8(pool.last()) + seq![0u8]
    }
}

/// The index of the first occurrence of `x` in `pool`.
pub open spec fn first_index(pool: Seq<Seq<char>>, x: Seq<char>) -> int
    decreases pool.len(),
{
    if pool.len() == 0 || pool[0] == x {
        0
    } else {
        1 + first_index(pool.drop_first(), x)
    }
}

/// The offset written for an optional string when the string table
/// `pool` starts at `base`: 0 when absent.
pub open spec fn string_offset(pool: Seq<Seq<char>>, base: int, s: Option<Seq<char>>) -> u32 {
    match s {
        Some(x) => (base + pool_bytes(pool.take(first_index(pool, x))).len()) as u32,
        None => 0,
    }
}

/// The bytes of the entry written for `m`.
pub open spec fn entry_bytes(m: ChidMapping, pool: Seq<Seq<char>>, base: int) -> Seq<u8> {
    let desc = (kind_of(m) << 28u32) | (entry_size(m) as u32);
    le32_bytes(desc as int) + guid_le_bytes(chid_of(m)) + match m {
        ChidMapping::DeviceTree { name, compatible, .. } => le32_bytes(
            string_offset(pool, base, opt_str_view(name)) as int,
        ) + le32_bytes(string_offset(pool, base, opt_str_view(compatible)) as int),
        ChidMapping::UefiFw { name, fwid, .. } => le32_bytes(
            string_offset(pool, base, opt_str_view(name)) as int,
        ) + le32_bytes(string_offset(pool, base, opt_str_view(fwid)) as int),
        ChidMapping::Unknown { body, .. } => body@,
    }
}

/// The bytes of the entries written for `ms`.
pub open spec fn entries_bytes(ms: Seq<ChidMapping>, pool: Seq<Seq<char>>, base: int) -> Seq<u8>
    decreases ms.len(),
{
    if ms.len() == 0 {
        Seq::empty()
    } else {
        entries_bytes(ms.drop_last(), pool, base) + entry_bytes(ms.last(), pool, base)
    }
}

/// The serialized form of `ms`: the entries, a 28-byte zero terminator
/// entry and the string table of the distinct strings, each written once.
pub open spec fn serialized(ms: Seq<ChidMapping>) -> Seq<u8> {
    let pool = pool_of(all_strs(ms));
    entries_bytes(ms, pool, entries_size(ms) + 28) + Seq::new(28, |_i: int| 0u8) + pool_bytes(pool)
}

proof fn lemma_entries_size_nonneg(ms: Seq<ChidMapping>)
    ensures
        entries_size(ms) >= 0,
    decreases ms.len(),
{
    if ms.len() > 0 {
        lemma_entries_size_nonneg(ms.drop_last());
    }
}

proof fn lemma_entries_size_prefix(ms: Seq<ChidMapping>, i: int)
    requires
        0 <= i <= ms.len(),
    ensures
        entries_size(ms.take(i)) <= entries_size(ms),
        i < ms.len() ==> entries_size(ms.take(i + 1)) == entries_size(ms.take(i)) + entry_size(
            ms[i],
        ),
        entry_size(ms[i]) > 0,
    decreases ms.len(),
{
    if i < ms.len() {
        assert(ms.take(i + 1).drop_last() =~= ms.take(i));
    }
    if ms.len() > 0 {
        if i == ms.len() {
            assert(ms.take(i) =~= ms);
        } else {
            lemma_entries_size_prefix(ms.drop_last(), i);
            assert(ms.drop_last().take(i) =~= ms.take(i));
        }
    }
}

proof fn lemma_all_strs_step(ms: Seq<ChidMapping>, i: int)
    requires
        0 <= i < ms.len(),
    ensures
        all_strs(ms.take(i + 1)) == all_strs(ms.take(i)) + mapping_strs(ms[i]),
        entries_bytes(ms.take(i + 1), pool_of(all_strs(ms)), entries_size(ms) + 28)
            == entries_bytes(ms.take(i), pool_of(all_strs(ms)), entries_size(ms) + 28)
            + entry_bytes(ms[i], pool_of(all_strs(ms)), entries_size(ms) + 28),
{
    assert(ms.take(i + 1).drop_last() =~= ms.take(i));
}

proof fn lemma_pool_prefix(ss: Seq<Option<Seq<char>>>, k: int)
    requires
        0 <= k <= ss.len(),
    ensures
        pool_of(ss.take(k)).len() <= pool_of(ss).len(),
        pool_of(ss).take(pool_of(ss.take(k)).len() as int) == pool_of(ss.take(k)),
    decreases ss.len(),
{
    if k == ss.len() {
        assert(ss.take(k) =~= ss);
        assert(pool_of(ss).take(pool_of(ss).len() as int) =~= pool_of(ss));
    } else {
        lemma_pool_prefix(ss.drop_last(), k);
        assert(ss.drop_last().take(k) =~= ss.take(k));
        let p = pool_of(ss.drop_last());
        let q = pool_of(ss.take(k));
        assert(pool_of(ss).take(q.len() as int) =~= p.take(q.len() as int));
    }
}

/// No string occurs twice in `pool`.
pub open spec fn no_dup(pool: Seq<Seq<char>>) -> bool {
    forall|i: int, j: int| 0 <= i < j < pool.len() ==> pool[i] != pool[j]
}

proof fn lemma_pool_no_dup(ss: Seq<Option<Seq<char>>>)
    ensures
        no_dup(pool_of(ss)),
    decreases ss.len(),
{
    if ss.len() > 0 {
        lemma_pool_no_dup(ss.drop_last());
        let p = pool_of(ss.drop_last());
        if let Some(x) = ss.last() {
            if !p.contains(x) {
                assert forall|i: int, j: int| 0 <= i < j < p.push(x).len() implies p.push(x)[i]
                    != p.push(x)[j] by {
                    if j == p.len() {
                        assert(p[i] == p.push(x)[i]);
                    }
                }
            }
        }
    }
}

proof fn lemma_first_index(pool: Seq<Seq<char>>, j: int)
    requires
        no_dup(pool),
        0 <= j < pool.len(),
    ensures
        first_index(pool, pool[j]) == j,
    decreases j,
{
    if j > 0 {
        assert(pool[0] != pool[j]);
        let t = pool.drop_first();
        assert(no_dup(t)) by {
            assert forall|a: int, b: int| 0 <= a < b < t.len() implies t[a] != t[b] by {
                assert(pool[a + 1] != pool[b + 1]);
            }
        }
        lemma_first_index(t, j - 1);
    }
}

proof fn lemma_first_index_absent(pool: Seq<Seq<char>>, x: Seq<char>)
    requires
        !pool.contains(x),
    ensures
        first_index(pool, x) == pool.len(),
    decreases pool.len(),
{
    if pool.len() > 0 {
        assert(pool[0] != x);
        assert(!pool.drop_first().contains(x)) by {
            if pool.drop_first().contains(x) {
                let k = choose|k: int| 0 <= k < pool.drop_first().len() && pool.drop_first()[k] == x;
                assert(pool[k + 1] == x);
            }
        }
        lemma_first_index_absent(pool.drop_first(), x);
    }
}

proof fn lemma_pool_bytes_take(pool: Seq<Seq<char>>, k: int)
    requires
        0 <= k <= pool.len(),
    ensures
        pool_bytes(pool.take(k)).len() <= pool_bytes(pool).len(),
    decreases pool.len(),
{
    if k < pool.len() {
        lemma_pool_bytes_take(pool.drop_last(), k);
        assert(pool.drop_last().take(k) =~= pool.take(k));
    } else {
        assert(pool.take(k) =~= pool);
    }
}

/// The offset of a string already in a prefix of the final pool is the
/// same computed in either.
proof fn lemma_offset_prefix(q: Seq<Seq<char>>, p: Seq<Seq<char>>, base: int, s: Option<Seq<char>>)
    requires
        q.len() <= p.len(),
        p.take(q.len() as int) == q,
        no_dup(p),
        s matches Some(x) ==> q.contains(x),
    ensures
        string_offset(q, base, s) == string_offset(p, base, s),
{
    if let Some(x) = s {
        let j = choose|j: int| 0 <= j < q.len() && q[j] == x;
        assert(no_dup(q)) by {
            assert forall|a: int, b: int| 0 <= a < b < q.len() implies q[a] != q[b] by {
                assert(q[a] == p[a] && q[b] == p[b]);
            }
        }
        lemma_first_index(q, j);
        assert(p[j] == x);
        lemma_first_index(p, j);
        assert(p.take(j) =~= q.take(j));
    }
}

/// The running state of the string table while serializing: `table` pairs
/// each string of `pool` with its offset, and `strings` holds its bytes.
spec fn table_ok(table: Seq<(&str, u32)>, strings: Seq<u8>, pool: Seq<Seq<char>>, base: int) -> bool {
    &&& table.len() == pool.len()
    &&& strings == pool_bytes(pool)
    &&& no_dup(pool)
    &&& forall|j: int|
        0 <= j < table.len() ==> (#[trigger] table[j]).0@ == pool[j] && table[j].1 == (base
            + pool_bytes(pool.take(j)).len()) as u32
}

fn str_eq(a: &str, b: &str) -> (r: bool)
    ensures
        r == (a@ == b@),
{
    let r = bytes_eq(a.as_bytes(), b.as_bytes());
    proof {
        encode_utf8_decode_utf8(a@);
        encode_utf8_decode_utf8(b@);
    }
    r
}

fn serialize_string<'s>(
    strings: &mut Vec<u8>,
    table: &mut Vec<(&'s str, u32)>,
    base: usize,
    s: Option<&'s str>,
    Ghost(pool): Ghost<Seq<Seq<char>>>,
    Ghost(limit): Ghost<int>,
) -> (r: u32)
    requires
        table_ok(old(table)@, old(strings)@, pool, base as int),
        base + pool_bytes(pool_add(pool, opt_str_view(s))).len() <= limit,
        limit <= usize::MAX,
    ensures
        table_ok(final(table)@, final(strings)@, pool_add(pool, opt_str_view(s)), base as int),
        r == string_offset(pool_add(pool, opt_str_view(s)), base as int, opt_str_view(s)),
{
    let x = match s {
        None => {
            return 0;
        },
        Some(x) => x,
    };
    let mut j: usize = 0;
    while j < table.len()
        invariant
            table_ok(table@, strings@, pool, base as int),
            s == Some(x),
            j <= table@.len(),
            forall|k: int| 0 <= k < j ==> pool[k] != x@,
        decreases table@.len() - j,
    {
        if str_eq(table[j].0, x) {
            proof {
                assert(table@[j as int].0@ == pool[j as int]);
                assert(pool[j as int] == x@);
                lemma_first_index(pool, j as int);
                assert(pool.contains(x@));
                assert(opt_str_view(s) == Some(x@));
                assert(pool_add(pool, opt_str_view(s)) == pool);
            }
            return table[j].1;
        }
        j += 1;
    }
    proof {
        assert(!pool.contains(x@));
        let np = pool.push(x@);
        lemma_first_index_absent(pool, x@);
        assert forall|a: int, b: int| 0 <= a < b < np.len() implies np[a] != np[b] by {
            if b == pool.len() {
                assert(pool[a] == np[a]);
            }
        }
        lemma_first_index(np, pool.len() as int);
        assert(np.take(pool.len() as int) =~= pool);
        assert(np.drop_last() =~= pool);
    }
    let ghost np = pool.push(x@);
    let offset = base + strings.len();
    push_all(strings, x.as_bytes());
    strings.push(0);
    table.push((x, offset as u32));
    proof {
        assert(strings@ =~= pool_bytes(np));
        assert forall|k: int| 0 <= k < table@.len() implies (#[trigger] table@[k]).0@ == np[k]
            && table@[k].1 == (base + pool_bytes(np.take(k)).len()) as u32 by {
            if k < pool.len() {
                assert(np.take(k) =~= pool.take(k));
            }
        }
        assert forall|a: int, b: int| 0 <= a < b < np.len() implies np[a] != np[b] by {
            if b == pool.len() {
                assert(pool[a] == np[a]);
            }
        }
    }
    offset as u32
}

/// The string pool after adding the strings of `m`.
spec fn pool_after(pool: Seq<Seq<char>>, m: ChidMapping) -> Seq<Seq<char>> {
    match m {
        ChidMapping::DeviceTree { name, compatible, .. } => pool_add(
            pool_add(pool, opt_str_view(name)),
            opt_str_view(compatible),
        ),
        ChidMapping::UefiFw { name, fwid, .. } => pool_add(
            pool_add(pool, opt_str_view(name)),
            opt_str_view(fwid),
        ),
        ChidMapping::Unknown { .. } => pool,
    }
}

#[verifier::rlimit(40)]
proof fn lemma_pool_step(ms: Seq<ChidMapping>, i: int)
    requires
        0 <= i < ms.len(),
    ensures
        pool_of(all_strs(ms.take(i + 1))) == pool_after(pool_of(all_strs(ms.take(i))), ms[i]),
{
    lemma_all_strs_step(ms, i);
    let sa = all_strs(ms.take(i));
    match ms[i] {
        ChidMapping::Unknown { .. } => {
            assert(sa + mapping_strs(ms[i]) =~= sa);
        },
        _ => {
            let ss = mapping_strs(ms[i]);
            let sb = sa.push(ss[0]);
            assert(sa + ss =~= sb.push(ss[1]));
            assert(sb.push(ss[1]).drop_last() =~= sb);
            assert(sb.drop_last() =~= sa);
            assert(pool_of(sb) == pool_add(pool_of(sa), ss[0]));
            assert(pool_of(sb.push(ss[1])) == pool_add(pool_of(sb), ss[1]));
        },
    }
}

fn write_entry<'s>(
    out: &mut Vec<u8>,
    strings: &mut Vec<u8>,
    table: &mut Vec<(&'s str, u32)>,
    m: &ChidMapping<'s>,
    base: usize,
    Ghost(pool): Ghost<Seq<Seq<char>>>,
    Ghost(pool_all): Ghost<Seq<Seq<char>>>,
)
    requires
        table_ok(old(table)@, old(strings)@, pool, base as int),
        pool_after(pool, *m).len() <= pool_all.len(),
        pool_all.take(pool_after(pool, *m).len() as int) == pool_after(pool, *m),
        no_dup(pool_all),
        base + pool_bytes(pool_all).len() <= usize::MAX,
        entry_size(*m) <= usize::MAX,
    ensures
        table_ok(final(table)@, final(strings)@, pool_after(pool, *m), base as int),
        final(out)@ == old(out)@ + entry_bytes(*m, pool_all, base as int),
{
    let ghost limit = base + pool_bytes(pool_all).len();
    proof {
        lemma_pool_bytes_take(pool_all, pool_after(pool, *m).len() as int);
    }
    let desc = (m.serialized_kind() << 28u32) | (m.serialized_size() as u32);
    push_le32(out, desc);
    m.chid().push_le(out);
    match m {
        ChidMapping::DeviceTree { name, compatible: other, .. } | ChidMapping::UefiFw {
            name,
            fwid: other,
            ..
        } => {
            let ghost p1 = pool_add(pool, opt_str_view(*name));
            let ghost p2 = pool_add(p1, opt_str_view(*other));
            proof {
                assert(p2 == pool_after(pool, *m));
                lemma_pool_bytes_take(p2, p1.len() as int);
                assert(p2.take(p1.len() as int) =~= p1);
            }
            let a = serialize_string(strings, table, base, *name, Ghost(pool), Ghost(limit));
            let b = serialize_string(strings, table, base, *other, Ghost(p1), Ghost(limit));
            proof {
                assert(pool_all.take(p1.len() as int) =~= p1);
                lemma_offset_prefix(p1, pool_all, base as int, opt_str_view(*name));
                lemma_offset_prefix(p2, pool_all, base as int, opt_str_view(*other));
            }
            push_le32(out, a);
            push_le32(out, b);
        },
        ChidMapping::Unknown { body, .. } => {
            push_all(out, body);
        },
    }
    assert(final(out)@ =~= old(out)@ + entry_bytes(*m, pool_all, base as int));
}

/// The bytes that the strings of `ss` take when each is written out in
/// full with its NUL, repeats included.
pub open spec fn strs_total(ss: Seq<Option<Seq<char>>>) -> int
    decreases ss.len(),
{
    if ss.len() == 0 {
        0
    } else {
        strs_total(ss.drop_last()) + match ss.last() {
            Some(x) => vstd::utf8::encode_utf8(x).len() + 1,
            None => 0,
        }
    }
}

proof fn lemma_strs_total_add(a: Seq<Option<Seq<char>>>, b: Seq<Option<Seq<char>>>)
    ensures
        strs_total(a + b) == strs_total(a) + strs_total(b),
        strs_total(b) >= 0,
    decreases b.len(),
{
    if b.len() > 0 {
        lemma_strs_total_add(a, b.drop_last());
        assert((a + b).drop_last() =~= a + b.drop_last());
    }
}

proof fn lemma_pool_bytes_bound(ss: Seq<Option<Seq<char>>>)
    ensures
        pool_bytes(pool_of(ss)).len() <= strs_total(ss),
    decreases ss.len(),
{
    if ss.len() > 0 {
        lemma_pool_bytes_bound(ss.drop_last());
        let p = pool_of(ss.drop_last());
        if let Some(x) = ss.last() {
            if !p.contains(x) {
                assert(p.push(x).drop_last() =~= p);
            }
        }
    }
}

proof fn lemma_prefix_totals(ms: Seq<ChidMapping>, j: int, k: int)
    requires
        0 <= j <= k <= ms.len(),
    ensures
        entries_size(ms.take(j)) <= entries_size(ms.take(k)),
        strs_total(all_strs(ms.take(j))) <= strs_total(all_strs(ms.take(k))),
    decreases k - j,
{
    if j < k {
        lemma_prefix_totals(ms, j, k - 1);
        assert(ms.take(k).drop_last() =~= ms.take(k - 1));
        lemma_strs_total_add(all_strs(ms.take(k - 1)), mapping_strs(ms.take(k).last()));
        assert(entry_size(ms.take(k).last()) >= 0);
    }
}

/// Whether serializing `mappings` surely fits in memory: the entries, the
/// terminator and every string written in full stay within `usize`.
pub fn serialized_size_fits(mappings: &[ChidMapping]) -> (r: bool)
    ensures
        r == (entries_size(mappings@) + 28 + strs_total(all_strs(mappings@)) <= usize::MAX),
        r ==> entries_size(mappings@) + 28 + pool_bytes(pool_of(all_strs(mappings@))).len()
            <= usize::MAX,
{
    let ghost ms = mappings@;
    let mut total: u128 = 28;
    let mut i: usize = 0;
    while i < mappings.len()
        invariant
            i <= ms.len(),
            ms == mappings@,
            total == 28 + entries_size(ms.take(i as int)) + strs_total(all_strs(ms.take(i as int))),
            total <= usize::MAX,
        decreases ms.len() - i,
    {
        let m = &mappings[i];
        proof {
            assert(ms.take(i + 1).drop_last() =~= ms.take(i as int));
            assert(ms.take(i + 1).last() == *m);
            lemma_strs_total_add(all_strs(ms.take(i as int)), mapping_strs(*m));
        }
        let (size, a, b): (u128, Option<&str>, Option<&str>) = match m {
            ChidMapping::DeviceTree { name, compatible, .. } => (28, *name, *compatible),
            ChidMapping::UefiFw { name, fwid, .. } => (28, *name, *fwid),
            ChidMapping::Unknown { body, .. } => (20 + body.len() as u128, None, None),
        };
        let la: u128 = match a {
            Some(x) => x.as_bytes().len() as u128 + 1,
            None => 0,
        };
        let lb: u128 = match b {
            Some(x) => x.as_bytes().len() as u128 + 1,
            None => 0,
        };
        proof {
            let t = mapping_strs(*m);
            match *m {
                ChidMapping::Unknown { .. } => {
                    assert(t =~= Seq::<Option<Seq<char>>>::empty());
                },
                _ => {
                    assert(t == seq![opt_str_view(a), opt_str_view(b)]);
                    assert(t.drop_last().drop_last() =~= Seq::<Option<Seq<char>>>::empty());
                    assert(t.drop_last().last() == opt_str_view(a));
                    assert(t.last() == opt_str_view(b));
                    assert(strs_total(t.drop_last().drop_last()) == 0);
                    assert(strs_total(t.drop_last()) == la);
                    assert(strs_total(t) == la + lb);
                },
            }
        }
        total = total + size + la + lb;
        i += 1;
        if total > usize::MAX as u128 {
            proof {
                lemma_prefix_totals(ms, i as int, ms.len() as int);
                assert(ms.take(ms.len() as int) =~= ms);
            }
            return false;
        }
    }
    proof {
        assert(ms.take(ms.len() as int) =~= ms);
        lemma_pool_bytes_bound(all_strs(ms));
    }
    total <= usize::MAX as u128
}

/// Appends the serialized form of `mappings` to `out`: each entry, a
/// terminator entry, then the string table with every distinct string
/// once. Offsets of strings and entry lengths are stored in 32 and 28 bits.
pub fn serialize_chid_mappings<'s>(out: &mut Vec<u8>, mappings: &[ChidMapping<'s>])
    requires
        entries_size(mappings@) + 28 + pool_bytes(pool_of(all_strs(mappings@))).len() <= usize::MAX,
    ensures
        final(out)@ == old(out)@ + serialized(mappings@),
{
    let ghost ms = mappings@;
    let ghost pool_all = pool_of(all_strs(ms));
    let n = mappings.len();
    let mut fsize: usize = 0;
    let mut i: usize = 0;
    while i < n
        invariant
            n == ms.len(),
            ms == mappings@,
            i <= n,
            fsize == entries_size(ms.take(i as int)),
            entries_size(ms) + 28 + pool_bytes(pool_all).len() <= usize::MAX,
        decreases n - i,
    {
        proof {
            lemma_entries_size_prefix(ms, i as int);
            lemma_entries_size_prefix(ms, i + 1);
        }
        fsize = fsize + mappings[i].serialized_size();
        i += 1;
    }
    proof {
        assert(ms.take(n as int) =~= ms);
        lemma_pool_no_dup(all_strs(ms));
    }
    let base = fsize + 28;
    let ghost start = out@;
    let mut strings: Vec<u8> = Vec::new();
    let mut table: Vec<(&'s str, u32)> = Vec::new();
    let ghost mut pool: Seq<Seq<char>> = Seq::empty();
    i = 0;
    while i < n
        invariant
            n == ms.len(),
            ms == mappings@,
            i <= n,
            base == entries_size(ms) + 28,
            base + pool_bytes(pool_all).len() <= usize::MAX,
            pool_all == pool_of(all_strs(ms)),
            no_dup(pool_all),
            pool == pool_of(all_strs(ms.take(i as int))),
            table_ok(table@, strings@, pool, base as int),
            out@ == start + entries_bytes(ms.take(i as int), pool_all, base as int),
        decreases n - i,
    {
        proof {
            lemma_all_strs_step(ms, i as int);
            lemma_pool_step(ms, i as int);
            assert(ms.take(n as int) =~= ms);
            lemma_all_strs_take(ms, i + 1);
            lemma_pool_prefix(all_strs(ms), all_strs(ms.take(i + 1)).len() as int);
            lemma_entries_size_prefix(ms, i as int);
            lemma_entries_size_prefix(ms, i + 1);
            lemma_entries_size_nonneg(ms.take(i as int));
            assert(mappings@[i as int] == ms[i as int]);
        }
        write_entry(
            out,
            &mut strings,
            &mut table,
            &mappings[i],
            base,
            Ghost(pool),
            Ghost(pool_all),
        );
        proof {
            pool = pool_after(pool, ms[i as int]);
        }
        i += 1;
    }
    proof {
        assert(ms.take(n as int) =~= ms);
    }
    push_zeros(out, 28);
    push_all(out, strings.as_slice());
}

proof fn lemma_all_strs_take(ms: Seq<ChidMapping>, i: int)
    requires
        0 <= i <= ms.len(),
    ensures
        all_strs(ms.take(i)).len() <= all_strs(ms).len(),
        all_strs(ms).take(all_strs(ms.take(i)).len() as int) == all_strs(ms.take(i)),
    decreases ms.len(),
{
    if i == ms.len() {
        assert(ms.take(i) =~= ms);
        assert(all_strs(ms).take(all_strs(ms).len() as int) =~= all_strs(ms));
    } else {
        lemma_all_strs_take(ms.drop_last(), i);
        assert(ms.drop_last().take(i) =~= ms.take(i));
        let a = all_strs(ms.drop_last());
        let b = all_strs(ms.take(i));
        assert(all_strs(ms).take(b.len() as int) =~= a.take(b.len() as int));
    }
}


proof fn lemma_le32_in(s: Seq<u8>, off: int, x: int)
    requires
        0 <= off,
        off + 4 <= s.len(),
        0 <= x < 0x1_0000_0000,
        s.subrange(off, off + 4) == le32_bytes(x),
    ensures
        le32(s, off) == x,
{
    lemma_le32_roundtrip(x);
    let t = s.subrange(off, off + 4);
    assert(t[0] == s[off] && t[1] == s[off + 1] && t[2] == s[off + 2] && t[3] == s[off + 3]);
}

proof fn lemma_le16_in(s: Seq<u8>, off: int, x: int)
    requires
        0 <= off,
        off + 2 <= s.len(),
        0 <= x < 0x1_0000,
        s.subrange(off, off + 2) == le16_bytes(x),
    ensures
        le16(s, off) == x,
{
    lemma_le16_roundtrip(x);
    let t = s.subrange(off, off + 2);
    assert(t[0] == s[off] && t[1] == s[off + 1]);
}

proof fn lemma_guid_in(s: Seq<u8>, off: int, g: Guid)
    requires
        0 <= off,
        off + 16 <= s.len(),
        s.subrange(off, off + 16) == guid_le_bytes(g),
    ensures
        guid_le_at(g, s, off),
{
    lemma_le32_roundtrip(g.data1 as int);
    lemma_le16_roundtrip(g.data2 as int);
    lemma_le16_roundtrip(g.data3 as int);
    let b = guid_le_bytes(g);
    assert(s.subrange(off, off + 4) =~= b.subrange(0, 4));
    assert(b.subrange(0, 4) =~= le32_bytes(g.data1 as int));
    lemma_le32_in(s, off, g.data1 as int);
    assert(s.subrange(off + 4, off + 6) =~= b.subrange(4, 6));
    assert(b.subrange(4, 6) =~= le16_bytes(g.data2 as int));
    lemma_le16_in(s, off + 4, g.data2 as int);
    assert(s.subrange(off + 6, off + 8) =~= b.subrange(6, 8));
    assert(b.subrange(6, 8) =~= le16_bytes(g.data3 as int));
    lemma_le16_in(s, off + 6, g.data3 as int);
    assert(s.subrange(off + 8, off + 16) =~= b.subrange(8, 16));
    assert(b.subrange(8, 16) =~= g.data4@);
}

proof fn lemma_scalar_nonzero(c: u32)
    requires
        c != 0,
    ensures
        forall|k: int| 0 <= k < encode_scalar(c).len() ==> #[trigger] encode_scalar(c)[k] != 0,
{
    assert(c <= 0x7F ==> (c & 0x7F) as u8 != 0) by (bit_vector)
        requires c != 0;
    let x = ((c >> 6) & 0x1F) as u8;
    assert(0xC0u8 | x != 0) by (bit_vector);
    let y = ((c >> 12) & 0x0F) as u8;
    assert(0xE0u8 | y != 0) by (bit_vector);
    let z = ((c >> 18) & 0x7) as u8;
    assert(0xF0u8 | z != 0) by (bit_vector);
    let p = ((c >> 6) & 0x3F) as u8;
    assert(0x80u8 | p != 0) by (bit_vector);
    let q = ((c >> 12) & 0x3F) as u8;
    assert(0x80u8 | q != 0) by (bit_vector);
    let r = (c & 0x3F) as u8;
    assert(0x80u8 | r != 0) by (bit_vector);
}

proof fn lemma_encode_nonzero(x: Seq<char>)
    requires
        !x.contains('\0'),
    ensures
        forall|k: int| 0 <= k < encode_utf8(x).len() ==> #[trigger] encode_utf8(x)[k] != 0,
    decreases x.len(),
{
    if x.len() > 0 {
        assert(x[0] != '\0');
        vstd::utf8::char_u32_cast(x[0], x[0] as u32);
        assert(x[0] as u32 != 0) by {
            if x[0] as u32 == 0 {
                assert((0u32 as char) == '\0');
            }
        }
        lemma_scalar_nonzero(x[0] as u32);
        assert(!x.drop_first().contains('\0')) by {
            if x.drop_first().contains('\0') {
                let k = choose|k: int| 0 <= k < x.drop_first().len() && x.drop_first()[k] == '\0';
                assert(x[k + 1] == '\0');
            }
        }
        lemma_encode_nonzero(x.drop_first());
        let e = encode_scalar(x[0] as u32);
        let r = encode_utf8(x.drop_first());
        assert(encode_utf8(x) == e + r);
        assert forall|k: int| 0 <= k < encode_utf8(x).len() implies #[trigger] encode_utf8(x)[k] != 0 by {
            if k < e.len() {
                assert(encode_utf8(x)[k] == e[k]);
            } else {
                assert(encode_utf8(x)[k] == r[k - e.len()]);
            }
        }
    }
}

proof fn lemma_next_nul_at(s: Seq<u8>, from: int, end: int)
    requires
        0 <= from <= end < s.len(),
        s[end] == 0,
        forall|k: int| from <= k < end ==> s[k] != 0,
    ensures
        next_nul(s, from) == end,
    decreases end - from,
{
    if from < end {
        lemma_next_nul_at(s, from + 1, end);
    }
}


proof fn lemma_entry_bytes_len(m: ChidMapping, pool: Seq<Seq<char>>, base: int)
    ensures
        entry_bytes(m, pool, base).len() == entry_size(m),
{
    let desc = (kind_of(m) << 28u32) | (entry_size(m) as u32);
    assert(le32_bytes(desc as int).len() == 4);
    assert(guid_le_bytes(chid_of(m)).len() == 16);
}

proof fn lemma_entries_bytes(ms: Seq<ChidMapping>, pool: Seq<Seq<char>>, base: int, k: int)
    requires
        0 <= k <= ms.len(),
    ensures
        entries_bytes(ms, pool, base).len() == entries_size(ms),
        entries_bytes(ms.take(k), pool, base).len() == entries_size(ms.take(k)),
        entries_bytes(ms, pool, base).subrange(0, entries_size(ms.take(k))) == entries_bytes(
            ms.take(k),
            pool,
            base,
        ),
    decreases ms.len(),
{
    if ms.len() > 0 {
        lemma_entry_bytes_len(ms.last(), pool, base);
        if k == ms.len() {
            assert(ms.take(k) =~= ms);
            lemma_entries_bytes(ms.drop_last(), pool, base, 0);
            assert(entries_bytes(ms, pool, base).subrange(0, entries_size(ms)) =~= entries_bytes(
                ms,
                pool,
                base,
            ));
        } else {
            lemma_entries_bytes(ms.drop_last(), pool, base, k);
            assert(ms.drop_last().take(k) =~= ms.take(k));
            lemma_entries_size_prefix(ms.drop_last(), k);
            let a = entries_bytes(ms.drop_last(), pool, base);
            assert(entries_bytes(ms, pool, base).subrange(0, entries_size(ms.take(k))) =~= a.subrange(
                0,
                entries_size(ms.take(k)),
            ));
        }
    } else {
        assert(ms.take(k) =~= ms);
    }
}

/// Where the entry of `ms[i]` lies in the entries written for `ms`.
proof fn lemma_entry_in(ms: Seq<ChidMapping>, pool: Seq<Seq<char>>, base: int, i: int)
    requires
        0 <= i < ms.len(),
    ensures
        entries_size(ms.take(i)) + entry_size(ms[i]) <= entries_size(ms),
        entries_bytes(ms, pool, base).subrange(
            entries_size(ms.take(i)),
            entries_size(ms.take(i)) + entry_size(ms[i]),
        ) == entry_bytes(ms[i], pool, base),
{
    lemma_entries_bytes(ms, pool, base, i + 1);
    lemma_entries_bytes(ms, pool, base, i);
    lemma_entries_size_prefix(ms, i);
    lemma_entries_size_prefix(ms, i + 1);
    lemma_entry_bytes_len(ms[i], pool, base);
    assert(ms.take(i + 1).drop_last() =~= ms.take(i));
    assert(ms.take(i + 1).last() == ms[i]);
    let e = entries_bytes(ms, pool, base);
    let p = entries_size(ms.take(i));
    let q = entries_size(ms.take(i + 1));
    assert(e.subrange(p, q) =~= e.subrange(0, q).subrange(p, q));
    assert(entries_bytes(ms.take(i + 1), pool, base) == entries_bytes(ms.take(i), pool, base)
        + entry_bytes(ms[i], pool, base));
    assert(entries_bytes(ms.take(i + 1), pool, base).subrange(p, q) =~= entry_bytes(ms[i], pool, base));
}

proof fn lemma_pool_bytes_prefix(pool: Seq<Seq<char>>, k: int)
    requires
        0 <= k <= pool.len(),
    ensures
        pool_bytes(pool.take(k)).len() <= pool_bytes(pool).len(),
        pool_bytes(pool).subrange(0, pool_bytes(pool.take(k)).len() as int) == pool_bytes(pool.take(k)),
    decreases pool.len(),
{
    if k == pool.len() {
        assert(pool.take(k) =~= pool);
        assert(pool_bytes(pool).subrange(0, pool_bytes(pool).len() as int) =~= pool_bytes(pool));
    } else {
        lemma_pool_bytes_prefix(pool.drop_last(), k);
        assert(pool.drop_last().take(k) =~= pool.take(k));
        let a = pool_bytes(pool.drop_last());
        let n = pool_bytes(pool.take(k)).len() as int;
        assert(pool_bytes(pool).subrange(0, n) =~= a.subrange(0, n));
    }
}

/// The string `pool[j]` and its NUL in the string table.
proof fn lemma_pool_string(pool: Seq<Seq<char>>, j: int)
    requires
        0 <= j < pool.len(),
    ensures
        ({
            let o = pool_bytes(pool.take(j)).len() as int;
            let e = encode_utf8(pool[j]);
            &&& o + e.len() + 1 <= pool_bytes(pool).len()
            &&& pool_bytes(pool).subrange(o, o + e.len()) == e
            &&& pool_bytes(pool)[o + e.len()] == 0
        }),
{
    lemma_pool_bytes_prefix(pool, j + 1);
    assert(pool.take(j + 1).drop_last() =~= pool.take(j));
    assert(pool.take(j + 1).last() == pool[j]);
    let o = pool_bytes(pool.take(j)).len() as int;
    let e = encode_utf8(pool[j]);
    let t = pool_bytes(pool.take(j + 1));
    assert(t == pool_bytes(pool.take(j)) + e + seq![0u8]);
    let p = pool_bytes(pool);
    assert(p.subrange(o, o + e.len()) =~= t.subrange(o, o + e.len()));
    assert(t.subrange(o, o + e.len()) =~= e);
    assert(p[o + e.len()] == t[o + e.len()]);
}

proof fn lemma_pool_has(ss: Seq<Option<Seq<char>>>, k: int, x: Seq<char>)
    requires
        0 <= k < ss.len(),
        ss[k] == Some(x),
    ensures
        pool_of(ss).contains(x),
    decreases ss.len(),
{
    let p = pool_of(ss.drop_last());
    if k == ss.len() - 1 {
        if !p.contains(x) {
            assert(p.push(x)[p.len() as int] == x);
        }
    } else {
        lemma_pool_has(ss.drop_last(), k, x);
        let j = choose|j: int| 0 <= j < p.len() && p[j] == x;
        assert(pool_add(p, ss.last())[j] == x);
    }
}

proof fn lemma_first_index_in(pool: Seq<Seq<char>>, x: Seq<char>)
    requires
        pool.contains(x),
    ensures
        0 <= first_index(pool, x) < pool.len(),
        pool[first_index(pool, x)] == x,
    decreases pool.len(),
{
    if pool[0] != x {
        assert(pool.drop_first().contains(x)) by {
            let k = choose|k: int| 0 <= k < pool.len() && pool[k] == x;
            assert(pool.drop_first()[k - 1] == x);
        }
        lemma_first_index_in(pool.drop_first(), x);
    }
}


/// An optional string that a NUL-terminated string table can hold.
pub open spec fn nul_free(o: Option<&str>) -> bool {
    match o {
        Some(s) => !s@.contains('\0'),
        None => true,
    }
}

/// A mapping that reads back as written: its strings hold no NUL, and an
/// unknown mapping's kind is none of the known ones and fits the 4-bit
/// type field, and its entry the 28-bit length field.
pub open spec fn mapping_serializable(m: ChidMapping) -> bool {
    match m {
        ChidMapping::DeviceTree { name, compatible, .. } => nul_free(name) && nul_free(compatible),
        ChidMapping::UefiFw { name, fwid, .. } => nul_free(name) && nul_free(fwid),
        ChidMapping::Unknown { kind, body, .. } => kind != 1 && kind != 2 && kind < 16 && 20
            + body@.len() < 0x1000_0000,
    }
}

/// Mappings that read back as written: each is serializable, and the
/// serialized form (whose string offsets are 32-bit) is below 4 GiB.
pub open spec fn serializable(ms: Seq<ChidMapping>) -> bool {
    &&& forall|i: int| 0 <= i < ms.len() ==> mapping_serializable(#[trigger] ms[i])
    &&& entries_size(ms) + 28 + pool_bytes(pool_of(all_strs(ms))).len() <= u32::MAX
}

/// `a` and `b` are the same mapping: the same kind, CHID and strings, and
/// for an unknown kind the same body.
pub open spec fn same_mapping(a: ChidMapping, b: ChidMapping) -> bool {
    &&& kind_of(a) == kind_of(b)
    &&& chid_of(a) == chid_of(b)
    &&& mapping_strs(a) == mapping_strs(b)
    &&& (a is DeviceTree <==> b is DeviceTree)
    &&& (a is UefiFw <==> b is UefiFw)
    &&& (a matches ChidMapping::Unknown { body: x, .. } ==> b matches ChidMapping::Unknown {
        body: y,
        ..
    } && x@ == y@)
}

proof fn lemma_desc(k: u32, n: u32)
    requires
        k < 16,
        n < 0x1000_0000,
    ensures
        ((k << 28u32) | n) % 0x1000_0000 == n,
        ((k << 28u32) | n) / 0x1000_0000 == k,
        ((k << 28u32) | n) == 0 ==> n == 0,
{
    assert(((k << 28u32) | n) % 0x1000_0000 == n) by (bit_vector)
        requires
            k < 16,
            n < 0x1000_0000,
    ;
    assert(((k << 28u32) | n) / 0x1000_0000 == k) by (bit_vector)
        requires
            k < 16,
            n < 0x1000_0000,
    ;
}

/// The strings of `ms[i]` are in the string table of `ms`.
proof fn lemma_strs_in_pool(ms: Seq<ChidMapping>, i: int)
    requires
        0 <= i < ms.len(),
    ensures
        forall|t: int|
            0 <= t < mapping_strs(ms[i]).len() ==> (#[trigger] mapping_strs(ms[i])[t] matches Some(
                x,
            ) ==> pool_of(all_strs(ms)).contains(x)),
{
    lemma_all_strs_take(ms, i + 1);
    lemma_all_strs_step(ms, i);
    let a = all_strs(ms.take(i));
    let m = mapping_strs(ms[i]);
    assert forall|t: int| 0 <= t < m.len() implies (#[trigger] m[t] matches Some(x)
        ==> pool_of(all_strs(ms)).contains(x)) by {
        if let Some(x) = m[t] {
            let k = a.len() + t;
            assert(all_strs(ms.take(i + 1))[k] == m[t]);
            assert(all_strs(ms)[k] == all_strs(ms).take(all_strs(ms.take(i + 1)).len() as int)[k]);
            lemma_pool_has(all_strs(ms), k, x);
        }
    }
}

/// A string of the table reads back from its offset.
proof fn lemma_string_back(ms: Seq<ChidMapping>, s: Option<Seq<char>>)
    requires
        serializable(ms),
        s matches Some(x) ==> pool_of(all_strs(ms)).contains(x) && !x.contains('\0'),
    ensures
        string_at(
            serialized(ms),
            string_offset(pool_of(all_strs(ms)), entries_size(ms) + 28, s) as int,
        ) == Some(s),
{
    let pool = pool_of(all_strs(ms));
    let base = entries_size(ms) + 28;
    let d = serialized(ms);
    lemma_entries_bytes(ms, pool, base, 0);
    lemma_entries_size_nonneg(ms);
    let eb = entries_bytes(ms, pool, base);
    let pb = pool_bytes(pool);
    assert(d.len() == base + pb.len());
    if let Some(x) = s {
        lemma_first_index_in(pool, x);
        let j = first_index(pool, x);
        lemma_pool_string(pool, j);
        let o = pool_bytes(pool.take(j)).len() as int;
        let e = encode_utf8(x);
        let off = base + o;
        assert(0 < off && off + e.len() < d.len());
        assert(string_offset(pool, base, s) as int == off);
        assert forall|t: int| 0 <= t < pb.len() implies d[base + t] == #[trigger] pb[t] by {}
        assert(d.subrange(off, off + e.len()) =~= pb.subrange(o, o + e.len()));
        assert(d[off + e.len()] == pb[o + e.len()]);
        lemma_encode_nonzero(x);
        assert forall|k: int| off <= k < off + e.len() implies #[trigger] d[k] != 0 by {
            assert(d[k] == pb[o + (k - off)]);
            assert(pb.subrange(o, o + e.len())[k - off] == e[k - off]);
        }
        lemma_next_nul_at(d, off, off + e.len());
        encode_utf8_decode_utf8(x);
        encode_utf8_valid_utf8(x);
    }
}

/// Each entry reads back as the mapping it was written for.
#[verifier::rlimit(80)]
proof fn lemma_entry_back(ms: Seq<ChidMapping>, i: int)
    requires
        serializable(ms),
        0 <= i < ms.len(),
    ensures
        entry_status(serialized(ms), entries_size(ms.take(i))) == EntryStatus::Entry(
            entry_size(ms[i]),
        ),
        mapping_at(ms[i], serialized(ms), entries_size(ms.take(i))),
{
    let pool = pool_of(all_strs(ms));
    let base = entries_size(ms) + 28;
    let d = serialized(ms);
    let p = entries_size(ms.take(i));
    let m = ms[i];
    let n = entry_size(m);
    lemma_entry_in(ms, pool, base, i);
    lemma_entries_bytes(ms, pool, base, 0);
    lemma_entries_size_prefix(ms, i);
    lemma_entries_size_nonneg(ms.take(i));
    assert(mapping_serializable(m));
    let eb = entry_bytes(m, pool, base);
    let all = entries_bytes(ms, pool, base);
    assert(d.subrange(p, p + n) =~= all.subrange(p, p + n));
    assert(d.subrange(p, p + n) == eb);
    let desc = (kind_of(m) << 28u32) | (n as u32);
    assert(d.subrange(p, p + 4) =~= eb.subrange(0, 4));
    assert(eb.subrange(0, 4) =~= le32_bytes(desc as int));
    lemma_le32_in(d, p, desc as int);
    lemma_desc(kind_of(m), n as u32);
    assert(d.subrange(p + 4, p + 20) =~= eb.subrange(4, 20));
    assert(eb.subrange(4, 20) =~= guid_le_bytes(chid_of(m)));
    lemma_guid_in(d, p + 4, chid_of(m));
    lemma_strs_in_pool(ms, i);
    match m {
        ChidMapping::DeviceTree { name, compatible, .. } => {
            let o1 = string_offset(pool, base, opt_str_view(name));
            let o2 = string_offset(pool, base, opt_str_view(compatible));
            assert(d.subrange(p + 20, p + 24) =~= eb.subrange(20, 24));
            assert(eb.subrange(20, 24) =~= le32_bytes(o1 as int));
            lemma_le32_in(d, p + 20, o1 as int);
            assert(d.subrange(p + 24, p + 28) =~= eb.subrange(24, 28));
            assert(eb.subrange(24, 28) =~= le32_bytes(o2 as int));
            lemma_le32_in(d, p + 24, o2 as int);
            assert(mapping_strs(m)[0] == opt_str_view(name));
            assert(mapping_strs(m)[1] == opt_str_view(compatible));
            lemma_string_back(ms, opt_str_view(name));
            lemma_string_back(ms, opt_str_view(compatible));
        },
        ChidMapping::UefiFw { name, fwid, .. } => {
            let o1 = string_offset(pool, base, opt_str_view(name));
            let o2 = string_offset(pool, base, opt_str_view(fwid));
            assert(d.subrange(p + 20, p + 24) =~= eb.subrange(20, 24));
            assert(eb.subrange(20, 24) =~= le32_bytes(o1 as int));
            lemma_le32_in(d, p + 20, o1 as int);
            assert(d.subrange(p + 24, p + 28) =~= eb.subrange(24, 28));
            assert(eb.subrange(24, 28) =~= le32_bytes(o2 as int));
            lemma_le32_in(d, p + 24, o2 as int);
            assert(mapping_strs(m)[0] == opt_str_view(name));
            assert(mapping_strs(m)[1] == opt_str_view(fwid));
            lemma_string_back(ms, opt_str_view(name));
            lemma_string_back(ms, opt_str_view(fwid));
        },
        ChidMapping::Unknown { body, .. } => {
            assert(d.subrange(p + 20, p + n) =~= eb.subrange(20, n));
            assert(eb.subrange(20, n) =~= body@);
        },
    }
}

/// The terminator follows the entries.
proof fn lemma_terminator_back(ms: Seq<ChidMapping>)
    requires
        serializable(ms),
    ensures
        entry_status(serialized(ms), entries_size(ms)) == EntryStatus::End,
{
    let pool = pool_of(all_strs(ms));
    let base = entries_size(ms) + 28;
    let d = serialized(ms);
    lemma_entries_bytes(ms, pool, base, 0);
    lemma_entries_size_nonneg(ms);
    let e = entries_size(ms);
    assert(d.subrange(e, e + 4) =~= le32_bytes(0));
    lemma_le32_in(d, e, 0);
}

proof fn lemma_positions_from(ms: Seq<ChidMapping>, i: int)
    requires
        serializable(ms),
        0 <= i <= ms.len(),
    ensures
        entry_positions(serialized(ms), entries_size(ms.take(i))) == Some(
            Seq::new((ms.len() - i) as nat, |t: int| entries_size(ms.take(i + t))),
        ),
    decreases ms.len() - i,
{
    let d = serialized(ms);
    let pool = pool_of(all_strs(ms));
    lemma_entries_bytes(ms, pool, entries_size(ms) + 28, 0);
    if i == ms.len() {
        assert(ms.take(i) =~= ms);
        lemma_terminator_back(ms);
        assert(Seq::new((ms.len() - i) as nat, |t: int| entries_size(ms.take(i + t))) =~= Seq::<
            int,
        >::empty());
    } else {
        lemma_entry_back(ms, i);
        lemma_positions_from(ms, i + 1);
        lemma_entries_size_prefix(ms, i);
        lemma_entries_size_prefix(ms, i + 1);
        lemma_entries_size_nonneg(ms.take(i));
        let p = entries_size(ms.take(i));
        assert(p + entry_size(ms[i]) == entries_size(ms.take(i + 1)));
        let rest = Seq::new((ms.len() - i - 1) as nat, |t: int| entries_size(ms.take(i + 1 + t)));
        assert(seq![p] + rest =~= Seq::new(
            (ms.len() - i) as nat,
            |t: int| entries_size(ms.take(i + t)),
        ));
    }
}

/// Serialized mappings parse back: reading the serialized form finds one
/// entry for each mapping, in order, each decoding to the mapping written,
/// then the terminator.
pub proof fn lemma_serialized_reads_back(ms: Seq<ChidMapping>)
    requires
        serializable(ms),
    ensures
        entry_positions(serialized(ms), 0) == Some(
            Seq::new(ms.len(), |i: int| entries_size(ms.take(i))),
        ),
        forall|i: int|
            0 <= i < ms.len() ==> mapping_at(
                #[trigger] ms[i],
                serialized(ms),
                entries_size(ms.take(i)),
            ),
{
    assert(ms.take(0) =~= Seq::<ChidMapping>::empty());
    lemma_positions_from(ms, 0);
    assert(Seq::new((ms.len() - 0) as nat, |t: int| entries_size(ms.take(0 + t))) =~= Seq::new(
        ms.len(),
        |i: int| entries_size(ms.take(i)),
    ));
    assert forall|i: int| 0 <= i < ms.len() implies mapping_at(
        #[trigger] ms[i],
        serialized(ms),
        entries_size(ms.take(i)),
    ) by {
        lemma_entry_back(ms, i);
    }
}

/// The mapping decoded at a position is determined by the bytes there.
pub proof fn lemma_mapping_at_unique(a: ChidMapping, b: ChidMapping, d: Seq<u8>, pos: int)
    requires
        mapping_at(a, d, pos),
        mapping_at(b, d, pos),
    ensures
        same_mapping(a, b),
{
    let ga = chid_of(a);
    let gb = chid_of(b);
    assert(ga.data4@ =~= gb.data4@);
    assert(ga.data4 =~= gb.data4) by {
        assert forall|i: int| 0 <= i < 8 implies ga.data4[i] == gb.data4[i] by {
            assert(ga.data4@[i] == gb.data4@[i]);
        }
    }
    assert(ga == gb);
    assert(mapping_strs(a) =~= mapping_strs(b));
}

/// Parsing what serialization wrote gives the mappings back: where `parsed`
/// is what `parse_chid_mappings` returns for the bytes that
/// `serialize_chid_mappings` wrote for `ms`, it has one mapping for each of
/// `ms`, the same in kind, CHID, strings and body.
pub proof fn lemma_parse_serialized(ms: Seq<ChidMapping>, parsed: Seq<ChidMapping>)
    requires
        serializable(ms),
        entry_positions(serialized(ms), 0) matches Some(ps) ==> parsed.len() == ps.len() && forall|
            i: int,
        |
            0 <= i < ps.len() ==> mapping_at(#[trigger] parsed[i], serialized(ms), ps[i]),
    ensures
        entry_positions(serialized(ms), 0) is Some,
        parsed.len() == ms.len(),
        forall|i: int| 0 <= i < ms.len() ==> same_mapping(#[trigger] parsed[i], ms[i]),
{
    lemma_serialized_reads_back(ms);
    let ps = Seq::new(ms.len(), |i: int| entries_size(ms.take(i)));
    assert forall|i: int| 0 <= i < ms.len() implies same_mapping(#[trigger] parsed[i], ms[i]) by {
        assert(mapping_at(parsed[i], serialized(ms), ps[i]));
        assert(mapping_at(ms[i], serialized(ms), entries_size(ms.take(i))));
        lemma_mapping_at_unique(parsed[i], ms[i], serialized(ms), ps[i]);
    }
}

} // verus!
