//! Little- and big-endian integer fields inside byte sequences.
//!
//! Every on-disk structure this library reads (PE, ELF, CBFS, ACPI, SMBIOS,
//! EDID, CHID mappings) is decoded field by field with these helpers, so the
//! contracts of the parsers can speak of plain arithmetic on the input bytes.
use vstd::prelude::*;

verus! {

/// Little-endian 16-bit value at `off`.
pub open spec fn le16(s: Seq<u8>, off: int) -> int {
    s[off] + 256 * s[off + 1]
}

/// Little-endian 32-bit value at `off`.
pub open spec fn le32(s: Seq<u8>, off: int) -> int {
    le16(s, off) + 65536 * le16(s, off + 2)
}

/// Little-endian 64-bit value at `off`.
pub open spec fn le64(s: Seq<u8>, off: int) -> int {
    le32(s, off) + 4294967296 * le32(s, off + 4)
}

/// Big-endian 16-bit value at `off`.
pub open spec fn be16(s: Seq<u8>, off: int) -> int {
    256 * s[off] + s[off + 1]
}

/// Big-endian 32-bit value at `off`.
pub open spec fn be32(s: Seq<u8>, off: int) -> int {
    65536 * be16(s, off) + be16(s, off + 2)
}

/// The two bytes of `x` in little-endian order.
pub open spec fn le16_bytes(x: int) -> Seq<u8> {
    seq![(x % 256) as u8, ((x / 256) % 256) as u8]
}

/// The four bytes of `x` in little-endian order.
pub open spec fn le32_bytes(x: int) -> Seq<u8> {
    le16_bytes(x % 65536) + le16_bytes(x / 65536)
}

/// The eight bytes of `x` in little-endian order.
pub open spec fn le64_bytes(x: int) -> Seq<u8> {
    le32_bytes(x % 4294967296) + le32_bytes(x / 4294967296)
}

/// The four bytes of `x` in big-endian order.
pub open spec fn be32_bytes(x: int) -> Seq<u8> {
    seq![
        ((x / 16777216) % 256) as u8,
        ((x / 65536) % 256) as u8,
        ((x / 256) % 256) as u8,
        (x % 256) as u8,
    ]
}

/// Reading back the encoding of a 16-bit value gives the value.
pub proof fn lemma_le16_roundtrip(x: int)
    requires
        0 <= x < 65536,
    ensures
        le16(le16_bytes(x), 0) == x,
        le16_bytes(x).len() == 2,
{
}

/// Reading back the encoding of a 32-bit value gives the value.
pub proof fn lemma_le32_roundtrip(x: int)
    requires
        0 <= x < 4294967296,
    ensures
        le32(le32_bytes(x), 0) == x,
        le32_bytes(x).len() == 4,
{
    lemma_le16_roundtrip(x % 65536);
    lemma_le16_roundtrip(x / 65536);
    let s = le32_bytes(x);
    assert(s.subrange(0, 2) =~= le16_bytes(x % 65536));
    assert(s.subrange(2, 4) =~= le16_bytes(x / 65536));
    assert(le16(s, 0) == le16(le16_bytes(x % 65536), 0));
    assert(le16(s, 2) == le16(le16_bytes(x / 65536), 0));
}

/// Reading back the big-endian encoding of a 32-bit value gives the value.
pub proof fn lemma_be32_roundtrip(x: int)
    requires
        0 <= x < 4294967296,
    ensures
        be32(be32_bytes(x), 0) == x,
        be32_bytes(x).len() == 4,
{
}

/// Reads a little-endian `u16` at `off`.
pub fn read_le16(s: &[u8], off: usize) -> (r: u16)
    requires
        off + 2 <= s@.len(),
    ensures
        r == le16(s@, off as int),
{
    s[off] as u16 + (s[off + 1] as u16) * 256
}

/// Reads a little-endian `u32` at `off`.
pub fn read_le32(s: &[u8], off: usize) -> (r: u32)
    requires
        off + 4 <= s@.len(),
    ensures
        r == le32(s@, off as int),
{
    let _n = s.len();
    let lo = read_le16(s, off);
    let hi = read_le16(s, off + 2);
    lo as u32 + (hi as u32) * 65536
}

/// Reads a little-endian `u64` at `off`.
pub fn read_le64(s: &[u8], off: usize) -> (r: u64)
    requires
        off + 8 <= s@.len(),
    ensures
        r == le64(s@, off as int),
{
    let _n = s.len();
    let lo = read_le32(s, off);
    let hi = read_le32(s, off + 4);
    lo as u64 + (hi as u64) * 4294967296
}

/// Reads a big-endian `u16` at `off`.
pub fn read_be16(s: &[u8], off: usize) -> (r: u16)
    requires
        off + 2 <= s@.len(),
    ensures
        r == be16(s@, off as int),
{
    (s[off] as u16) * 256 + s[off + 1] as u16
}

/// Reads a big-endian `u32` at `off`.
pub fn read_be32(s: &[u8], off: usize) -> (r: u32)
    requires
        off + 4 <= s@.len(),
    ensures
        r == be32(s@, off as int),
{
    let _n = s.len();
    let hi = read_be16(s, off);
    let lo = read_be16(s, off + 2);
    (hi as u32) * 65536 + lo as u32
}

/// Appends the little-endian bytes of `x`.
pub fn push_le16(v: &mut Vec<u8>, x: u16)
    ensures
        final(v)@ == old(v)@ + le16_bytes(x as int),
{
    v.push((x % 256) as u8);
    v.push((x / 256) as u8);
}

/// Appends the little-endian bytes of `x`.
pub fn push_le32(v: &mut Vec<u8>, x: u32)
    ensures
        final(v)@ == old(v)@ + le32_bytes(x as int),
{
    push_le16(v, (x % 65536) as u16);
    push_le16(v, (x / 65536) as u16);
}

/// Appends the little-endian bytes of `x`.
pub fn push_le64(v: &mut Vec<u8>, x: u64)
    ensures
        final(v)@ == old(v)@ + le64_bytes(x as int),
{
    push_le32(v, (x % 4294967296) as u32);
    push_le32(v, (x / 4294967296) as u32);
}

/// Appends the big-endian bytes of `x`.
pub fn push_be32(v: &mut Vec<u8>, x: u32)
    ensures
        final(v)@ == old(v)@ + be32_bytes(x as int),
{
    v.push(((x / 16777216) % 256) as u8);
    v.push(((x / 65536) % 256) as u8);
    v.push(((x / 256) % 256) as u8);
    v.push((x % 256) as u8);
}

/// Appends all bytes of `data`.
pub fn push_all(v: &mut Vec<u8>, data: &[u8])
    ensures
        final(v)@ == old(v)@ + data@,
{
    let ghost start = v@;
    let mut i: usize = 0;
    while i < data.len()
        invariant
            i <= data@.len(),
            v@ == start + data@.subrange(0, i as int),
        decreases data@.len() - i,
    {
        v.push(data[i]);
        i += 1;
        assert(v@ =~= start + data@.subrange(0, i as int));
    }
    assert(data@.subrange(0, data@.len() as int) =~= data@);
}

/// Appends `n` zero bytes.
pub fn push_zeros(v: &mut Vec<u8>, n: usize)
    ensures
        final(v)@ == old(v)@ + Seq::new(n as nat, |_i: int| 0u8),
{
    let ghost start = v@;
    let mut i: usize = 0;
    while i < n
        invariant
            i <= n,
            v@ == start + Seq::new(i as nat, |_i: int| 0u8),
        decreases n - i,
    {
        v.push(0);
        i += 1;
        assert(v@ =~= start + Seq::new(i as nat, |_i: int| 0u8));
    }
}

/// Whether `sub` occurs in `s` starting at index `i`.
pub open spec fn occurs_at(s: Seq<u8>, sub: Seq<u8>, i: int) -> bool {
    0 <= i && i + sub.len() <= s.len() && s.subrange(i, i + sub.len()) == sub
}

/// Finds the first index at which `sub` occurs in `s`.
pub fn find_byte_sequence(s: &[u8], sub: &[u8]) -> (r: Option<usize>)
    ensures
        r matches Some(i) ==> occurs_at(s@, sub@, i as int) && forall|j: int|
            0 <= j < i ==> !occurs_at(s@, sub@, j),
        r is None ==> forall|j: int| !occurs_at(s@, sub@, j),
{
    if s.len() < sub.len() {
        return None;
    }
    let n = s.len();
    let last = n - sub.len();
    let mut i: usize = 0;
    while i <= last
        invariant
            n == s@.len(),
            last == s@.len() - sub@.len(),
            i <= last + 1,
            forall|j: int| 0 <= j < i ==> !occurs_at(s@, sub@, j),
        decreases last + 1 - i,
    {
        let mut k: usize = 0;
        let mut same = true;
        while k < sub.len()
            invariant
                n == s@.len(),
                i <= last,
                last == s@.len() - sub@.len(),
                k <= sub@.len(),
                same == forall|m: int| 0 <= m < k ==> s@[i + m] == sub@[m],
            decreases sub@.len() - k,
        {
            if s[i + k] != sub[k] {
                same = false;
            }
            k += 1;
        }
        if same {
            assert(s@.subrange(i as int, i + sub@.len()) =~= sub@);
            return Some(i);
        }
        assert(!occurs_at(s@, sub@, i as int)) by {
            let m = choose|m: int| 0 <= m < sub@.len() && s@[i + m] != sub@[m];
            assert(s@.subrange(i as int, i + sub@.len())[m] != sub@[m]);
        }
        if i == last {
            assert forall|j: int| !occurs_at(s@, sub@, j) by {
                if 0 <= j <= i {
                }
            }
            return None;
        }
        i += 1;
    }
    None
}

/// Whether two byte slices hold the same bytes.
pub fn bytes_eq(a: &[u8], b: &[u8]) -> (r: bool)
    ensures
        r == (a@ == b@),
{
    if a.len() != b.len() {
        return false;
    }
    let mut i: usize = 0;
    while i < a.len()
        invariant
            a@.len() == b@.len(),
            i <= a@.len(),
            forall|j: int| 0 <= j < i ==> a@[j] == b@[j],
        decreases a@.len() - i,
    {
        if a[i] != b[i] {
            return false;
        }
        i += 1;
    }
    assert(a@ =~= b@);
    true
}

/// `s` with `src` written over it at offset `at`.
pub open spec fn write_at(s: Seq<u8>, at: int, src: Seq<u8>) -> Seq<u8> {
    s.subrange(0, at) + src + s.subrange(at + src.len(), s.len() as int)
}

/// Writes `src` over `dst` at offset `at`.
pub fn copy_into(dst: &mut [u8], at: usize, src: &[u8])
    requires
        at + src@.len() <= old(dst)@.len(),
    ensures
        final(dst)@ == write_at(old(dst)@, at as int, src@),
{
    let _n = dst.len();
    let mut i: usize = 0;
    while i < src.len()
        invariant
            at + src@.len() <= dst@.len(),
            dst@.len() <= usize::MAX,
            dst@.len() == old(dst)@.len(),
            i <= src@.len(),
            forall|j: int| 0 <= j < dst@.len() ==> #[trigger] dst@[j] == if at <= j < at + i {
                src@[j - at]
            } else {
                old(dst)@[j]
            },
        decreases src@.len() - i,
    {
        dst[at + i] = src[i];
        i += 1;
    }
    assert(dst@ =~= write_at(old(dst)@, at as int, src@));
}

/// Sets the bytes of `dst` from `from` up to `to` to `value`.
pub fn fill_range(dst: &mut [u8], from: usize, to: usize, value: u8)
    requires
        from <= to <= old(dst)@.len(),
    ensures
        final(dst)@ == write_at(old(dst)@, from as int, Seq::new((to - from) as nat, |_j: int| value)),
{
    let mut i = from;
    while i < to
        invariant
            from <= i <= to <= dst@.len(),
            dst@.len() == old(dst)@.len(),
            forall|j: int| 0 <= j < dst@.len() ==> #[trigger] dst@[j] == if from <= j < i {
                value
            } else {
                old(dst)@[j]
            },
        decreases to - i,
    {
        dst[i] = value;
        i += 1;
    }
    assert(dst@ =~= write_at(old(dst)@, from as int, Seq::new((to - from) as nat, |_j: int| value)));
}

} // verus!
