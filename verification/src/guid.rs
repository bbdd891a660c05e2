//! GUIDs: the in-memory layout used by UEFI, and their textual form
//! `xxxxxxxx-xxxx-xxxx-xxxx-xxxxxxxxxxxx`.
use vstd::prelude::*;
use crate::text::{digit_char, digits, hex, push_hex, push_str, string_from_chars};
use vstd::utf8::{encode_utf8, encode_scalar};
use crate::bytes::{le16, le32, le16_bytes, le32_bytes, read_le16, read_le32, push_le16, push_le32, push_all};
use vstd::string::{StringExecFns, StringSliceAdditionalSpecFns};

verus! {

/// A GUID with native-endian multi-byte fields.
#[derive(Clone, Copy, Debug, Default, Hash)]
pub struct Guid {
    pub data1: u32,
    pub data2: u16,
    pub data3: u16,
    pub data4: [u8; 8],
}

impl PartialEq for Guid {
    fn eq(&self, other: &Self) -> (r: bool) {
        let r = self.data1 == other.data1 && self.data2 == other.data2 && self.data3 == other.data3
            && self.data4[0] == other.data4[0] && self.data4[1] == other.data4[1]
            && self.data4[2] == other.data4[2] && self.data4[3] == other.data4[3]
            && self.data4[4] == other.data4[4] && self.data4[5] == other.data4[5]
            && self.data4[6] == other.data4[6] && self.data4[7] == other.data4[7];
        proof {
            if r {
                assert(self.data4@ =~= other.data4@);
            }
        }
        r
    }
}

impl vstd::std_specs::cmp::PartialEqSpecImpl for Guid {
    open spec fn obeys_eq_spec() -> bool {
        true
    }

    open spec fn eq_spec(&self, other: &Self) -> bool {
        self.data1 == other.data1 && self.data2 == other.data2 && self.data3 == other.data3
            && self.data4@ == other.data4@
    }
}

impl Eq for Guid {
}

/// Error returned for a string that is not a GUID.
#[derive(Clone, Copy, Debug, Default, PartialEq, Eq, Structural)]
pub struct GuidParseError;

impl GuidParseError {
    /// Human-readable description of the error.
    pub fn to_string(&self) -> (s: String)
        ensures
            s@ == "invalid GUID format"@,
    {
        String::from_str("invalid GUID format")
    }
}

/// The value of an ASCII hexadecimal digit (either case).
pub open spec fn hex_digit_value(b: u8) -> Option<int> {
    if 48 <= b <= 57 {
        Some(b - 48)
    } else if 97 <= b <= 102 {
        Some(b - 97 + 10)
    } else if 65 <= b <= 70 {
        Some(b - 65 + 10)
    } else {
        None
    }
}

/// The number spelled by the hexadecimal digits `b[begin..end]`, or `None`
/// if one of them is not a hexadecimal digit.
pub open spec fn hex_number(b: Seq<u8>, begin: int, end: int) -> Option<int>
    decreases end - begin,
{
    if end <= begin {
        Some(0)
    } else {
        match (hex_number(b, begin, end - 1), hex_digit_value(b[end - 1])) {
            (Some(v), Some(d)) => Some(16 * v + d),
            _ => None,
        }
    }
}

/// Sixteen to the power `k`.
pub open spec fn pow16(k: nat) -> int
    decreases k,
{
    if k == 0 {
        1
    } else {
        16 * pow16((k - 1) as nat)
    }
}

/// `hex_number` succeeds exactly when every character in range is a digit,
/// and its value then has at most `end - begin` digits.
pub proof fn lemma_hex_number(b: Seq<u8>, begin: int, end: int)
    requires
        0 <= begin <= end <= b.len(),
    ensures
        hex_number(b, begin, end) is Some <==> (forall|k: int|
            begin <= k < end ==> #[trigger] hex_digit_value(b[k]) is Some),
        hex_number(b, begin, end) matches Some(v) ==> 0 <= v < pow16((end - begin) as nat),
    decreases end - begin,
{
    if end > begin {
        lemma_hex_number(b, begin, end - 1);
        if hex_number(b, begin, end) is Some {
            assert forall|k: int| begin <= k < end implies #[trigger] hex_digit_value(
                b[k],
            ) is Some by {
                if k < end - 1 {
                    assert(hex_digit_value(b[k]) is Some);
                }
            }
        }
    }
}

/// Where the `k`-th byte of `data4` is spelled in the text form.
pub open spec fn data4_text_start(k: int) -> int {
    if k < 2 {
        19 + 2 * k
    } else {
        20 + 2 * k
    }
}

/// Whether `b` is the text form of a GUID: 36 characters, dashes at
/// positions 8, 13, 18 and 23 and hexadecimal digits everywhere else.
pub open spec fn is_guid_text(b: Seq<u8>) -> bool {
    &&& b.len() == 36
    &&& b[8] == 45 && b[13] == 45 && b[18] == 45 && b[23] == 45
    &&& forall|k: int|
        0 <= k < 36 && k != 8 && k != 13 && k != 18 && k != 23 ==> #[trigger] hex_digit_value(
            b[k],
        ) is Some
}

/// Whether `g` is the GUID spelled by the text `b`.
pub open spec fn guid_matches_text(g: Guid, b: Seq<u8>) -> bool {
    &&& g.data1 == hex_number(b, 0, 8)->0
    &&& g.data2 == hex_number(b, 9, 13)->0
    &&& g.data3 == hex_number(b, 14, 18)->0
    &&& forall|k: int|
        0 <= k < 8 ==> #[trigger] g.data4[k] == hex_number(
            b,
            data4_text_start(k),
            data4_text_start(k) + 2,
        )->0
}

/// The text form of a GUID, lower-case.
pub open spec fn guid_text(g: Guid) -> Seq<char> {
    hex(g.data1 as nat, 8) + seq!['-'] + hex(g.data2 as nat, 4) + seq!['-'] + hex(
        g.data3 as nat,
        4,
    ) + seq!['-'] + hex(g.data4[0] as nat, 2) + hex(g.data4[1] as nat, 2) + seq!['-'] + hex(
        g.data4[2] as nat,
        2,
    ) + hex(g.data4[3] as nat, 2) + hex(g.data4[4] as nat, 2) + hex(g.data4[5] as nat, 2) + hex(
        g.data4[6] as nat,
        2,
    ) + hex(g.data4[7] as nat, 2)
}

/// Parses the hexadecimal digits `bytes[begin..end]`; `None` if the range
/// is empty, out of bounds, or holds a non-digit.
fn hex_seq(bytes: &[u8], begin: usize, end: usize) -> (r: Option<u64>)
    requires
        end <= begin + 8,
    ensures
        r == (if begin >= end || end > bytes@.len() {
            None::<u64>
        } else {
            match hex_number(bytes@, begin as int, end as int) {
                Some(v) => Some(v as u64),
                None => None,
            }
        }),
{
    if begin >= end || end > bytes.len() {
        return None;
    }
    let mut value: u64 = 0;
    let mut i = begin;
    proof {
        lemma_hex_number(bytes@, begin as int, end as int);
        lemma_pow16_le(0, 8);
    }
    while i < end
        invariant
            begin <= i <= end <= bytes@.len(),
            end <= begin + 8,
            hex_number(bytes@, begin as int, i as int) == Some(value as int),
            value < pow16((i - begin) as nat),
            pow16((i - begin) as nat) <= pow16(8),
            hex_number(bytes@, begin as int, end as int) is Some <==> (forall|k: int|
                begin <= k < end ==> #[trigger] hex_digit_value(bytes@[k]) is Some),
        decreases end - i,
    {
        let b = bytes[i];
        let digit: u8 = if b >= 48 && b <= 57 {
            b - 48
        } else if b >= 97 && b <= 102 {
            b - 97 + 10
        } else if b >= 65 && b <= 70 {
            b - 65 + 10
        } else {
            assert(hex_digit_value(bytes@[i as int]) is None);
            return None;
        };
        assert(pow16(8) == 4294967296) by {
            reveal_with_fuel(pow16, 9);
        }
        proof {
            lemma_pow16_le(((i - begin) + 1) as nat, 8);
        }
        value = value * 16 + digit as u64;
        i += 1;
    }
    Some(value)
}

/// Facts about the first `k` two-digit fields of `data4`.
proof fn lemma_data4_fields(b: Seq<u8>, k: int)
    requires
        0 <= k <= 8,
        b.len() == 36,
    ensures
        forall|j: int|
            #![trigger data4_text_start(j)]
            0 <= j < k ==> (hex_number(b, data4_text_start(j), data4_text_start(j) + 2) is Some
                <==> (forall|m: int|
                data4_text_start(j) <= m < data4_text_start(j) + 2 ==> #[trigger] hex_digit_value(
                    b[m],
                ) is Some)),
        forall|j: int|
            #![trigger data4_text_start(j)]
            0 <= j < k ==> (hex_number(b, data4_text_start(j), data4_text_start(j) + 2) matches Some(
                v,
            ) ==> 0 <= v < 256),
    decreases k,
{
    if k > 0 {
        lemma_data4_fields(b, k - 1);
        lemma_hex_number(b, data4_text_start(k - 1), data4_text_start(k - 1) + 2);
        assert(pow16(2) == 256) by {
            reveal_with_fuel(pow16, 3);
        }
    }
}

/// `pow16` is monotone.
proof fn lemma_pow16_le(a: nat, b: nat)
    requires
        a <= b,
    ensures
        pow16(a) <= pow16(b),
        pow16(a) >= 1,
    decreases b,
{
    if b > a {
        lemma_pow16_le(a, (b - 1) as nat);
    } else if a > 0 {
        lemma_pow16_le((a - 1) as nat, (a - 1) as nat);
    }
}

/// The bytes of characters below 128, one each.
pub open spec fn ascii_bytes(s: Seq<char>) -> Seq<u8> {
    s.map_values(|c: char| (c as u32) as u8)
}

/// Whether `c` is a lower-case hexadecimal digit.
pub open spec fn is_lower_hex(c: char) -> bool {
    ('0' <= c && c <= '9') || ('a' <= c && c <= 'f')
}

/// A lower-case hexadecimal digit is ASCII and reads back as its value.
proof fn lemma_digit_char(d: int)
    requires
        0 <= d < 16,
    ensures
        is_lower_hex(digit_char(d)),
        (digit_char(d) as u32) < 128,
        hex_digit_value((digit_char(d) as u32) as u8) == Some(d),
{
}

/// UTF-8 encodes characters below 128 as their ASCII bytes.
proof fn lemma_encode_ascii(s: Seq<char>)
    requires
        forall|i: int| 0 <= i < s.len() ==> (#[trigger] s[i] as u32) < 128,
    ensures
        encode_utf8(s) == ascii_bytes(s),
    decreases s.len(),
{
    if s.len() > 0 {
        let v = s[0] as u32;
        assert(v < 128 ==> v & 0x7f == v) by (bit_vector);
        lemma_encode_ascii(s.drop_first());
        assert(encode_scalar(v) == seq![v as u8]);
        assert(ascii_bytes(s) =~= seq![v as u8] + ascii_bytes(s.drop_first()));
    }
}

/// Rendering with two or more places ends in the last digit, after the
/// rendering of the rest with one place less.
proof fn lemma_hex_step(n: nat, w: nat)
    requires
        w >= 2,
    ensures
        hex(n, w) == hex(n / 16, (w - 1) as nat).push(digit_char((n % 16) as int)),
{
    if n < 16 {
        assert(digits(n, 16) == seq![digit_char(n as int)]);
        assert(digits(0, 16) == seq![digit_char(0)]);
        assert(hex(n, w) =~= hex(n / 16, (w - 1) as nat).push(digit_char((n % 16) as int)));
    } else {
        let d = digits(n / 16, 16);
        assert(digits(n, 16) == d.push(digit_char((n % 16) as int)));
        assert(hex(n, w) =~= hex(n / 16, (w - 1) as nat).push(digit_char((n % 16) as int)));
    }
}

/// A value below `16^w` rendered with `w` places has `w` ASCII characters
/// that read back as the value wherever they stand in `b`.
proof fn lemma_hex_reads_back(n: nat, w: nat, b: Seq<u8>, o: int)
    requires
        w >= 1,
        n < pow16(w),
        0 <= o,
        o + w <= b.len(),
        hex(n, w).len() == w ==> b.subrange(o, o + w) == ascii_bytes(hex(n, w)),
    ensures
        hex(n, w).len() == w,
        forall|i: int| 0 <= i < w ==> (#[trigger] hex(n, w)[i] as u32) < 128,
        forall|i: int| 0 <= i < w ==> is_lower_hex(#[trigger] hex(n, w)[i]),
        hex_number(b, o, o + w) == Some(n as int),
    decreases w,
{
    if w == 1 {
        assert(pow16(1) == 16) by {
            reveal_with_fuel(pow16, 2);
        }
        assert(digits(n, 16) == seq![digit_char(n as int)]);
        assert(hex(n, 1) == seq![digit_char(n as int)]);
        lemma_digit_char(n as int);
        assert(b[o] == b.subrange(o, o + 1)[0]);
        assert(hex_number(b, o, o) == Some(0int));
    } else {
        lemma_hex_step(n, w);
        lemma_hex_reads_back_len(n, w);
        let h1 = hex(n / 16, (w - 1) as nat);
        let c = digit_char((n % 16) as int);
        lemma_digit_char((n % 16) as int);
        assert(n / 16 < pow16((w - 1) as nat));
        lemma_hex_reads_back_len(n / 16, (w - 1) as nat);
        assert(ascii_bytes(h1.push(c)) =~= ascii_bytes(h1).push((c as u32) as u8));
        assert(b.subrange(o, o + w - 1) =~= b.subrange(o, o + w).subrange(0, w - 1));
        assert(b.subrange(o, o + w) == ascii_bytes(h1).push((c as u32) as u8));
        assert(ascii_bytes(h1).push((c as u32) as u8).subrange(0, w - 1) =~= ascii_bytes(h1));
        lemma_hex_reads_back(n / 16, (w - 1) as nat, b, o);
        assert(b[o + w - 1] == b.subrange(o, o + w)[w - 1]);
        assert forall|i: int| 0 <= i < w implies (#[trigger] hex(n, w)[i] as u32) < 128 && is_lower_hex(
            hex(n, w)[i],
        ) by {
            if i < w - 1 {
                assert(hex(n, w)[i] == h1[i]);
            }
        }
    }
}

/// A value below `16^w` rendered with `w` places has `w` characters.
proof fn lemma_hex_reads_back_len(n: nat, w: nat)
    requires
        w >= 1,
        n < pow16(w),
    ensures
        hex(n, w).len() == w,
    decreases w,
{
    if w == 1 {
        assert(pow16(1) == 16) by {
            reveal_with_fuel(pow16, 2);
        }
        assert(digits(n, 16) == seq![digit_char(n as int)]);
    } else {
        lemma_hex_step(n, w);
        lemma_hex_reads_back_len(n / 16, (w - 1) as nat);
    }
}

/// The text form of a GUID is 36 characters, lower-case hexadecimal digits
/// in groups of 8, 4, 4, 4 and 12 between dashes, and it reads back as
/// that GUID and as no other.
pub proof fn lemma_guid_text_round_trip(g: Guid, h: Guid)
    ensures
        guid_text(g).len() == 36,
        forall|i: int|
            0 <= i < 36 ==> if i == 8 || i == 13 || i == 18 || i == 23 {
                guid_text(g)[i] == '-'
            } else {
                is_lower_hex(#[trigger] guid_text(g)[i])
            },
        is_guid_text(encode_utf8(guid_text(g))),
        guid_matches_text(g, encode_utf8(guid_text(g))),
        guid_matches_text(h, encode_utf8(guid_text(g))) ==> h == g,
{
    reveal_with_fuel(pow16, 9);
    assert(pow16(8) == 0x1_0000_0000 && pow16(4) == 0x1_0000 && pow16(2) == 0x100);
    lemma_hex_reads_back_len(g.data1 as nat, 8);
    lemma_hex_reads_back_len(g.data2 as nat, 4);
    lemma_hex_reads_back_len(g.data3 as nat, 4);
    lemma_hex_reads_back_len(g.data4[0] as nat, 2);
    lemma_hex_reads_back_len(g.data4[1] as nat, 2);
    lemma_hex_reads_back_len(g.data4[2] as nat, 2);
    lemma_hex_reads_back_len(g.data4[3] as nat, 2);
    lemma_hex_reads_back_len(g.data4[4] as nat, 2);
    lemma_hex_reads_back_len(g.data4[5] as nat, 2);
    lemma_hex_reads_back_len(g.data4[6] as nat, 2);
    lemma_hex_reads_back_len(g.data4[7] as nat, 2);
    let t = guid_text(g);
    let b = ascii_bytes(t);
    assert(t.len() == 36);
    assert(t.subrange(0, 8) =~= hex(g.data1 as nat, 8));
    assert(b.subrange(0, 8) =~= ascii_bytes(hex(g.data1 as nat, 8)));
    lemma_hex_reads_back(g.data1 as nat, 8, b, 0);
    lemma_hex_number(b, 0, 8);
    assert(t.subrange(9, 13) =~= hex(g.data2 as nat, 4));
    assert(b.subrange(9, 13) =~= ascii_bytes(hex(g.data2 as nat, 4)));
    lemma_hex_reads_back(g.data2 as nat, 4, b, 9);
    lemma_hex_number(b, 9, 13);
    assert(t.subrange(14, 18) =~= hex(g.data3 as nat, 4));
    assert(b.subrange(14, 18) =~= ascii_bytes(hex(g.data3 as nat, 4)));
    lemma_hex_reads_back(g.data3 as nat, 4, b, 14);
    lemma_hex_number(b, 14, 18);
    assert(t.subrange(19, 21) =~= hex(g.data4[0] as nat, 2));
    assert(b.subrange(19, 21) =~= ascii_bytes(hex(g.data4[0] as nat, 2)));
    lemma_hex_reads_back(g.data4[0] as nat, 2, b, 19);
    lemma_hex_number(b, 19, 21);
    assert(t.subrange(21, 23) =~= hex(g.data4[1] as nat, 2));
    assert(b.subrange(21, 23) =~= ascii_bytes(hex(g.data4[1] as nat, 2)));
    lemma_hex_reads_back(g.data4[1] as nat, 2, b, 21);
    lemma_hex_number(b, 21, 23);
    assert(t.subrange(24, 26) =~= hex(g.data4[2] as nat, 2));
    assert(b.subrange(24, 26) =~= ascii_bytes(hex(g.data4[2] as nat, 2)));
    lemma_hex_reads_back(g.data4[2] as nat, 2, b, 24);
    lemma_hex_number(b, 24, 26);
    assert(t.subrange(26, 28) =~= hex(g.data4[3] as nat, 2));
    assert(b.subrange(26, 28) =~= ascii_bytes(hex(g.data4[3] as nat, 2)));
    lemma_hex_reads_back(g.data4[3] as nat, 2, b, 26);
    lemma_hex_number(b, 26, 28);
    assert(t.subrange(28, 30) =~= hex(g.data4[4] as nat, 2));
    assert(b.subrange(28, 30) =~= ascii_bytes(hex(g.data4[4] as nat, 2)));
    lemma_hex_reads_back(g.data4[4] as nat, 2, b, 28);
    lemma_hex_number(b, 28, 30);
    assert(t.subrange(30, 32) =~= hex(g.data4[5] as nat, 2));
    assert(b.subrange(30, 32) =~= ascii_bytes(hex(g.data4[5] as nat, 2)));
    lemma_hex_reads_back(g.data4[5] as nat, 2, b, 30);
    lemma_hex_number(b, 30, 32);
    assert(t.subrange(32, 34) =~= hex(g.data4[6] as nat, 2));
    assert(b.subrange(32, 34) =~= ascii_bytes(hex(g.data4[6] as nat, 2)));
    lemma_hex_reads_back(g.data4[6] as nat, 2, b, 32);
    lemma_hex_number(b, 32, 34);
    assert(t.subrange(34, 36) =~= hex(g.data4[7] as nat, 2));
    assert(b.subrange(34, 36) =~= ascii_bytes(hex(g.data4[7] as nat, 2)));
    lemma_hex_reads_back(g.data4[7] as nat, 2, b, 34);
    lemma_hex_number(b, 34, 36);
    assert forall|i: int| 0 <= i < t.len() implies (#[trigger] t[i] as u32) < 128 && if i == 8 || i
        == 13 || i == 18 || i == 23 {
        t[i] == '-'
    } else {
        is_lower_hex(t[i])
    } by {
        if 0 <= i < 8 {
            assert(t[i] == t.subrange(0, 8)[i - 0]);
        }
        if 9 <= i < 13 {
            assert(t[i] == t.subrange(9, 13)[i - 9]);
        }
        if 14 <= i < 18 {
            assert(t[i] == t.subrange(14, 18)[i - 14]);
        }
        if 19 <= i < 21 {
            assert(t[i] == t.subrange(19, 21)[i - 19]);
        }
        if 21 <= i < 23 {
            assert(t[i] == t.subrange(21, 23)[i - 21]);
        }
        if 24 <= i < 26 {
            assert(t[i] == t.subrange(24, 26)[i - 24]);
        }
        if 26 <= i < 28 {
            assert(t[i] == t.subrange(26, 28)[i - 26]);
        }
        if 28 <= i < 30 {
            assert(t[i] == t.subrange(28, 30)[i - 28]);
        }
        if 30 <= i < 32 {
            assert(t[i] == t.subrange(30, 32)[i - 30]);
        }
        if 32 <= i < 34 {
            assert(t[i] == t.subrange(32, 34)[i - 32]);
        }
        if 34 <= i < 36 {
            assert(t[i] == t.subrange(34, 36)[i - 34]);
        }
    }
    lemma_encode_ascii(t);
    assert(b[8] == 45 && b[13] == 45 && b[18] == 45 && b[23] == 45);
    assert forall|k: int| 0 <= k < 8 implies #[trigger] g.data4[k] == hex_number(
        b,
        data4_text_start(k),
        data4_text_start(k) + 2,
    )->0 by {
        if k == 0 {} else if k == 1 {} else if k == 2 {} else if k == 3 {}
        else if k == 4 {} else if k == 5 {} else if k == 6 {} else {}
    }
    if guid_matches_text(h, b) {
        assert forall|k: int| 0 <= k < 8 implies h.data4@[k] == g.data4@[k] by {
            assert(h.data4[k] == hex_number(b, data4_text_start(k), data4_text_start(k) + 2)->0);
            assert(g.data4[k] == hex_number(b, data4_text_start(k), data4_text_start(k) + 2)->0);
        }
        assert(h.data4 =~= g.data4);
    }
}

/// An ASCII byte in upper case.
pub open spec fn ascii_upper(x: u8) -> u8 {
    if 97 <= x <= 122 {
        (x - 32) as u8
    } else {
        x
    }
}

proof fn lemma_hex_number_upper(b: Seq<u8>, begin: int, end: int)
    requires
        0 <= begin <= end <= b.len(),
    ensures
        hex_number(b.map_values(|x: u8| ascii_upper(x)), begin, end) == hex_number(b, begin, end),
    decreases end - begin,
{
    if end > begin {
        lemma_hex_number_upper(b, begin, end - 1);
        let u = b.map_values(|x: u8| ascii_upper(x));
        assert(u[end - 1] == ascii_upper(b[end - 1]));
        assert(hex_digit_value(ascii_upper(b[end - 1])) == hex_digit_value(b[end - 1]));
    }
}

/// Case does not matter in GUID text: a text with its letters in upper
/// case is GUID text exactly when the text is, and spells the same GUIDs.
pub proof fn lemma_guid_text_any_case(b: Seq<u8>, g: Guid)
    ensures
        is_guid_text(b.map_values(|x: u8| ascii_upper(x))) == is_guid_text(b),
        b.len() == 36 ==> (guid_matches_text(g, b.map_values(|x: u8| ascii_upper(x)))
            == guid_matches_text(g, b)),
{
    let u = b.map_values(|x: u8| ascii_upper(x));
    assert forall|k: int| 0 <= k < b.len() implies #[trigger] hex_digit_value(u[k])
        == hex_digit_value(b[k]) && (u[k] == 45) == (b[k] == 45) by {
        assert(u[k] == ascii_upper(b[k]));
    }
    if b.len() == 36 {
        lemma_hex_number_upper(b, 0, 8);
        lemma_hex_number_upper(b, 9, 13);
        lemma_hex_number_upper(b, 14, 18);
        assert forall|k: int| 0 <= k < 8 implies hex_number(
            u,
            #[trigger] data4_text_start(k),
            data4_text_start(k) + 2,
        ) == hex_number(b, data4_text_start(k), data4_text_start(k) + 2) by {
            lemma_hex_number_upper(b, data4_text_start(k), data4_text_start(k) + 2);
        }
        if is_guid_text(b) {
            assert forall|k: int|
                0 <= k < 36 && k != 8 && k != 13 && k != 18 && k != 23 implies #[trigger] hex_digit_value(
                u[k],
            ) is Some by {
                assert(hex_digit_value(b[k]) is Some);
            }
        }
        if is_guid_text(u) {
            assert forall|k: int|
                0 <= k < 36 && k != 8 && k != 13 && k != 18 && k != 23 implies #[trigger] hex_digit_value(
                b[k],
            ) is Some by {
                assert(hex_digit_value(u[k]) is Some);
            }
        }
    }
}

impl Guid {
    /// Parses a GUID string in the format `xxxxxxxx-xxxx-xxxx-xxxx-xxxxxxxxxxxx`,
    /// accepting both lower- and upper-case hexadecimal digits.
    pub fn try_from_str(s: &str) -> (r: Result<Guid, GuidParseError>)
        ensures
            r is Ok <==> is_guid_text(s.spec_bytes()),
            r matches Ok(g) ==> guid_matches_text(g, s.spec_bytes()),
    {
        let bytes = s.as_bytes();
        let ghost b = bytes@;
        if bytes.len() != 36 {
            return Err(GuidParseError);
        }
        if bytes[8] != 45 || bytes[13] != 45 || bytes[18] != 45 || bytes[23] != 45 {
            return Err(GuidParseError);
        }
        proof {
            lemma_hex_number(b, 0, 8);
            lemma_hex_number(b, 9, 13);
            lemma_hex_number(b, 14, 18);
            lemma_data4_fields(b, 8);
            assert(pow16(8) == 4294967296) by {
                reveal_with_fuel(pow16, 9);
            }
            assert(pow16(4) == 65536) by {
                reveal_with_fuel(pow16, 5);
            }
        }
        match (
            hex_seq(bytes, 0, 8),
            hex_seq(bytes, 9, 13),
            hex_seq(bytes, 14, 18),
            hex_seq(bytes, 19, 21),
            hex_seq(bytes, 21, 23),
            hex_seq(bytes, 24, 26),
            hex_seq(bytes, 26, 28),
            hex_seq(bytes, 28, 30),
            hex_seq(bytes, 30, 32),
            hex_seq(bytes, 32, 34),
            hex_seq(bytes, 34, 36),
        ) {
            (
                Some(data1),
                Some(data2),
                Some(data3),
                Some(d4_0),
                Some(d4_1),
                Some(d4_2),
                Some(d4_3),
                Some(d4_4),
                Some(d4_5),
                Some(d4_6),
                Some(d4_7),
            ) => {
                assert(data4_text_start(0) == 19 && data4_text_start(1) == 21 && data4_text_start(2)
                    == 24 && data4_text_start(3) == 26 && data4_text_start(4) == 28
                    && data4_text_start(5) == 30 && data4_text_start(6) == 32 && data4_text_start(7)
                    == 34);
                let g = Guid {
                    data1: data1 as u32,
                    data2: data2 as u16,
                    data3: data3 as u16,
                    data4: [
                        d4_0 as u8,
                        d4_1 as u8,
                        d4_2 as u8,
                        d4_3 as u8,
                        d4_4 as u8,
                        d4_5 as u8,
                        d4_6 as u8,
                        d4_7 as u8,
                    ],
                };
                assert forall|k: int|
                    0 <= k < 36 && k != 8 && k != 13 && k != 18 && k != 23 implies #[trigger] hex_digit_value(
                    b[k],
                ) is Some by {
                    if k < 8 {
                    } else if k < 13 {
                    } else if k < 18 {
                    } else if k < 21 {
                        assert(data4_text_start(0) <= k < data4_text_start(0) + 2);
                    } else if k < 23 {
                        assert(data4_text_start(1) <= k < data4_text_start(1) + 2);
                    } else if k < 26 {
                        assert(data4_text_start(2) <= k < data4_text_start(2) + 2);
                    } else if k < 28 {
                        assert(data4_text_start(3) <= k < data4_text_start(3) + 2);
                    } else if k < 30 {
                        assert(data4_text_start(4) <= k < data4_text_start(4) + 2);
                    } else if k < 32 {
                        assert(data4_text_start(5) <= k < data4_text_start(5) + 2);
                    } else if k < 34 {
                        assert(data4_text_start(6) <= k < data4_text_start(6) + 2);
                    } else {
                        assert(data4_text_start(7) <= k < data4_text_start(7) + 2);
                    }
                }
                assert(guid_matches_text(g, b));
                Ok(g)
            },
            _ => {
                proof {
                    if is_guid_text(b) {
                        assert forall|j: int| 0 <= j < 8 implies hex_number(
                            b,
                            data4_text_start(j),
                            data4_text_start(j) + 2,
                        ) is Some by {
                            assert forall|m: int|
                                data4_text_start(j) <= m < data4_text_start(j)
                                    + 2 implies #[trigger] hex_digit_value(b[m]) is Some by {
                                assert(m != 8 && m != 13 && m != 18 && m != 23);
                            }
                        }
                        assert(hex_number(b, 0, 8) is Some);
                        assert(hex_number(b, 9, 13) is Some);
                        assert(hex_number(b, 14, 18) is Some);
                        assert(hex_number(b, data4_text_start(0), data4_text_start(0) + 2) is Some);
                        assert(hex_number(b, data4_text_start(1), data4_text_start(1) + 2) is Some);
                        assert(hex_number(b, data4_text_start(2), data4_text_start(2) + 2) is Some);
                        assert(hex_number(b, data4_text_start(3), data4_text_start(3) + 2) is Some);
                        assert(hex_number(b, data4_text_start(4), data4_text_start(4) + 2) is Some);
                        assert(hex_number(b, data4_text_start(5), data4_text_start(5) + 2) is Some);
                        assert(hex_number(b, data4_text_start(6), data4_text_start(6) + 2) is Some);
                        assert(hex_number(b, data4_text_start(7), data4_text_start(7) + 2) is Some);
                    }
                }
                Err(GuidParseError)
            },
        }
    }

    /// The text form `xxxxxxxx-xxxx-xxxx-xxxx-xxxxxxxxxxxx`, lower-case.
    pub fn to_string(&self) -> (s: String)
        ensures
            s@ == guid_text(*self),
    {
        let mut out: Vec<char> = Vec::new();
        push_hex(&mut out, self.data1 as u64, 8);
        out.push('-');
        push_hex(&mut out, self.data2 as u64, 4);
        out.push('-');
        push_hex(&mut out, self.data3 as u64, 4);
        out.push('-');
        push_hex(&mut out, self.data4[0] as u64, 2);
        push_hex(&mut out, self.data4[1] as u64, 2);
        out.push('-');
        push_hex(&mut out, self.data4[2] as u64, 2);
        push_hex(&mut out, self.data4[3] as u64, 2);
        push_hex(&mut out, self.data4[4] as u64, 2);
        push_hex(&mut out, self.data4[5] as u64, 2);
        push_hex(&mut out, self.data4[6] as u64, 2);
        push_hex(&mut out, self.data4[7] as u64, 2);
        assert(out@ =~= guid_text(*self));
        string_from_chars(out.as_slice())
    }

    /// The debugging form `guid_str("<text form>")`.
    pub fn to_debug_string(&self) -> (s: String)
        ensures
            s@ == "guid_str(\""@ + guid_text(*self) + "\")"@,
    {
        let mut out: Vec<char> = Vec::new();
        push_str(&mut out, "guid_str(\"");
        let text = self.to_string();
        push_str(&mut out, text.as_str());
        push_str(&mut out, "\")");
        string_from_chars(out.as_slice())
    }
}

/// Converts a GUID literal to a `Guid`; the literal must be valid.
pub fn guid_str(s: &str) -> (g: Guid)
    requires
        is_guid_text(s.spec_bytes()),
    ensures
        guid_matches_text(g, s.spec_bytes()),
{
    match Guid::try_from_str(s) {
        Ok(g) => g,
        Err(_) => {
            proof {
                assert(false);
            }
            Guid { data1: 0, data2: 0, data3: 0, data4: [0u8; 8] }
        },
    }
}

/// `g` is the GUID stored in its 16-byte in-memory layout (little-endian
/// fields) at offset `off` of `d`.
pub open spec fn guid_le_at(g: Guid, d: Seq<u8>, off: int) -> bool {
    &&& g.data1 == le32(d, off)
    &&& g.data2 == le16(d, off + 4)
    &&& g.data3 == le16(d, off + 6)
    &&& g.data4@ == d.subrange(off + 8, off + 16)
}

/// The 16-byte in-memory layout of `g`.
pub open spec fn guid_le_bytes(g: Guid) -> Seq<u8> {
    le32_bytes(g.data1 as int) + le16_bytes(g.data2 as int) + le16_bytes(g.data3 as int) + g.data4@
}

impl Guid {
    /// Reads a GUID from its in-memory layout at offset `off` of `d`.
    pub fn read_le(d: &[u8], off: usize) -> (g: Guid)
        requires
            off + 16 <= d@.len(),
        ensures
            guid_le_at(g, d@, off as int),
    {
        let _n = d.len();
        let g = Guid {
            data1: read_le32(d, off),
            data2: read_le16(d, off + 4),
            data3: read_le16(d, off + 6),
            data4: [
                d[off + 8],
                d[off + 9],
                d[off + 10],
                d[off + 11],
                d[off + 12],
                d[off + 13],
                d[off + 14],
                d[off + 15],
            ],
        };
        assert(g.data4@ =~= d@.subrange(off + 8, off + 16));
        g
    }

    /// Appends the in-memory layout of the GUID to `v`.
    pub fn push_le(&self, v: &mut Vec<u8>)
        ensures
            final(v)@ == old(v)@ + guid_le_bytes(*self),
    {
        push_le32(v, self.data1);
        push_le16(v, self.data2);
        push_le16(v, self.data3);
        push_all(v, &self.data4);
        assert(final(v)@ =~= old(v)@ + guid_le_bytes(*self));
    }
}

/// A GUID with its multi-byte fields stored in a fixed byte order:
/// big-endian when `BIG_ENDIAN` (as hashing by RFC 9562 reads them),
/// little-endian otherwise (as GPT and UEFI store them).
#[derive(Clone, Copy, Debug, Default, Hash)]
pub struct OrderedGuid<const BIG_ENDIAN: bool> {
    data1: [u8; 4],
    data2: [u8; 2],
    data3: [u8; 2],
    data4: [u8; 8],
}

/// The 16-bit number in the two bytes at `off`, in the given order.
pub open spec fn ordered16(s: Seq<u8>, off: int, big_endian: bool) -> int {
    if big_endian {
        256 * s[off] + s[off + 1]
    } else {
        le16(s, off)
    }
}

/// The 32-bit number in the four bytes at `off`, in the given order.
pub open spec fn ordered32(s: Seq<u8>, off: int, big_endian: bool) -> int {
    if big_endian {
        65536 * ordered16(s, off, true) + ordered16(s, off + 2, true)
    } else {
        le32(s, off)
    }
}

impl<const BIG_ENDIAN: bool> OrderedGuid<BIG_ENDIAN> {
    /// The stored bytes, in layout order.
    pub closed spec fn bytes(&self) -> Seq<u8> {
        self.data1@ + self.data2@ + self.data3@ + self.data4@
    }

    /// The GUID the bytes hold.
    pub closed spec fn value(&self) -> Guid {
        Guid {
            data1: ordered32(self.data1@, 0, BIG_ENDIAN) as u32,
            data2: ordered16(self.data2@, 0, BIG_ENDIAN) as u16,
            data3: ordered16(self.data3@, 0, BIG_ENDIAN) as u16,
            data4: self.data4,
        }
    }

    /// Stores `g` in this byte order.
    pub fn from_guid(g: Guid) -> (r: Self)
        ensures
            r.value() == g,
    {
        let x = g.data1;
        let data1: [u8; 4] = if BIG_ENDIAN {
            [(x / 16777216) as u8, ((x / 65536) % 256) as u8, ((x / 256) % 256) as u8, (x % 256) as u8]
        } else {
            [(x % 256) as u8, ((x / 256) % 256) as u8, ((x / 65536) % 256) as u8, (x / 16777216) as u8]
        };
        let data2 = Self::field16(g.data2);
        let data3 = Self::field16(g.data3);
        let r = OrderedGuid { data1, data2, data3, data4: g.data4 };
        proof {
            assert(ordered32(data1@, 0, BIG_ENDIAN) == x);
        }
        r
    }

    fn field16(y: u16) -> (r: [u8; 2])
        ensures
            ordered16(r@, 0, BIG_ENDIAN) == y,
    {
        if BIG_ENDIAN {
            [(y / 256) as u8, (y % 256) as u8]
        } else {
            [(y % 256) as u8, (y / 256) as u8]
        }
    }

    /// The GUID the bytes hold.
    pub fn to_guid(&self) -> (g: Guid)
        ensures
            g == self.value(),
    {
        let a = &self.data1;
        let d1: u32 = if BIG_ENDIAN {
            (a[0] as u32) * 16777216 + (a[1] as u32) * 65536 + (a[2] as u32) * 256 + a[3] as u32
        } else {
            (a[3] as u32) * 16777216 + (a[2] as u32) * 65536 + (a[1] as u32) * 256 + a[0] as u32
        };
        let b = &self.data2;
        let d2: u16 = if BIG_ENDIAN {
            (b[0] as u16) * 256 + b[1] as u16
        } else {
            (b[1] as u16) * 256 + b[0] as u16
        };
        let c = &self.data3;
        let d3: u16 = if BIG_ENDIAN {
            (c[0] as u16) * 256 + c[1] as u16
        } else {
            (c[1] as u16) * 256 + c[0] as u16
        };
        Guid { data1: d1, data2: d2, data3: d3, data4: self.data4 }
    }

    /// The 16 stored bytes.
    pub fn as_bytes(&self) -> (r: [u8; 16])
        ensures
            r@ == self.bytes(),
    {
        let (a, b, c, d) = (self.data1, self.data2, self.data3, self.data4);
        let r = [
            a[0], a[1], a[2], a[3], b[0], b[1], c[0], c[1], d[0], d[1], d[2], d[3], d[4], d[5], d[6],
            d[7],
        ];
        assert(r@ =~= self.bytes());
        r
    }
}

} // verus!
