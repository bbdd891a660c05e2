//! Character-sequence helpers: conversion between `str`/`String` and
//! `Vec<char>`, and hexadecimal/decimal rendering of integers.
use vstd::prelude::*;

verus! {

/// Builds a `String` holding exactly the characters of `v`.
///
/// Trusted: calls `<String as FromIterator<char>>::from_iter` through
/// `Iterator::collect`; std documents that collecting chars into a `String`
/// concatenates them in order.
#[verifier::external_body]
pub fn string_from_chars(v: &[char]) -> (s: String)
    ensures
        s@ == v@,
{
    v.iter().collect()
}

/// The characters of `s`, in order.
pub fn chars_of(s: &str) -> (v: Vec<char>)
    ensures
        v@ == s@,
{
    let mut v: Vec<char> = Vec::new();
    for c in it: s.chars()
        invariant
            v@ == it.seq().take(it.index() as int),
    {
        v.push(c);
    }
    assert(v@ =~= s@);
    v
}

/// Appends the characters of `s` to `out`.
pub fn push_chars(out: &mut Vec<char>, s: &[char])
    ensures
        final(out)@ == old(out)@ + s@,
{
    let ghost start = out@;
    let mut i: usize = 0;
    while i < s.len()
        invariant
            i <= s@.len(),
            out@ == start + s@.subrange(0, i as int),
        decreases s@.len() - i,
    {
        out.push(s[i]);
        i += 1;
        assert(out@ =~= start + s@.subrange(0, i as int));
    }
    assert(s@.subrange(0, s@.len() as int) =~= s@);
}

/// Appends the characters of `s` to `out`.
pub fn push_str(out: &mut Vec<char>, s: &str)
    ensures
        final(out)@ == old(out)@ + s@,
{
    let cs = chars_of(s);
    push_chars(out, cs.as_slice());
}

/// Whether `a[start..end]` equals `b`.
pub fn chars_range_eq(a: &[char], start: usize, end: usize, b: &[char]) -> (r: bool)
    requires
        start <= end <= a@.len(),
    ensures
        r == (a@.subrange(start as int, end as int) == b@),
{
    if end - start != b.len() {
        assert(a@.subrange(start as int, end as int).len() != b@.len());
        return false;
    }
    let mut i: usize = 0;
    while i < b.len()
        invariant
            end - start == b@.len(),
            start <= end <= a@.len(),
            i <= b@.len(),
            forall|j: int| 0 <= j < i ==> a@[start + j] == b@[j],
        decreases b@.len() - i,
    {
        if a[start + i] != b[i] {
            assert(a@.subrange(start as int, end as int)[i as int] != b@[i as int]);
            return false;
        }
        i += 1;
    }
    assert(a@.subrange(start as int, end as int) =~= b@);
    true
}

/// Whether two character slices are equal.
pub fn chars_eq(a: &[char], b: &[char]) -> (r: bool)
    ensures
        r == (a@ == b@),
{
    let r = chars_range_eq(a, 0, a.len(), b);
    assert(a@.subrange(0, a@.len() as int) =~= a@);
    r
}

/// Lower-case digit character for `d < 16`.
pub open spec fn digit_char(d: int) -> char {
    if d < 10 {
        (48 + d) as char
    } else {
        (87 + d) as char
    }
}

/// The digits of `n` in the given base, most significant first, without
/// leading zeros (zero is the single digit `0`).
pub open spec fn digits(n: nat, base: nat) -> Seq<char>
    decreases n,
{
    if base < 2 || n < base {
        seq![digit_char(n as int)]
    } else {
        proof {
            vstd::arithmetic::div_mod::lemma_div_decreases(n as int, base as int);
        }
        digits(n / base, base).push(digit_char((n % base) as int))
    }
}

/// `s` padded on the left with `c` up to `width` characters.
pub open spec fn pad_left(s: Seq<char>, width: nat, c: char) -> Seq<char> {
    if s.len() >= width {
        s
    } else {
        Seq::new((width - s.len()) as nat, |_i: int| c) + s
    }
}

/// Lower-case hexadecimal rendering of `n`, zero-padded to `width` (the
/// `{:0width$x}` format).
pub open spec fn hex(n: nat, width: nat) -> Seq<char> {
    pad_left(digits(n, 16), width, '0')
}

/// Decimal rendering of `n` (the `{}` format).
pub open spec fn dec(n: nat) -> Seq<char> {
    digits(n, 10)
}

/// Appends the digits of `n` in `base`, padded with `fill` to `width`.
pub fn push_digits(out: &mut Vec<char>, n: u64, base: u64, width: usize, fill: char)
    requires
        2 <= base <= 16,
    ensures
        final(out)@ == old(out)@ + pad_left(digits(n as nat, base as nat), width as nat, fill),
{
    let mut acc: Vec<char> = Vec::new();
    let mut q: u64 = n;
    while q >= base
        invariant
            2 <= base <= 16,
            digits(n as nat, base as nat) == digits(q as nat, base as nat) + acc@,
        decreases q,
    {
        let d = q % base;
        let c = if d < 10 {
            ((48 + d) as u8) as char
        } else {
            ((87 + d) as u8) as char
        };
        let ghost old_acc = acc@;
        acc.insert(0, c);
        let ghost q0 = q;
        q = q / base;
        assert(digits(q0 as nat, base as nat) == digits(q as nat, base as nat).push(
            digit_char((q0 % base) as int),
        ));
        assert(digits(q as nat, base as nat).push(digit_char((q0 % base) as int)) + old_acc
            =~= digits(q as nat, base as nat) + acc@);
    }
    let c = if q < 10 {
        ((48 + q) as u8) as char
    } else {
        ((87 + q) as u8) as char
    };
    acc.insert(0, c);
    assert(digits(n as nat, base as nat) =~= acc@);
    let len = acc.len();
    let ghost start = out@;
    if len < width {
        let mut k: usize = 0;
        while k < width - len
            invariant
                len < width,
                k <= width - len,
                out@ == start + Seq::new(k as nat, |_i: int| fill),
            decreases width - len - k,
        {
            out.push(fill);
            k += 1;
            assert(out@ =~= start + Seq::new(k as nat, |_i: int| fill));
        }
    }
    push_chars(out, acc.as_slice());
    assert(out@ =~= start + pad_left(digits(n as nat, base as nat), width as nat, fill));
}

/// Appends `n` in lower-case hexadecimal, zero-padded to `width`.
pub fn push_hex(out: &mut Vec<char>, n: u64, width: usize)
    ensures
        final(out)@ == old(out)@ + hex(n as nat, width as nat),
{
    push_digits(out, n, 16, width, '0');
}

/// Appends `n` in decimal.
pub fn push_dec(out: &mut Vec<char>, n: u64)
    ensures
        final(out)@ == old(out)@ + dec(n as nat),
{
    push_digits(out, n, 10, 0, '0');
}

/// The separator that follows byte `i` of a hexdump of `len` bytes.
pub open spec fn hexdump_sep(i: int, len: int) -> Seq<char> {
    if (i + 1) % 16 == 0 || i + 1 == len {
        seq!['\n']
    } else if (i + 1) % 8 == 0 {
        seq![' ', ' ']
    } else {
        seq![' ']
    }
}

/// The text a hexdump emits for byte `i` of `s`: the offset at the start of
/// each 16-byte row, the two hex digits, and the separator.
pub open spec fn hexdump_item(s: Seq<u8>, i: int) -> Seq<char> {
    (if i % 16 == 0 {
        hex(i as nat, 4) + seq![' ', ' ']
    } else {
        Seq::empty()
    }) + hex(s[i] as nat, 2) + hexdump_sep(i, s.len() as int)
}

/// The hexdump of the first `n` bytes of `s`.
pub open spec fn hexdump_upto(s: Seq<u8>, n: int) -> Seq<char>
    decreases n,
{
    if n <= 0 {
        Seq::empty()
    } else {
        hexdump_upto(s, n - 1) + hexdump_item(s, n - 1)
    }
}

/// Renders `s` as rows of 16 hex bytes, each row prefixed by its offset.
pub fn hexdump(s: &[u8]) -> (out: String)
    ensures
        out@ == hexdump_upto(s@, s@.len() as int),
{
    let mut out: Vec<char> = Vec::new();
    let mut i: usize = 0;
    while i < s.len()
        invariant
            i <= s@.len(),
            out@ == hexdump_upto(s@, i as int),
        decreases s@.len() - i,
    {
        let ghost before = out@;
        if i % 16 == 0 {
            push_hex(&mut out, i as u64, 4);
            out.push(' ');
            out.push(' ');
        }
        push_hex(&mut out, s[i] as u64, 2);
        if (i + 1) % 16 == 0 || i + 1 == s.len() {
            out.push('\n');
        } else if (i + 1) % 8 == 0 {
            out.push(' ');
            out.push(' ');
        } else {
            out.push(' ');
        }
        assert(out@ =~= before + hexdump_item(s@, i as int));
        i += 1;
    }
    string_from_chars(out.as_slice())
}

/// Whether `c` is white space in the sense of Unicode's `White_Space`
/// property (what `char::is_whitespace` tests).
pub open spec fn is_ws(c: char) -> bool {
    let v = c as u32;
    (9 <= v <= 13) || v == 32 || v == 0x85 || v == 0xa0 || v == 0x1680 || (0x2000 <= v <= 0x200a)
        || v == 0x2028 || v == 0x2029 || v == 0x202f || v == 0x205f || v == 0x3000
}

/// Whether `c` is white space.
pub fn is_whitespace(c: char) -> (r: bool)
    ensures
        r == is_ws(c),
{
    let v = c as u32;
    (9 <= v && v <= 13) || v == 32 || v == 0x85 || v == 0xa0 || v == 0x1680 || (0x2000 <= v && v
        <= 0x200a) || v == 0x2028 || v == 0x2029 || v == 0x202f || v == 0x205f || v == 0x3000
}

/// `s` without leading white space.
pub open spec fn trim_start(s: Seq<char>) -> Seq<char>
    decreases s.len(),
{
    if s.len() > 0 && is_ws(s[0]) {
        trim_start(s.drop_first())
    } else {
        s
    }
}

/// `s` without trailing white space.
pub open spec fn trim_end(s: Seq<char>) -> Seq<char>
    decreases s.len(),
{
    if s.len() > 0 && is_ws(s.last()) {
        trim_end(s.drop_last())
    } else {
        s
    }
}

/// `s` without leading and trailing white space.
pub open spec fn trim(s: Seq<char>) -> Seq<char> {
    trim_end(trim_start(s))
}

/// The bounds of `v[a..b]` without its leading and trailing white space.
pub fn trim_range(v: &[char], a: usize, b: usize) -> (r: (usize, usize))
    requires
        a <= b <= v@.len(),
    ensures
        a <= r.0 <= r.1 <= b,
        v@.subrange(r.0 as int, r.1 as int) == trim(v@.subrange(a as int, b as int)),
{
    let mut i = a;
    while i < b && is_whitespace(v[i])
        invariant
            a <= i <= b <= v@.len(),
            trim_start(v@.subrange(a as int, b as int)) == trim_start(v@.subrange(i as int, b as int)),
        decreases b - i,
    {
        assert(v@.subrange(i as int, b as int).drop_first() =~= v@.subrange(i + 1, b as int));
        i += 1;
    }
    proof {
        if i < b {
            assert(v@.subrange(i as int, b as int)[0] == v@[i as int]);
        }
    }
    let mut j = b;
    while j > i && is_whitespace(v[j - 1])
        invariant
            a <= i <= j <= b <= v@.len(),
            trim_end(v@.subrange(i as int, b as int)) == trim_end(v@.subrange(i as int, j as int)),
        decreases j - i,
    {
        assert(v@.subrange(i as int, j as int).drop_last() =~= v@.subrange(i as int, j - 1));
        j -= 1;
    }
    proof {
        if j > i {
            assert(v@.subrange(i as int, j as int).last() == v@[j - 1]);
        }
    }
    (i, j)
}

/// A `String` of the characters `v[a..b]`.
pub fn string_of_range(v: &[char], a: usize, b: usize) -> (s: String)
    requires
        a <= b <= v@.len(),
    ensures
        s@ == v@.subrange(a as int, b as int),
{
    string_from_chars(&v[a..b])
}

} // verus!
