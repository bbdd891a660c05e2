//! Kernel version suffixes such as `6.8.0-110-generic` and their ordering:
//! by version and revision, then by flavour (known flavours in their rank,
//! before unknown ones, which go by name).
use vstd::prelude::*;
use core::cmp::Ordering;
use crate::text::{chars_of, chars_eq, string_of_range};

verus! {

/// A kernel version.
#[derive(Debug, Clone, Eq, PartialEq)]
pub struct KernelVersion {
    pub major: u32,
    pub minor: u32,
    pub patch: u32,
    pub rev: u32,
    pub flavour: String,
    pub raw: String,
}

/// The value of an ASCII decimal digit.
pub open spec fn digit_value(c: char) -> Option<int> {
    if '0' <= c && c <= '9' {
        Some(c as int - '0' as int)
    } else {
        None
    }
}

/// The value of the decimal digits `s`, if they all are digits.
pub open spec fn digits_value(s: Seq<char>) -> Option<int>
    decreases s.len(),
{
    if s.len() == 0 {
        Some(0)
    } else {
        match (digits_value(s.drop_last()), digit_value(s.last())) {
            (Some(a), Some(d)) => Some(a * 10 + d),
            _ => None,
        }
    }
}

/// What `u32::from_str` gives for `s`: an optional `+`, then one or more
/// ASCII digits whose value fits in 32 bits.
pub open spec fn parse_u32_spec(s: Seq<char>) -> Option<u32> {
    let t = if s.len() > 0 && s[0] == '+' {
        s.drop_first()
    } else {
        s
    };
    if t.len() == 0 {
        None
    } else {
        match digits_value(t) {
            Some(v) => if v <= u32::MAX {
                Some(v as u32)
            } else {
                None
            },
            None => None,
        }
    }
}

/// The index of the first `c` in `s` at or after `i`, or the length.
pub open spec fn find_char(s: Seq<char>, c: char, i: int) -> int
    decreases s.len() - i,
{
    if i < 0 || i >= s.len() || s[i] == c {
        i
    } else {
        find_char(s, c, i + 1)
    }
}

/// The fields of a kernel version suffix: `X.Y.Z-REV` optionally followed
/// by `-FLAVOUR` (which may itself contain dashes).
pub open spec fn kversion_spec(s: Seq<char>) -> Option<(u32, u32, u32, u32, Seq<char>)> {
    let d1 = find_char(s, '-', 0);
    if d1 >= s.len() {
        None
    } else {
        let d2 = find_char(s, '-', d1 + 1);
        let rev = s.subrange(d1 + 1, d2);
        let flavour = if d2 >= s.len() {
            Seq::empty()
        } else {
            s.subrange(d2 + 1, s.len() as int)
        };
        let xyz = s.subrange(0, d1);
        let p1 = find_char(xyz, '.', 0);
        let p2 = find_char(xyz, '.', p1 + 1);
        if p1 >= xyz.len() || p2 >= xyz.len() || find_char(xyz, '.', p2 + 1) < xyz.len() {
            None
        } else {
            match (
                parse_u32_spec(xyz.subrange(0, p1)),
                parse_u32_spec(xyz.subrange(p1 + 1, p2)),
                parse_u32_spec(xyz.subrange(p2 + 1, xyz.len() as int)),
                parse_u32_spec(rev),
            ) {
                (Some(a), Some(b), Some(c), Some(r)) => Some((a, b, c, r, flavour)),
                _ => None,
            }
        }
    }
}

fn find_char_from(v: &[char], c: char, i: usize, end: usize) -> (r: usize)
    requires
        i <= end <= v@.len(),
    ensures
        i <= r <= end,
        r as int == find_char(v@.subrange(0, end as int), c, i as int),
{
    let mut k = i;
    while k < end && v[k] != c
        invariant
            i <= k <= end <= v@.len(),
            find_char(v@.subrange(0, end as int), c, i as int) == find_char(
                v@.subrange(0, end as int),
                c,
                k as int,
            ),
        decreases end - k,
    {
        k += 1;
    }
    k
}

fn digit_of(c: char) -> (r: Option<u32>)
    ensures
        match digit_value(c) {
            Some(d) => r == Some(d as u32),
            None => r is None,
        },
{
    match c {
        '0' => Some(0),
        '1' => Some(1),
        '2' => Some(2),
        '3' => Some(3),
        '4' => Some(4),
        '5' => Some(5),
        '6' => Some(6),
        '7' => Some(7),
        '8' => Some(8),
        '9' => Some(9),
        _ => None,
    }
}

proof fn lemma_digits_value_nonneg(s: Seq<char>)
    ensures
        digits_value(s) matches Some(v) ==> v >= 0,
    decreases s.len(),
{
    if s.len() > 0 {
        lemma_digits_value_nonneg(s.drop_last());
    }
}

proof fn lemma_digits_value_prefix(s: Seq<char>, k: int)
    requires
        0 <= k <= s.len(),
        digits_value(s.subrange(0, k)) is None,
    ensures
        digits_value(s) is None,
    decreases s.len() - k,
{
    if k < s.len() {
        assert(s.subrange(0, k + 1).drop_last() =~= s.subrange(0, k));
        lemma_digits_value_prefix(s, k + 1);
    } else {
        assert(s.subrange(0, k) =~= s);
    }
}

proof fn lemma_digits_value_grows(s: Seq<char>, k: int)
    requires
        0 <= k <= s.len(),
        digits_value(s.subrange(0, k)) matches Some(v) && v > u32::MAX,
    ensures
        !(digits_value(s) matches Some(w) && w <= u32::MAX),
    decreases s.len() - k,
{
    if k < s.len() {
        assert(s.subrange(0, k + 1).drop_last() =~= s.subrange(0, k));
        if digit_value(s[k]) is Some {
            lemma_digits_value_nonneg(s.subrange(0, k));
            lemma_digits_value_grows(s, k + 1);
        } else {
            lemma_digits_value_prefix(s, k + 1);
        }
    } else {
        assert(s.subrange(0, k) =~= s);
    }
}

/// Parses `v[a..b]` as `u32::from_str` does.
pub(crate) fn parse_u32(v: &[char], a: usize, b: usize) -> (r: Option<u32>)
    requires
        a <= b <= v@.len(),
    ensures
        r == parse_u32_spec(v@.subrange(a as int, b as int)),
{
    let ghost s = v@.subrange(a as int, b as int);
    let mut i = a;
    if i < b && v[i] == '+' {
        i = i + 1;
    }
    let ghost t = v@.subrange(i as int, b as int);
    proof {
        if a < b && v@[a as int] == '+' {
            assert(s.drop_first() =~= t);
        } else {
            assert(s =~= t);
        }
    }
    if i >= b {
        return None;
    }
    let start = i;
    let mut acc: u32 = 0;
    while i < b
        invariant
            a <= start <= i <= b <= v@.len(),
            start < b,
            t == v@.subrange(start as int, b as int),
            parse_u32_spec(v@.subrange(a as int, b as int)) == match digits_value(t) {
                Some(x) => if x <= u32::MAX {
                    Some(x as u32)
                } else {
                    None
                },
                None => None,
            },
            digits_value(v@.subrange(start as int, i as int)) == Some(acc as int),
        decreases b - i,
    {
        let ghost pre = v@.subrange(start as int, i as int);
        assert(v@.subrange(start as int, i + 1).drop_last() =~= pre);
        match digit_of(v[i]) {
            None => {
                proof {
                    assert(t.subrange(0, i - start + 1) =~= v@.subrange(start as int, i + 1));
                    lemma_digits_value_prefix(t, i - start + 1);
                }
                return None;
            },
            Some(d) => {
                if acc > 429496729 || (acc == 429496729 && d > 5) {
                    proof {
                        assert(t.subrange(0, i - start + 1) =~= v@.subrange(start as int, i + 1));
                        lemma_digits_value_grows(t, i - start + 1);
                    }
                    return None;
                }
                acc = acc * 10 + d;
            },
        }
        i += 1;
    }
    proof {
        assert(v@.subrange(start as int, i as int) =~= t);
    }
    Some(acc)
}

impl KernelVersion {
    /// Parses a kernel version suffix `X.Y.Z-REV[-FLAVOUR]`.
    pub fn parse(suffix: &str) -> (r: Option<Self>)
        ensures
            match kversion_spec(suffix@) {
                None => r is None,
                Some((a, b, c, d, f)) => r matches Some(k) && k.major == a && k.minor == b
                    && k.patch == c && k.rev == d && k.flavour@ == f && k.raw@ == suffix@,
            },
    {
        let v = chars_of(suffix);
        let n = v.len();
        let d1 = find_char_from(v.as_slice(), '-', 0, n);
        proof {
            assert(v@.subrange(0, n as int) =~= v@);
        }
        if d1 >= n {
            return None;
        }
        let d2 = find_char_from(v.as_slice(), '-', d1 + 1, n);
        let p1 = find_char_from(v.as_slice(), '.', 0, d1);
        proof {
            assert(v@.subrange(0, d1 as int).subrange(0, d1 as int) =~= v@.subrange(0, d1 as int));
        }
        if p1 >= d1 {
            return None;
        }
        let p2 = find_char_from(v.as_slice(), '.', p1 + 1, d1);
        if p2 >= d1 {
            return None;
        }
        let p3 = find_char_from(v.as_slice(), '.', p2 + 1, d1);
        if p3 < d1 {
            return None;
        }
        let ghost xyz = v@.subrange(0, d1 as int);
        proof {
            assert(xyz.subrange(0, p1 as int) =~= v@.subrange(0, p1 as int));
            assert(xyz.subrange(p1 + 1, p2 as int) =~= v@.subrange(p1 + 1, p2 as int));
            assert(xyz.subrange(p2 + 1, xyz.len() as int) =~= v@.subrange(p2 + 1, d1 as int));
        }
        let major = match parse_u32(v.as_slice(), 0, p1) {
            Some(x) => x,
            None => {
                return None;
            },
        };
        let minor = match parse_u32(v.as_slice(), p1 + 1, p2) {
            Some(x) => x,
            None => {
                return None;
            },
        };
        let patch = match parse_u32(v.as_slice(), p2 + 1, d1) {
            Some(x) => x,
            None => {
                return None;
            },
        };
        let rev = match parse_u32(v.as_slice(), d1 + 1, d2) {
            Some(x) => x,
            None => {
                return None;
            },
        };
        let flavour = if d2 >= n {
            string_of_range(v.as_slice(), 0, 0)
        } else {
            string_of_range(v.as_slice(), d2 + 1, n)
        };
        proof {
            assert(v@.subrange(0, 0) =~= Seq::<char>::empty());
        }
        Some(
            KernelVersion {
                major,
                minor,
                patch,
                rev,
                flavour,
                raw: string_of_range(v.as_slice(), 0, n),
            },
        )
    }
}

/// The rank of a known flavour (lower ranks are preferred).
pub open spec fn flavour_rank_spec(f: Seq<char>) -> Option<int> {
    if f == seq!['g', 'e', 'n', 'e', 'r', 'i', 'c'] {
        Some(0)
    } else if f == seq!['g', 'e', 'n', 'e', 'r', 'i', 'c', '-', 'h', 'w', 'e'] {
        Some(1)
    } else if f == seq!['l', 'o', 'w', 'l', 'a', 't', 'e', 'n', 'c', 'y'] {
        Some(2)
    } else if f == seq!['l', 'o', 'w', 'l', 'a', 't', 'e', 'n', 'c', 'y', '-', 'h', 'w', 'e'] {
        Some(3)
    } else {
        None
    }
}

/// The rank of a known flavour.
pub fn flavour_rank(f: &str) -> (r: Option<usize>)
    ensures
        match flavour_rank_spec(f@) {
            Some(k) => r == Some(k as usize),
            None => r is None,
        },
{
    let v = chars_of(f);
    let g: [char; 7] = ['g', 'e', 'n', 'e', 'r', 'i', 'c'];
    let gh: [char; 11] = ['g', 'e', 'n', 'e', 'r', 'i', 'c', '-', 'h', 'w', 'e'];
    let l: [char; 10] = ['l', 'o', 'w', 'l', 'a', 't', 'e', 'n', 'c', 'y'];
    let lh: [char; 14] = ['l', 'o', 'w', 'l', 'a', 't', 'e', 'n', 'c', 'y', '-', 'h', 'w', 'e'];
    proof {
        assert(g@ =~= seq!['g', 'e', 'n', 'e', 'r', 'i', 'c']);
        assert(gh@ =~= seq!['g', 'e', 'n', 'e', 'r', 'i', 'c', '-', 'h', 'w', 'e']);
        assert(l@ =~= seq!['l', 'o', 'w', 'l', 'a', 't', 'e', 'n', 'c', 'y']);
        assert(lh@ =~= seq!['l', 'o', 'w', 'l', 'a', 't', 'e', 'n', 'c', 'y', '-', 'h', 'w', 'e']);
    }
    if chars_eq(v.as_slice(), &g) {
        Some(0)
    } else if chars_eq(v.as_slice(), &gh) {
        Some(1)
    } else if chars_eq(v.as_slice(), &l) {
        Some(2)
    } else if chars_eq(v.as_slice(), &lh) {
        Some(3)
    } else {
        None
    }
}

/// The sign of the comparison of `a` and `b`: -1, 0 or 1.
pub open spec fn sign_of(a: int, b: int) -> int {
    if a < b {
        -1
    } else if a == b {
        0
    } else {
        1
    }
}

/// The lexicographic comparison of two character sequences by code point,
/// as -1, 0 or 1.
pub open spec fn text_rank(a: Seq<char>, b: Seq<char>) -> int
    decreases a.len(),
{
    if a.len() == 0 && b.len() == 0 {
        0
    } else if a.len() == 0 {
        -1
    } else if b.len() == 0 {
        1
    } else if a[0] != b[0] {
        sign_of(a[0] as int, b[0] as int)
    } else {
        text_rank(a.drop_first(), b.drop_first())
    }
}

/// The comparison of two flavours as -1, 0 or 1: known ones by rank (a
/// lower rank is greater), known ones above unknown ones, unknown ones by
/// name.
pub open spec fn flavour_rank_order(a: Seq<char>, b: Seq<char>) -> int {
    match (flavour_rank_spec(a), flavour_rank_spec(b)) {
        (Some(x), Some(y)) => sign_of(y, x),
        (Some(_), None) => 1,
        (None, Some(_)) => -1,
        (None, None) => text_rank(a, b),
    }
}

/// The numbers and flavour of a kernel version, by which versions are
/// ordered.
pub open spec fn kv_key(k: KernelVersion) -> (u32, u32, u32, u32, Seq<char>) {
    (k.major, k.minor, k.patch, k.rev, k.flavour@)
}

/// The comparison of two version keys as -1, 0 or 1: by major, minor,
/// patch and revision, then by flavour.
pub open spec fn key_rank(a: (u32, u32, u32, u32, Seq<char>), b: (u32, u32, u32, u32, Seq<char>)) -> int {
    if a.0 != b.0 {
        sign_of(a.0 as int, b.0 as int)
    } else if a.1 != b.1 {
        sign_of(a.1 as int, b.1 as int)
    } else if a.2 != b.2 {
        sign_of(a.2 as int, b.2 as int)
    } else if a.3 != b.3 {
        sign_of(a.3 as int, b.3 as int)
    } else {
        flavour_rank_order(a.4, b.4)
    }
}

/// The comparison of two kernel versions as -1, 0 or 1.
pub open spec fn version_rank(a: KernelVersion, b: KernelVersion) -> int {
    key_rank(kv_key(a), kv_key(b))
}

/// The ordering a sign stands for.
pub open spec fn ordering_of(x: int) -> Ordering {
    if x < 0 {
        Ordering::Less
    } else if x == 0 {
        Ordering::Equal
    } else {
        Ordering::Greater
    }
}

/// The order of two kernel versions.
pub open spec fn version_order(a: KernelVersion, b: KernelVersion) -> Ordering {
    ordering_of(version_rank(a, b))
}

fn text_rank_exec(a: &[char], b: &[char]) -> (r: i8)
    ensures
        r == text_rank(a@, b@),
{
    let mut i: usize = 0;
    assert(a@.subrange(0, a@.len() as int) =~= a@);
    assert(b@.subrange(0, b@.len() as int) =~= b@);
    while i < a.len() && i < b.len() && a[i] == b[i]
        invariant
            i <= a@.len(),
            i <= b@.len(),
            text_rank(a@, b@) == text_rank(a@.subrange(i as int, a@.len() as int), b@.subrange(
                i as int,
                b@.len() as int,
            )),
        decreases a@.len() - i,
    {
        assert(a@.subrange(i as int, a@.len() as int).drop_first() =~= a@.subrange(
            i + 1,
            a@.len() as int,
        ));
        assert(b@.subrange(i as int, b@.len() as int).drop_first() =~= b@.subrange(
            i + 1,
            b@.len() as int,
        ));
        i += 1;
    }
    let ghost sa = a@.subrange(i as int, a@.len() as int);
    let ghost sb = b@.subrange(i as int, b@.len() as int);
    if i == a.len() && i == b.len() {
        0
    } else if i == a.len() {
        -1
    } else if i == b.len() {
        1
    } else {
        proof {
            assert(sa[0] == a@[i as int] && sb[0] == b@[i as int]);
        }
        if a[i] < b[i] {
            -1
        } else {
            1
        }
    }
}

fn sign_u32(a: u32, b: u32) -> (r: i8)
    ensures
        r == sign_of(a as int, b as int),
{
    if a < b {
        -1
    } else if a == b {
        0
    } else {
        1
    }
}

impl KernelVersion {
    /// The comparison with `other` as -1, 0 or 1.
    pub fn rank_against(&self, other: &Self) -> (r: i8)
        ensures
            r == version_rank(*self, *other),
    {
        if self.major != other.major {
            return sign_u32(self.major, other.major);
        }
        if self.minor != other.minor {
            return sign_u32(self.minor, other.minor);
        }
        if self.patch != other.patch {
            return sign_u32(self.patch, other.patch);
        }
        if self.rev != other.rev {
            return sign_u32(self.rev, other.rev);
        }
        match (flavour_rank(self.flavour.as_str()), flavour_rank(other.flavour.as_str())) {
            (Some(a), Some(b)) => {
                if b < a {
                    -1
                } else if b == a {
                    0
                } else {
                    1
                }
            },
            (Some(_), None) => 1,
            (None, Some(_)) => -1,
            (None, None) => {
                let x = chars_of(self.flavour.as_str());
                let y = chars_of(other.flavour.as_str());
                text_rank_exec(x.as_slice(), y.as_slice())
            },
        }
    }

    /// Compares two kernel versions.
    pub fn cmp(&self, other: &Self) -> (r: Ordering)
        ensures
            r == version_order(*self, *other),
    {
        let k = self.rank_against(other);
        if k < 0 {
            Ordering::Less
        } else if k == 0 {
            Ordering::Equal
        } else {
            Ordering::Greater
        }
    }
}

impl PartialOrd for KernelVersion {
    fn partial_cmp(&self, other: &Self) -> (r: Option<Ordering>) {
        Some(self.cmp(other))
    }
}

impl vstd::std_specs::cmp::PartialOrdSpecImpl for KernelVersion {
    open spec fn obeys_partial_cmp_spec() -> bool {
        true
    }

    open spec fn partial_cmp_spec(&self, other: &Self) -> Option<Ordering> {
        Some(version_order(*self, *other))
    }
}

proof fn lemma_text_rank_props(a: Seq<char>, b: Seq<char>)
    ensures
        text_rank(a, b) == -text_rank(b, a),
        -1 <= text_rank(a, b) <= 1,
        text_rank(a, b) == 0 <==> a == b,
    decreases a.len(),
{
    if a.len() > 0 && b.len() > 0 {
        lemma_text_rank_props(a.drop_first(), b.drop_first());
        if a[0] == b[0] && a.drop_first() == b.drop_first() {
            assert(a =~= seq![a[0]] + a.drop_first());
            assert(b =~= seq![b[0]] + b.drop_first());
        }
        if a == b {
            assert(a.drop_first() == b.drop_first());
        }
    } else if a.len() == 0 && b.len() == 0 {
        assert(a =~= b);
    }
}

proof fn lemma_text_rank_trans(a: Seq<char>, b: Seq<char>, c: Seq<char>)
    requires
        text_rank(a, b) < 0,
        text_rank(b, c) < 0,
    ensures
        text_rank(a, c) < 0,
    decreases a.len(),
{
    if a.len() > 0 && b.len() > 0 && c.len() > 0 {
        if a[0] == b[0] && b[0] == c[0] {
            lemma_text_rank_trans(a.drop_first(), b.drop_first(), c.drop_first());
        }
    }
}

proof fn lemma_flavour_rank_props(a: Seq<char>, b: Seq<char>)
    ensures
        flavour_rank_order(a, b) == -flavour_rank_order(b, a),
        -1 <= flavour_rank_order(a, b) <= 1,
        flavour_rank_order(a, b) == 0 <==> a == b,
{
    lemma_text_rank_props(a, b);
}

/// The order of kernel versions is antisymmetric: comparing `b` with `a`
/// gives the reverse of comparing `a` with `b`; and two versions compare
/// equal exactly when their numbers and flavours are the same.
pub proof fn lemma_version_order_antisymmetric(a: KernelVersion, b: KernelVersion)
    ensures
        version_rank(a, b) == -version_rank(b, a),
        version_rank(a, b) == 0 <==> (a.major == b.major && a.minor == b.minor && a.patch
            == b.patch && a.rev == b.rev && a.flavour@ == b.flavour@),
        version_order(a, a) == Ordering::Equal,
{
    lemma_flavour_rank_props(a.flavour@, b.flavour@);
    lemma_flavour_rank_props(a.flavour@, a.flavour@);
}

/// The order of kernel versions is transitive: if `a` is below `b` and `b`
/// below `c`, then `a` is below `c`.
pub proof fn lemma_version_order_transitive(a: KernelVersion, b: KernelVersion, c: KernelVersion)
    requires
        version_order(a, b) == Ordering::Less,
        version_order(b, c) == Ordering::Less,
    ensures
        version_order(a, c) == Ordering::Less,
{
    lemma_flavour_rank_props(a.flavour@, b.flavour@);
    lemma_flavour_rank_props(b.flavour@, c.flavour@);
    lemma_flavour_rank_props(a.flavour@, c.flavour@);
    if a.major == b.major && b.major == c.major && a.minor == b.minor && b.minor == c.minor
        && a.patch == b.patch && b.patch == c.patch && a.rev == b.rev && b.rev == c.rev {
        let (fa, fb, fc) = (a.flavour@, b.flavour@, c.flavour@);
        match (flavour_rank_spec(fa), flavour_rank_spec(fb), flavour_rank_spec(fc)) {
            (None, None, None) => lemma_text_rank_trans(fa, fb, fc),
            _ => {},
        }
    }
}

/// Versions are ordered by their numbers first, newest highest: a larger
/// major number makes a version greater; with equal major numbers a larger
/// minor number does, then a larger patch number, then a larger revision;
/// only versions with the same four numbers are ordered by flavour.
pub proof fn lemma_version_order_by_numbers(a: KernelVersion, b: KernelVersion)
    ensures
        a.major > b.major ==> version_order(a, b) == Ordering::Greater,
        a.major < b.major ==> version_order(a, b) == Ordering::Less,
        a.major == b.major && a.minor > b.minor ==> version_order(a, b) == Ordering::Greater,
        a.major == b.major && a.minor < b.minor ==> version_order(a, b) == Ordering::Less,
        a.major == b.major && a.minor == b.minor && a.patch > b.patch ==> version_order(a, b)
            == Ordering::Greater,
        a.major == b.major && a.minor == b.minor && a.patch < b.patch ==> version_order(a, b)
            == Ordering::Less,
        a.major == b.major && a.minor == b.minor && a.patch == b.patch && a.rev > b.rev
            ==> version_order(a, b) == Ordering::Greater,
        a.major == b.major && a.minor == b.minor && a.patch == b.patch && a.rev < b.rev
            ==> version_order(a, b) == Ordering::Less,
{
}

/// Versions with the same numbers are ordered by flavour: a known flavour
/// is greater than an unknown one, and of two known flavours the one
/// listed earlier is greater.
pub proof fn lemma_version_order_by_flavour(a: KernelVersion, b: KernelVersion)
    requires
        a.major == b.major,
        a.minor == b.minor,
        a.patch == b.patch,
        a.rev == b.rev,
    ensures
        (flavour_rank_spec(a.flavour@) is Some && flavour_rank_spec(b.flavour@) is None)
            ==> version_order(a, b) == Ordering::Greater,
        (flavour_rank_spec(a.flavour@) matches Some(x) && flavour_rank_spec(b.flavour@) matches Some(
            y,
        ) && x < y) ==> version_order(a, b) == Ordering::Greater,
{
}

} // verus!
