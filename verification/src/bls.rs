//! Boot Loader Specification (BLS) type #1 entries: `key value` lines of
//! which `title`, `version`, `linux`, `initrd` and `options` are kept.
use vstd::prelude::*;
use vstd::string::StringExecFns;
use crate::text::{chars_of, chars_range_eq, is_whitespace, is_ws, string_of_range, trim, trim_range};

verus! {

/// A BLS entry.
#[derive(Debug, Clone, PartialEq, Eq)]
pub struct BlsEntry {
    pub title: Option<String>,
    pub version: Option<String>,
    pub linux: Option<String>,
    pub initrd: Option<String>,
    pub options: Option<String>,
}

/// The text of the fields of a BLS entry.
pub struct BlsFields {
    pub title: Option<Seq<char>>,
    pub version: Option<Seq<char>>,
    pub linux: Option<Seq<char>>,
    pub initrd: Option<Seq<char>>,
    pub options: Option<Seq<char>>,
}

/// The text of an optional string.
pub open spec fn opt_text(o: Option<String>) -> Option<Seq<char>> {
    match o {
        Some(s) => Some(s@),
        None => None,
    }
}

/// The text of the fields of `e`.
pub open spec fn bls_view(e: BlsEntry) -> BlsFields {
    BlsFields {
        title: opt_text(e.title),
        version: opt_text(e.version),
        linux: opt_text(e.linux),
        initrd: opt_text(e.initrd),
        options: opt_text(e.options),
    }
}

/// An entry with no fields.
pub open spec fn no_fields() -> BlsFields {
    BlsFields { title: None, version: None, linux: None, initrd: None, options: None }
}

/// The index of the first white space of `t`, if any.
pub open spec fn first_ws(t: Seq<char>) -> Option<int>
    decreases t.len(),
{
    if t.len() == 0 {
        None
    } else if is_ws(t[0]) {
        Some(0)
    } else {
        match first_ws(t.drop_first()) {
            Some(k) => Some(k + 1),
            None => None,
        }
    }
}

/// `e` after the line `line`: a line that is not blank or a comment is
/// split at its first white space into a key and a value (trimmed); a
/// known key sets its field.
pub open spec fn apply_line(e: BlsFields, line: Seq<char>) -> BlsFields {
    let t = trim(line);
    if t.len() == 0 || t[0] == '#' {
        e
    } else {
        match first_ws(t) {
            None => e,
            Some(k) => {
                let key = t.subrange(0, k);
                let value = Some(trim(t.subrange(k + 1, t.len() as int)));
                if key == seq!['t', 'i', 't', 'l', 'e'] {
                    BlsFields { title: value, ..e }
                } else if key == seq!['v', 'e', 'r', 's', 'i', 'o', 'n'] {
                    BlsFields { version: value, ..e }
                } else if key == seq!['o', 'p', 't', 'i', 'o', 'n', 's'] {
                    BlsFields { options: value, ..e }
                } else if key == seq!['l', 'i', 'n', 'u', 'x'] {
                    BlsFields { linux: value, ..e }
                } else if key == seq!['i', 'n', 'i', 't', 'r', 'd'] {
                    BlsFields { initrd: value, ..e }
                } else {
                    e
                }
            },
        }
    }
}

/// The index of the first newline of `s` at or after `i`, or its length.
pub open spec fn line_end(s: Seq<char>, i: int) -> int
    decreases s.len() - i,
{
    if i < 0 || i >= s.len() || s[i] == '\n' {
        i
    } else {
        line_end(s, i + 1)
    }
}

/// `e` after the lines of `s` from position `i` on.
pub open spec fn bls_fold(s: Seq<char>, i: int, e: BlsFields) -> BlsFields
    decreases s.len() - i,
{
    if i < 0 || i >= s.len() {
        e
    } else {
        let j = line_end(s, i);
        if j < i || j > s.len() {
            e
        } else if j == s.len() {
            apply_line(e, s.subrange(i, j))
        } else {
            bls_fold(s, j + 1, apply_line(e, s.subrange(i, j)))
        }
    }
}

impl BlsEntry {
    /// An entry with no fields.
    pub fn new() -> (e: Self)
        ensures
            bls_view(e) == no_fields(),
    {
        BlsEntry { title: None, version: None, linux: None, initrd: None, options: None }
    }

    /// The title, or `(no title)`.
    pub fn title(&self) -> (t: &str)
        ensures
            t@ == match self.title {
                Some(s) => s@,
                None => "(no title)"@,
            },
    {
        match &self.title {
            Some(t) => t.as_str(),
            None => "(no title)",
        }
    }
}

impl Default for BlsEntry {
    fn default() -> (e: Self)
        ensures
            bls_view(e) == no_fields(),
    {
        BlsEntry::new()
    }
}

fn first_ws_from(v: &[char], a: usize, b: usize) -> (r: usize)
    requires
        a <= b <= v@.len(),
    ensures
        a <= r <= b,
        match first_ws(v@.subrange(a as int, b as int)) {
            Some(k) => r == a + k && r < b,
            None => r == b,
        },
{
    let mut k = a;
    while k < b && !is_whitespace(v[k])
        invariant
            a <= k <= b <= v@.len(),
            first_ws(v@.subrange(a as int, b as int)) == match first_ws(
                v@.subrange(k as int, b as int),
            ) {
                Some(x) => Some(x + (k - a)),
                None => None,
            },
        decreases b - k,
    {
        assert(v@.subrange(k as int, b as int).drop_first() =~= v@.subrange(k + 1, b as int));
        k += 1;
    }
    proof {
        if k < b {
            assert(v@.subrange(k as int, b as int)[0] == v@[k as int]);
        }
    }
    k
}

fn apply_line_exec(e: &mut BlsEntry, v: &[char], a: usize, b: usize)
    requires
        a <= b <= v@.len(),
    ensures
        bls_view(*final(e)) == apply_line(bls_view(*old(e)), v@.subrange(a as int, b as int)),
{
    let (t0, t1) = trim_range(v, a, b);
    let ghost t = v@.subrange(t0 as int, t1 as int);
    if t0 == t1 || v[t0] == '#' {
        proof {
            if t0 < t1 {
                assert(t[0] == v@[t0 as int]);
            }
        }
        return;
    }
    let k = first_ws_from(v, t0, t1);
    if k == t1 {
        proof {
            assert(t[0] == v@[t0 as int]);
        }
        return;
    }
    let (v0, v1) = trim_range(v, k + 1, t1);
    proof {
        assert(t[0] == v@[t0 as int]);
        assert(t.subrange(0, k - t0) =~= v@.subrange(t0 as int, k as int));
        assert(t.subrange(k - t0 + 1, t.len() as int) =~= v@.subrange(k + 1, t1 as int));
    }
    let title: [char; 5] = ['t', 'i', 't', 'l', 'e'];
    let version: [char; 7] = ['v', 'e', 'r', 's', 'i', 'o', 'n'];
    let options: [char; 7] = ['o', 'p', 't', 'i', 'o', 'n', 's'];
    let linux: [char; 5] = ['l', 'i', 'n', 'u', 'x'];
    let initrd: [char; 6] = ['i', 'n', 'i', 't', 'r', 'd'];
    proof {
        assert(title@ =~= seq!['t', 'i', 't', 'l', 'e']);
        assert(version@ =~= seq!['v', 'e', 'r', 's', 'i', 'o', 'n']);
        assert(options@ =~= seq!['o', 'p', 't', 'i', 'o', 'n', 's']);
        assert(linux@ =~= seq!['l', 'i', 'n', 'u', 'x']);
        assert(initrd@ =~= seq!['i', 'n', 'i', 't', 'r', 'd']);
    }
    if chars_range_eq(v, t0, k, &title) {
        e.title = Some(string_of_range(v, v0, v1));
    } else if chars_range_eq(v, t0, k, &version) {
        e.version = Some(string_of_range(v, v0, v1));
    } else if chars_range_eq(v, t0, k, &options) {
        e.options = Some(string_of_range(v, v0, v1));
    } else if chars_range_eq(v, t0, k, &linux) {
        e.linux = Some(string_of_range(v, v0, v1));
    } else if chars_range_eq(v, t0, k, &initrd) {
        e.initrd = Some(string_of_range(v, v0, v1));
    }
}

/// Parses a BLS entry file: for each known key, the value of its last line.
pub fn parse_bls_entry(content: &str) -> (e: BlsEntry)
    ensures
        bls_view(e) == bls_fold(content@, 0, no_fields()),
{
    let v = chars_of(content);
    let n = v.len();
    let mut e = BlsEntry::new();
    let mut i: usize = 0;
    while i < n
        invariant
            n == v@.len(),
            v@ == content@,
            i <= n,
            bls_fold(v@, 0, no_fields()) == bls_fold(v@, i as int, bls_view(e)),
        decreases n - i,
    {
        let mut j = i;
        while j < n && v[j] != '\n'
            invariant
                i <= j <= n == v@.len(),
                line_end(v@, i as int) == line_end(v@, j as int),
            decreases n - j,
        {
            j += 1;
        }
        apply_line_exec(&mut e, v.as_slice(), i, j);
        if j >= n {
            i = n;
        } else {
            i = j + 1;
        }
    }
    e
}

/// The content parsed from its start, beginning with no fields.
pub open spec fn bls_parsed(s: Seq<char>) -> BlsFields {
    bls_fold(s, 0, no_fields())
}

/// Whether the line `l`, trimmed, starts with the key `key` followed by
/// white space.
pub open spec fn key_line(l: Seq<char>, key: Seq<char>) -> bool {
    let t = trim(l);
    &&& t.len() > key.len()
    &&& t.subrange(0, key.len() as int) == key
    &&& is_ws(t[key.len() as int])
}

/// The value that a line with the key `key` gives: what follows the key
/// and the white space after it, trimmed.
pub open spec fn key_value(l: Seq<char>, key: Seq<char>) -> Seq<char> {
    let t = trim(l);
    trim(t.subrange(key.len() + 1 as int, t.len() as int))
}

/// The keys an entry keeps.
pub open spec fn known_key(key: Seq<char>) -> bool {
    ||| key == seq!['t', 'i', 't', 'l', 'e']
    ||| key == seq!['v', 'e', 'r', 's', 'i', 'o', 'n']
    ||| key == seq!['l', 'i', 'n', 'u', 'x']
    ||| key == seq!['i', 'n', 'i', 't', 'r', 'd']
    ||| key == seq!['o', 'p', 't', 'i', 'o', 'n', 's']
}

/// The field of `f` that the key `key` sets.
pub open spec fn field_for(f: BlsFields, key: Seq<char>) -> Option<Seq<char>> {
    if key == seq!['t', 'i', 't', 'l', 'e'] {
        f.title
    } else if key == seq!['v', 'e', 'r', 's', 'i', 'o', 'n'] {
        f.version
    } else if key == seq!['l', 'i', 'n', 'u', 'x'] {
        f.linux
    } else if key == seq!['i', 'n', 'i', 't', 'r', 'd'] {
        f.initrd
    } else {
        f.options
    }
}

proof fn lemma_line_end_append(s: Seq<char>, l: Seq<char>, i: int)
    requires
        0 <= i <= s.len(),
    ensures
        line_end(s + seq!['\n'] + l, i) == line_end(s, i),
    decreases s.len() - i,
{
    let c = s + seq!['\n'] + l;
    assert(c[i] == if i < s.len() { s[i] } else { '\n' });
    if i < s.len() && s[i] != '\n' {
        lemma_line_end_append(s, l, i + 1);
    }
}

proof fn lemma_line_end_last(c: Seq<char>, i: int)
    requires
        0 <= i <= c.len(),
        forall|k: int| i <= k < c.len() ==> c[k] != '\n',
    ensures
        line_end(c, i) == c.len(),
    decreases c.len() - i,
{
    if i < c.len() {
        lemma_line_end_last(c, i + 1);
    }
}

proof fn lemma_fold_append(s: Seq<char>, l: Seq<char>, i: int, e: BlsFields)
    requires
        0 <= i <= s.len(),
        !l.contains('\n'),
    ensures
        bls_fold(s + seq!['\n'] + l, i, e) == apply_line(bls_fold(s, i, e), l),
    decreases s.len() - i,
{
    let c = s + seq!['\n'] + l;
    let n = s.len() as int;
    assert(c.len() == n + 1 + l.len());
    // The line after the newline is `l`.
    assert forall|k: int| n + 1 <= k < c.len() implies c[k] != '\n' by {
        assert(c[k] == l[k - n - 1]);
        if l[k - n - 1] == '\n' {
            assert(l.contains('\n'));
        }
    }
    lemma_line_end_last(c, n + 1);
    assert(c.subrange(n + 1, c.len() as int) =~= l);
    assert(trim(Seq::<char>::empty()) =~= Seq::<char>::empty()) by {
        reveal_with_fuel(crate::text::trim_start, 1);
        reveal_with_fuel(crate::text::trim_end, 1);
    }
    let at_nl = bls_fold(c, n + 1, e);
    if n + 1 < c.len() {
        assert(at_nl == apply_line(e, l));
    } else {
        assert(l =~= Seq::<char>::empty());
        assert(apply_line(e, l) == e);
    }
    lemma_line_end_append(s, l, i);
    if i == n {
        assert(line_end(c, n) == n);
        assert(c.subrange(n, n) =~= Seq::<char>::empty());
        assert(apply_line(e, c.subrange(n, n)) == e);
    } else {
        let j = line_end(s, i);
        lemma_line_end_bounds(s, i);
        assert(c.subrange(i, j) =~= s.subrange(i, j));
        if j == n {
            assert(bls_fold(c, i, e) == bls_fold(c, n + 1, apply_line(e, s.subrange(i, j))));
            lemma_fold_append_at_newline(s, l, apply_line(e, s.subrange(i, j)));
        } else {
            lemma_fold_append(s, l, j + 1, apply_line(e, s.subrange(i, j)));
        }
    }
}

proof fn lemma_fold_append_at_newline(s: Seq<char>, l: Seq<char>, e: BlsFields)
    requires
        !l.contains('\n'),
    ensures
        bls_fold(s + seq!['\n'] + l, s.len() + 1 as int, e) == apply_line(e, l),
{
    let c = s + seq!['\n'] + l;
    let n = s.len() as int;
    assert forall|k: int| n + 1 <= k < c.len() implies c[k] != '\n' by {
        assert(c[k] == l[k - n - 1]);
        if l[k - n - 1] == '\n' {
            assert(l.contains('\n'));
        }
    }
    lemma_line_end_last(c, n + 1);
    assert(c.subrange(n + 1, c.len() as int) =~= l);
    if l.len() == 0 {
        assert(trim(l) =~= Seq::<char>::empty());
    }
}

proof fn lemma_line_end_bounds(s: Seq<char>, i: int)
    requires
        0 <= i <= s.len(),
    ensures
        i <= line_end(s, i) <= s.len(),
        line_end(s, i) < s.len() ==> s[line_end(s, i)] == '\n',
    decreases s.len() - i,
{
    if i < s.len() && s[i] != '\n' {
        lemma_line_end_bounds(s, i + 1);
    }
}

proof fn lemma_first_ws_at(t: Seq<char>, k: int)
    requires
        0 <= k < t.len(),
        is_ws(t[k]),
        forall|j: int| 0 <= j < k ==> !is_ws(t[j]),
    ensures
        first_ws(t) == Some(k),
    decreases k,
{
    if k > 0 {
        assert forall|j: int| 0 <= j < k - 1 implies !is_ws(t.drop_first()[j]) by {
            assert(t.drop_first()[j] == t[j + 1]);
        }
        lemma_first_ws_at(t.drop_first(), k - 1);
    }
}

proof fn lemma_first_ws_found(t: Seq<char>)
    ensures
        first_ws(t) matches Some(k) ==> 0 <= k < t.len() && is_ws(t[k]),
    decreases t.len(),
{
    if t.len() > 0 && !is_ws(t[0]) {
        lemma_first_ws_found(t.drop_first());
    }
}

/// A line sets the field of a known key when, trimmed, it starts with that
/// key and white space; the field then holds the rest of the line,
/// trimmed, whatever it held before. Any other line leaves the field as it
/// was.
pub proof fn lemma_line_sets_field(e: BlsFields, l: Seq<char>, key: Seq<char>)
    requires
        known_key(key),
    ensures
        key_line(l, key) ==> field_for(apply_line(e, l), key) == Some(key_value(l, key)),
        !key_line(l, key) ==> field_for(apply_line(e, l), key) == field_for(e, key),
{
    let t = trim(l);
    let kl = key.len() as int;
    if key_line(l, key) {
        assert forall|j: int| 0 <= j < kl implies !is_ws(t[j]) by {
            assert(t[j] == t.subrange(0, kl)[j]);
            assert(t[j] == key[j]);
        }
        lemma_first_ws_at(t, kl);
        assert(t[0] == key[0]);
        assert(t.subrange(0, kl) == key);
    } else {
        lemma_first_ws_found(t);
        if !(t.len() == 0 || t[0] == '#') {
            if let Some(k) = first_ws(t) {
                let k2 = t.subrange(0, k);
                if known_key(k2) && k2.len() == kl && k2 =~= key {
                    assert(key_line(l, key));
                }
            }
        }
    }
}

/// Each known key takes the value of its last line: parsing content with
/// a line appended gives, for a line with that key, the line's value, and
/// for any other line, what parsing the content alone gives.
pub proof fn lemma_last_line_wins(s: Seq<char>, l: Seq<char>, key: Seq<char>)
    requires
        known_key(key),
        !l.contains('\n'),
    ensures
        key_line(l, key) ==> field_for(bls_parsed(s + seq!['\n'] + l), key) == Some(key_value(l, key)),
        !key_line(l, key) ==> field_for(bls_parsed(s + seq!['\n'] + l), key) == field_for(
            bls_parsed(s),
            key,
        ),
{
    lemma_fold_append(s, l, 0, no_fields());
    lemma_line_sets_field(bls_parsed(s), l, key);
}

} // verus!
