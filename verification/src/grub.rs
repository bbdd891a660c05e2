//! Extraction of the boot menu from a GRUB configuration file: the
//! `menuentry` and `submenu` blocks, with the kernel, initrd and command
//! line of each entry.
use vstd::prelude::*;
use crate::text::{chars_of, chars_eq, push_chars, string_from_chars};

verus! {

/// A menu entry or a submenu.
#[derive(Debug, PartialEq, Eq)]
pub enum MenuEntry {
    Entry { title: String, linux: Option<String>, initrd: Option<String>, cmdline: Option<String> },
    Submenu { title: String, entries: Vec<MenuEntry> },
}

/// The text of a menu entry or submenu.
pub enum MenuView {
    Entry {
        title: Seq<char>,
        linux: Option<Seq<char>>,
        initrd: Option<Seq<char>>,
        cmdline: Option<Seq<char>>,
    },
    Submenu { title: Seq<char>, entries: Seq<MenuView> },
}

/// The text of an optional string.
pub open spec fn opt_text(o: Option<String>) -> Option<Seq<char>> {
    match o {
        Some(s) => Some(s@),
        None => None,
    }
}

/// `m` holds the text `v`.
pub open spec fn menu_is(m: MenuEntry, v: MenuView) -> bool
    decreases v,
{
    match (m, v) {
        (
            MenuEntry::Entry { title, linux, initrd, cmdline },
            MenuView::Entry { title: t, linux: l, initrd: i, cmdline: c },
        ) => title@ == t && opt_text(linux) == l && opt_text(initrd) == i && opt_text(cmdline) == c,
        (MenuEntry::Submenu { title, entries }, MenuView::Submenu { title: t, entries: es }) => {
            &&& title@ == t
            &&& entries@.len() == es.len()
            &&& forall|k: int| 0 <= k < es.len() ==> menu_is(#[trigger] entries@[k], es[k])
        },
        _ => false,
    }
}

/// The entries of `ms` hold the texts `vs`.
pub open spec fn menus_are(ms: Seq<MenuEntry>, vs: Seq<MenuView>) -> bool {
    ms.len() == vs.len() && forall|k: int| 0 <= k < vs.len() ==> menu_is(#[trigger] ms[k], vs[k])
}

impl MenuEntry {
    /// An entry with a title and nothing else.
    pub fn new_entry(title: String) -> (m: Self)
        ensures
            menu_is(m, MenuView::Entry { title: title@, linux: None, initrd: None, cmdline: None }),
    {
        MenuEntry::Entry { title, linux: None, initrd: None, cmdline: None }
    }

    /// An empty submenu.
    pub fn new_submenu(title: String) -> (m: Self)
        ensures
            menu_is(m, MenuView::Submenu { title: title@, entries: Seq::empty() }),
    {
        MenuEntry::Submenu { title, entries: Vec::new() }
    }

    /// The title.
    pub fn title(&self) -> (t: &str)
        ensures
            t@ == match self {
                MenuEntry::Entry { title, .. } => title@,
                MenuEntry::Submenu { title, .. } => title@,
            },
    {
        match self {
            MenuEntry::Entry { title, .. } => title.as_str(),
            MenuEntry::Submenu { title, .. } => title.as_str(),
        }
    }
}

/// A token of the configuration language.
#[derive(Debug, Clone, PartialEq, Eq)]
pub enum Token {
    Word(String),
    OpenBrace,
    CloseBrace,
    Separator,
}

/// The text of a token.
pub enum TokenView {
    Word(Seq<char>),
    OpenBrace,
    CloseBrace,
    Separator,
}

/// The text of a token.
pub open spec fn token_view(t: Token) -> TokenView {
    match t {
        Token::Word(w) => TokenView::Word(w@),
        Token::OpenBrace => TokenView::OpenBrace,
        Token::CloseBrace => TokenView::CloseBrace,
        Token::Separator => TokenView::Separator,
    }
}

/// Whether `c` ends an unquoted word.
pub open spec fn ends_word(c: char) -> bool {
    c == ' ' || c == '\t' || c == '\r' || c == '\n' || c == ';' || c == '{' || c == '}' || c == '#'
}

/// A single-quoted part from `i` (after the opening quote): characters up
/// to the closing quote, which is consumed.
pub open spec fn squoted(s: Seq<char>, i: int, acc: Seq<char>) -> (Seq<char>, int)
    decreases s.len() - i,
{
    if i < 0 || i >= s.len() {
        (acc, i)
    } else if s[i] == '\'' {
        (acc, i + 1)
    } else {
        squoted(s, i + 1, acc.push(s[i]))
    }
}

/// A double-quoted part from `i` (after the opening quote): characters up
/// to the closing quote, which is consumed; a backslash takes the next
/// character literally.
pub open spec fn dquoted(s: Seq<char>, i: int, acc: Seq<char>) -> (Seq<char>, int)
    decreases s.len() - i,
{
    if i < 0 || i >= s.len() {
        (acc, i)
    } else if s[i] == '"' {
        (acc, i + 1)
    } else if s[i] == '\\' {
        if i + 1 < s.len() {
            dquoted(s, i + 2, acc.push(s[i + 1]))
        } else {
            (acc, i + 1)
        }
    } else {
        dquoted(s, i + 1, acc.push(s[i]))
    }
}

/// A word from `i`: unquoted characters and quoted parts up to a character
/// that ends a word.
pub open spec fn word_from(s: Seq<char>, i: int, acc: Seq<char>) -> (Seq<char>, int)
    decreases s.len() - i,
{
    if i < 0 || i >= s.len() || ends_word(s[i]) {
        (acc, i)
    } else if s[i] == '\'' {
        let (q, j) = squoted(s, i + 1, acc);
        if j <= i || j > s.len() {
            (q, j)
        } else {
            word_from(s, j, q)
        }
    } else if s[i] == '"' {
        let (q, j) = dquoted(s, i + 1, acc);
        if j <= i || j > s.len() {
            (q, j)
        } else {
            word_from(s, j, q)
        }
    } else {
        word_from(s, i + 1, acc.push(s[i]))
    }
}

/// The index of the first newline at or after `i`, or the length.
pub open spec fn comment_end(s: Seq<char>, i: int) -> int
    decreases s.len() - i,
{
    if i < 0 || i >= s.len() || s[i] == '\n' {
        i
    } else {
        comment_end(s, i + 1)
    }
}

/// The next token from `i` and the position after it, skipping blanks and
/// comments; `None` at the end.
pub open spec fn next_token_spec(s: Seq<char>, i: int) -> Option<(TokenView, int)>
    decreases s.len() - i,
{
    if i < 0 || i >= s.len() {
        None
    } else {
        let c = s[i];
        if c == ' ' || c == '\t' || c == '\r' {
            next_token_spec(s, i + 1)
        } else if c == '\n' || c == ';' {
            Some((TokenView::Separator, i + 1))
        } else if c == '{' {
            Some((TokenView::OpenBrace, i + 1))
        } else if c == '}' {
            Some((TokenView::CloseBrace, i + 1))
        } else if c == '#' {
            let j = comment_end(s, i);
            if j <= i || j > s.len() {
                None
            } else {
                next_token_spec(s, j)
            }
        } else {
            let (w, j) = word_from(s, i, Seq::empty());
            Some((TokenView::Word(w), j))
        }
    }
}

/// All tokens from `i` on.
pub open spec fn tokens(s: Seq<char>, i: int) -> Seq<TokenView>
    decreases s.len() - i,
{
    match next_token_spec(s, i) {
        None => Seq::empty(),
        Some((t, j)) => if j <= i || i < 0 || j > s.len() {
            seq![t]
        } else {
            seq![t] + tokens(s, j)
        },
    }
}

/// Whether token `p` of `ts` is the word `w`.
pub open spec fn is_word(ts: Seq<TokenView>, p: int, w: Seq<char>) -> bool {
    0 <= p < ts.len() && ts[p] == TokenView::Word(w)
}

/// The word at `p`, if token `p` is a word.
pub open spec fn word_at(ts: Seq<TokenView>, p: int) -> Option<Seq<char>> {
    if 0 <= p < ts.len() {
        match ts[p] {
            TokenView::Word(w) => Some(w),
            _ => None,
        }
    } else {
        None
    }
}

/// The words from `p` up to the first token that is not a word, joined by
/// spaces, and the position after them.
pub open spec fn words_from(ts: Seq<TokenView>, p: int, acc: Option<Seq<char>>) -> (Option<Seq<char>>, int)
    decreases ts.len() - p,
{
    match word_at(ts, p) {
        None => (acc, p),
        Some(w) => words_from(
            ts,
            p + 1,
            Some(
                match acc {
                    None => w,
                    Some(a) => a + seq![' '] + w,
                },
            ),
        ),
    }
}

/// The `linux` command at `p`: its path and the rest of its words as the
/// command line (kept from before when there are none).
pub open spec fn linux_cmd(ts: Seq<TokenView>, p: int, l: Option<Seq<char>>, c: Option<Seq<char>>) -> (
    Option<Seq<char>>,
    Option<Seq<char>>,
    int,
) {
    match word_at(ts, p + 1) {
        None => (l, c, p + 1),
        Some(path) => {
            let (args, q) = words_from(ts, p + 2, None);
            (Some(path), if args is Some { args } else { c }, q)
        },
    }
}

/// The `initrd` command at `p`: its path.
pub open spec fn initrd_cmd(ts: Seq<TokenView>, p: int, i: Option<Seq<char>>) -> (Option<Seq<char>>, int) {
    match word_at(ts, p + 1) {
        None => (i, p + 1),
        Some(path) => (Some(path), p + 2),
    }
}

/// The first `{` at or after `p`, or the length.
pub open spec fn open_brace_from(ts: Seq<TokenView>, p: int) -> int
    decreases ts.len() - p,
{
    if p < 0 || p >= ts.len() || ts[p] == TokenView::OpenBrace {
        p
    } else {
        open_brace_from(ts, p + 1)
    }
}

/// The body of a menu entry from `p` at brace depth `d`: the `linux` and
/// `initrd` commands at depth 1, up to the matching `}`; the results and
/// the position after the body.
pub open spec fn entry_body(
    ts: Seq<TokenView>,
    p: int,
    d: int,
    l: Option<Seq<char>>,
    i: Option<Seq<char>>,
    c: Option<Seq<char>>,
) -> (Option<Seq<char>>, Option<Seq<char>>, Option<Seq<char>>, int)
    decreases ts.len() - p,
{
    if p < 0 || p >= ts.len() {
        (l, i, c, p)
    } else {
        match ts[p] {
            TokenView::OpenBrace => entry_body(ts, p + 1, d + 1, l, i, c),
            TokenView::CloseBrace => if d - 1 == 0 {
                (l, i, c, p + 1)
            } else {
                entry_body(ts, p + 1, d - 1, l, i, c)
            },
            TokenView::Word(w) => if d == 1 && w == seq!['l', 'i', 'n', 'u', 'x'] {
                let (l2, c2, q) = linux_cmd(ts, p, l, c);
                if q <= p || q > ts.len() {
                    (l2, i, c2, q)
                } else {
                    entry_body(ts, q, d, l2, i, c2)
                }
            } else if d == 1 && w == seq!['i', 'n', 'i', 't', 'r', 'd'] {
                let (i2, q) = initrd_cmd(ts, p, i);
                if q <= p || q > ts.len() {
                    (l, i2, c, q)
                } else {
                    entry_body(ts, q, d, l, i2, c)
                }
            } else {
                entry_body(ts, p + 1, d, l, i, c)
            },
            TokenView::Separator => entry_body(ts, p + 1, d, l, i, c),
        }
    }
}

/// The menu entry whose `menuentry` word is at `p`, and the position after
/// it; `None` without a title or an opening brace.
pub open spec fn menuentry_spec(ts: Seq<TokenView>, p: int) -> (Option<MenuView>, int) {
    match word_at(ts, p + 1) {
        None => (None, p + 1),
        Some(title) => {
            let b = open_brace_from(ts, p + 2);
            if b >= ts.len() {
                (None, b)
            } else {
                let (l, i, c, q) = entry_body(ts, b + 1, 1, None, None, None);
                (Some(MenuView::Entry { title, linux: l, initrd: i, cmdline: c }), q)
            }
        },
    }
}

/// The list `acc` with `m` appended if present.
pub open spec fn push_opt(acc: Seq<MenuView>, m: Option<MenuView>) -> Seq<MenuView> {
    match m {
        Some(x) => acc.push(x),
        None => acc,
    }
}

/// The submenu whose `submenu` word is at `p`, and the position after it.
pub open spec fn submenu_spec(ts: Seq<TokenView>, p: int) -> (Option<MenuView>, int)
    decreases ts.len() - p, 1int,
{
    match word_at(ts, p + 1) {
        None => (None, p + 1),
        Some(title) => {
            let b = open_brace_from(ts, p + 2);
            if b >= ts.len() || b < p {
                (None, b)
            } else {
                let (es, q) = submenu_body(ts, b + 1, 1, Seq::empty());
                (Some(MenuView::Submenu { title, entries: es }), q)
            }
        },
    }
}

/// The body of a submenu from `p` at brace depth `d`: its menu entries and
/// submenus at depth 1, up to the matching `}`.
pub open spec fn submenu_body(ts: Seq<TokenView>, p: int, d: int, acc: Seq<MenuView>) -> (
    Seq<MenuView>,
    int,
)
    decreases ts.len() - p, 2int,
{
    if p < 0 || p >= ts.len() {
        (acc, p)
    } else {
        match ts[p] {
            TokenView::OpenBrace => submenu_body(ts, p + 1, d + 1, acc),
            TokenView::CloseBrace => if d - 1 == 0 {
                (acc, p + 1)
            } else {
                submenu_body(ts, p + 1, d - 1, acc)
            },
            TokenView::Word(w) => if d == 1 && w == seq!['m', 'e', 'n', 'u', 'e', 'n', 't', 'r', 'y'] {
                let (m, q) = menuentry_spec(ts, p);
                if q <= p || q > ts.len() {
                    (push_opt(acc, m), q)
                } else {
                    submenu_body(ts, q, d, push_opt(acc, m))
                }
            } else if d == 1 && w == seq!['s', 'u', 'b', 'm', 'e', 'n', 'u'] {
                let (m, q) = submenu_spec(ts, p);
                if q <= p || q > ts.len() {
                    (push_opt(acc, m), q)
                } else {
                    submenu_body(ts, q, d, push_opt(acc, m))
                }
            } else {
                submenu_body(ts, p + 1, d, acc)
            },
            TokenView::Separator => submenu_body(ts, p + 1, d, acc),
        }
    }
}

/// The top-level menu entries and submenus from `p` on.
pub open spec fn top_level(ts: Seq<TokenView>, p: int, acc: Seq<MenuView>) -> Seq<MenuView>
    decreases ts.len() - p,
{
    if p < 0 || p >= ts.len() {
        acc
    } else if ts[p] == TokenView::Word(seq!['m', 'e', 'n', 'u', 'e', 'n', 't', 'r', 'y']) {
        let (m, q) = menuentry_spec(ts, p);
        if q <= p || q > ts.len() {
            push_opt(acc, m)
        } else {
            top_level(ts, q, push_opt(acc, m))
        }
    } else if ts[p] == TokenView::Word(seq!['s', 'u', 'b', 'm', 'e', 'n', 'u']) {
        let (m, q) = submenu_spec(ts, p);
        if q <= p || q > ts.len() {
            push_opt(acc, m)
        } else {
            top_level(ts, q, push_opt(acc, m))
        }
    } else {
        top_level(ts, p + 1, acc)
    }
}

/// The menu of a GRUB configuration.
pub open spec fn grub_menu(s: Seq<char>) -> Seq<MenuView> {
    top_level(tokens(s, 0), 0, Seq::empty())
}

proof fn lemma_squoted(s: Seq<char>, i: int, acc: Seq<char>)
    requires
        0 <= i <= s.len(),
    ensures
        i <= squoted(s, i, acc).1 <= s.len(),
    decreases s.len() - i,
{
    if i < s.len() && s[i] != '\'' {
        lemma_squoted(s, i + 1, acc.push(s[i]));
    }
}

proof fn lemma_dquoted(s: Seq<char>, i: int, acc: Seq<char>)
    requires
        0 <= i <= s.len(),
    ensures
        i <= dquoted(s, i, acc).1 <= s.len(),
    decreases s.len() - i,
{
    if i < s.len() && s[i] != '"' {
        if s[i] == '\\' {
            if i + 1 < s.len() {
                lemma_dquoted(s, i + 2, acc.push(s[i + 1]));
            }
        } else {
            lemma_dquoted(s, i + 1, acc.push(s[i]));
        }
    }
}

proof fn lemma_word_from(s: Seq<char>, i: int, acc: Seq<char>)
    requires
        0 <= i <= s.len(),
    ensures
        i <= word_from(s, i, acc).1 <= s.len(),
        i < s.len() && !ends_word(s[i]) ==> i < word_from(s, i, acc).1,
    decreases s.len() - i,
{
    if i < s.len() && !ends_word(s[i]) {
        if s[i] == '\'' {
            lemma_squoted(s, i + 1, acc);
            let (q, j) = squoted(s, i + 1, acc);
            lemma_word_from(s, j, q);
        } else if s[i] == '"' {
            lemma_dquoted(s, i + 1, acc);
            let (q, j) = dquoted(s, i + 1, acc);
            lemma_word_from(s, j, q);
        } else {
            lemma_word_from(s, i + 1, acc.push(s[i]));
        }
    }
}

proof fn lemma_comment_end(s: Seq<char>, i: int)
    requires
        0 <= i <= s.len(),
    ensures
        i <= comment_end(s, i) <= s.len(),
    decreases s.len() - i,
{
    if i < s.len() && s[i] != '\n' {
        lemma_comment_end(s, i + 1);
    }
}

proof fn lemma_next_token(s: Seq<char>, i: int)
    requires
        0 <= i <= s.len(),
    ensures
        next_token_spec(s, i) matches Some((t, j)) ==> i < j <= s.len(),
    decreases s.len() - i,
{
    if i < s.len() {
        let c = s[i];
        if c == ' ' || c == '\t' || c == '\r' {
            lemma_next_token(s, i + 1);
        } else if c == '#' {
            lemma_comment_end(s, i);
            let j = comment_end(s, i);
            if j > i {
                lemma_next_token(s, j);
            }
        } else if !(c == '\n' || c == ';' || c == '{' || c == '}') {
            lemma_word_from(s, i, Seq::empty());
        }
    }
}

/// Splits text into tokens.
pub struct Tokenizer {
    chars: Vec<char>,
    pos: usize,
}

impl Tokenizer {
    /// The text being split.
    pub closed spec fn text(&self) -> Seq<char> {
        self.chars@
    }

    /// The position reached.
    pub closed spec fn position(&self) -> int {
        self.pos as int
    }

    /// A tokenizer at the start of `input`.
    pub fn new(input: &str) -> (t: Self)
        ensures
            t.text() == input@,
            t.position() == 0,
    {
        Tokenizer { chars: chars_of(input), pos: 0 }
    }

    /// The next token, skipping blanks and comments; `None` at the end.
    pub fn next_token(&mut self) -> (r: Option<Token>)
        requires
            old(self).position() <= old(self).text().len(),
        ensures
            final(self).text() == old(self).text(),
            final(self).position() <= final(self).text().len(),
            match next_token_spec(old(self).text(), old(self).position()) {
                None => r is None,
                Some((t, j)) => r matches Some(x) && token_view(x) == t && final(self).position()
                    == j,
            },
    {
        let n = self.chars.len();
        loop
            invariant
                self.chars@ == old(self).chars@,
                n == self.chars@.len(),
                self.pos <= n,
                next_token_spec(self.chars@, old(self).pos as int) == next_token_spec(
                    self.chars@,
                    self.pos as int,
                ),
            decreases n - self.pos,
        {
            if self.pos >= n {
                return None;
            }
            let c = self.chars[self.pos];
            if c == ' ' || c == '\t' || c == '\r' {
                self.pos = self.pos + 1;
            } else if c == '\n' || c == ';' {
                self.pos = self.pos + 1;
                return Some(Token::Separator);
            } else if c == '{' {
                self.pos = self.pos + 1;
                return Some(Token::OpenBrace);
            } else if c == '}' {
                self.pos = self.pos + 1;
                return Some(Token::CloseBrace);
            } else if c == '#' {
                let ghost p0 = self.pos as int;
                while self.pos < n && self.chars[self.pos] != '\n'
                    invariant
                        self.chars@ == old(self).chars@,
                        n == self.chars@.len(),
                        p0 <= self.pos <= n,
                        comment_end(self.chars@, p0) == comment_end(self.chars@, self.pos as int),
                    decreases n - self.pos,
                {
                    self.pos = self.pos + 1;
                }
                proof {
                    assert(self.pos > p0);
                }
            } else {
                proof {
                    lemma_word_from(self.chars@, self.pos as int, Seq::empty());
                }
                return Some(self.parse_word());
            }
        }
    }

    /// The word at the current position.
    fn parse_word(&mut self) -> (w: Token)
        requires
            old(self).pos < old(self).chars@.len(),
            !ends_word(old(self).chars@[old(self).pos as int]),
        ensures
            final(self).chars@ == old(self).chars@,
            token_view(w) == TokenView::Word(
                word_from(old(self).chars@, old(self).pos as int, Seq::empty()).0,
            ),
            final(self).pos == word_from(old(self).chars@, old(self).pos as int, Seq::empty()).1,
    {
        let n = self.chars.len();
        let mut word: Vec<char> = Vec::new();
        loop
            invariant
                self.chars@ == old(self).chars@,
                n == self.chars@.len(),
                self.pos <= n,
                word_from(self.chars@, old(self).pos as int, Seq::empty()) == word_from(
                    self.chars@,
                    self.pos as int,
                    word@,
                ),
            ensures
                self.chars@ == old(self).chars@,
                word_from(self.chars@, old(self).pos as int, Seq::empty()) == (
                    word@,
                    self.pos as int,
                ),
            decreases n - self.pos,
        {
            if self.pos >= n {
                break;
            }
            let c = self.chars[self.pos];
            if c == ' ' || c == '\t' || c == '\r' || c == '\n' || c == ';' || c == '{' || c == '}'
                || c == '#' {
                break;
            }
            let ghost p0 = self.pos as int;
            let ghost w0 = word@;
            if c == '\'' {
                self.pos = self.pos + 1;
                while self.pos < n && self.chars[self.pos] != '\''
                    invariant
                        self.chars@ == old(self).chars@,
                        n == self.chars@.len(),
                        p0 < self.pos <= n,
                        squoted(self.chars@, p0 + 1, w0) == squoted(
                            self.chars@,
                            self.pos as int,
                            word@,
                        ),
                    decreases n - self.pos,
                {
                    word.push(self.chars[self.pos]);
                    self.pos = self.pos + 1;
                }
                if self.pos < n {
                    self.pos = self.pos + 1;
                }
                proof {
                    lemma_squoted(self.chars@, p0 + 1, w0);
                }

            } else if c == '"' {
                self.pos = self.pos + 1;
                loop
                    invariant_except_break
                        dquoted(self.chars@, p0 + 1, w0) == dquoted(
                            self.chars@,
                            self.pos as int,
                            word@,
                        ),
                    invariant
                        self.chars@ == old(self).chars@,
                        n == self.chars@.len(),
                        p0 < self.pos <= n,
                    ensures
                        dquoted(self.chars@, p0 + 1, w0) == (word@, self.pos as int),
                        self.chars@ == old(self).chars@,
                        p0 < self.pos <= n,
                    decreases n - self.pos,
                {
                    if self.pos >= n {
                        break;
                    }
                    let d = self.chars[self.pos];
                    if d == '"' {
                        self.pos = self.pos + 1;
                        break;
                    }
                    if d == '\\' {
                        if self.pos + 1 < n {
                            word.push(self.chars[self.pos + 1]);
                            self.pos = self.pos + 2;
                        } else {
                            self.pos = self.pos + 1;
                            break;
                        }
                    } else {
                        word.push(d);
                        self.pos = self.pos + 1;
                    }
                }
            } else {
                word.push(c);
                self.pos = self.pos + 1;
            }
        }
        Token::Word(string_from_chars(word.as_slice()))
    }
}

proof fn lemma_words_from(ts: Seq<TokenView>, p: int, acc: Option<Seq<char>>)
    requires
        0 <= p <= ts.len(),
    ensures
        p <= words_from(ts, p, acc).1 <= ts.len(),
        acc is Some ==> words_from(ts, p, acc).0 is Some,
        word_at(ts, p) is Some ==> words_from(ts, p, acc).0 is Some,
    decreases ts.len() - p,
{
    if let Some(w) = word_at(ts, p) {
        lemma_words_from(
            ts,
            p + 1,
            Some(
                match acc {
                    None => w,
                    Some(a) => a + seq![' '] + w,
                },
            ),
        );
    }
}

proof fn lemma_open_brace_from(ts: Seq<TokenView>, p: int)
    requires
        0 <= p <= ts.len(),
    ensures
        p <= open_brace_from(ts, p) <= ts.len(),
    decreases ts.len() - p,
{
    if p < ts.len() && ts[p] != TokenView::OpenBrace {
        lemma_open_brace_from(ts, p + 1);
    }
}

/// Parses a token list into menu entries.
pub struct GrubParser {
    tokens: Vec<Token>,
    pos: usize,
}

/// The texts of a list of tokens.
pub open spec fn tokens_view(ts: Seq<Token>) -> Seq<TokenView> {
    ts.map_values(|t: Token| token_view(t))
}

impl GrubParser {
    /// The tokens.
    pub closed spec fn toks(&self) -> Seq<TokenView> {
        tokens_view(self.tokens@)
    }

    /// The index of the current token.
    pub closed spec fn position(&self) -> int {
        self.pos as int
    }

    /// A parser over the tokens of `content`, at the first.
    pub fn new(content: &str) -> (p: Self)
        ensures
            p.toks() == tokens(content@, 0),
            p.position() == 0,
    {
        let mut tokenizer = Tokenizer::new(content);
        let mut toks: Vec<Token> = Vec::new();
        loop
            invariant_except_break
                tokens(content@, 0) == tokens_view(toks@) + tokens(content@, tokenizer.position()),
            invariant
                tokenizer.text() == content@,
                0 <= tokenizer.position() <= content@.len(),
            ensures
                tokens(content@, 0) == tokens_view(toks@),
            decreases content@.len() - tokenizer.position(),
        {
            let ghost p0 = tokenizer.position();
            proof {
                lemma_next_token(content@, p0);
            }
            match tokenizer.next_token() {
                None => {
                    proof {
                        assert(tokens_view(toks@) + Seq::<TokenView>::empty() =~= tokens_view(
                            toks@,
                        ));
                    }
                    break;
                },
                Some(t) => {
                    proof {
                        assert(tokens_view(toks@.push(t)) =~= tokens_view(toks@).push(
                            token_view(t),
                        ));
                        assert(tokens_view(toks@) + (seq![token_view(t)] + tokens(
                            content@,
                            tokenizer.position(),
                        )) =~= tokens_view(toks@).push(token_view(t)) + tokens(
                            content@,
                            tokenizer.position(),
                        ));
                    }
                    toks.push(t);
                },
            }
        }
        GrubParser { tokens: toks, pos: 0 }
    }

    fn advance(&mut self)
        requires
            old(self).pos < old(self).tokens@.len(),
        ensures
            final(self).tokens@ == old(self).tokens@,
            final(self).pos == old(self).pos + 1,
    {
        let _n = self.tokens.len();
        self.pos = self.pos + 1;
    }

    /// Whether the current token is the word `w`.
    fn at_word(&self, w: &[char]) -> (r: bool)
        ensures
            r == is_word(self.toks(), self.pos as int, w@),
    {
        if self.pos >= self.tokens.len() {
            return false;
        }
        match &self.tokens[self.pos] {
            Token::Word(x) => {
                let cs = chars_of(x.as_str());
                let r = chars_eq(cs.as_slice(), w);
                proof {
                    assert(self.toks()[self.pos as int] == token_view(self.tokens@[self.pos as int]));
                }
                r
            },
            _ => {
                proof {
                    assert(self.toks()[self.pos as int] == token_view(self.tokens@[self.pos as int]));
                }
                false
            },
        }
    }

    /// The current token if it is a word.
    fn current_word(&self) -> (r: Option<String>)
        ensures
            opt_text(r) == word_at(self.toks(), self.pos as int),
    {
        if self.pos >= self.tokens.len() {
            return None;
        }
        proof {
            assert(self.toks()[self.pos as int] == token_view(self.tokens@[self.pos as int]));
        }
        match &self.tokens[self.pos] {
            Token::Word(x) => Some(x.clone()),
            _ => None,
        }
    }

    fn parse_initrd_command(&mut self, initrd: &mut Option<String>)
        requires
            old(self).pos < old(self).tokens@.len(),
        ensures
            final(self).tokens@ == old(self).tokens@,
            (opt_text(*final(initrd)), final(self).pos as int) == initrd_cmd(
                old(self).toks(),
                old(self).pos as int,
                opt_text(*old(initrd)),
            ),
    {
        self.advance();
        match self.current_word() {
            Some(path) => {
                *initrd = Some(path);
                self.advance();
            },
            None => {},
        }
    }

    fn parse_linux_command(&mut self, linux: &mut Option<String>, cmdline: &mut Option<String>)
        requires
            old(self).pos < old(self).tokens@.len(),
        ensures
            final(self).tokens@ == old(self).tokens@,
            (opt_text(*final(linux)), opt_text(*final(cmdline)), final(self).pos as int)
                == linux_cmd(
                old(self).toks(),
                old(self).pos as int,
                opt_text(*old(linux)),
                opt_text(*old(cmdline)),
            ),
    {
        self.advance();
        let path = match self.current_word() {
            Some(p) => p,
            None => {
                return;
            },
        };
        let ghost lp = path@;
        *linux = Some(path);
        self.advance();
        let ghost p2 = self.pos as int;
        let mut joined: Vec<char> = Vec::new();
        let mut any = false;
        loop
            invariant
                self.tokens@ == old(self).tokens@,
                p2 <= self.pos <= self.tokens@.len(),
                p2 == old(self).pos + 2,
                !any ==> joined@ == Seq::<char>::empty(),
                opt_text(*linux) == Some(lp),
                *cmdline == *old(cmdline),
                word_at(old(self).toks(), old(self).pos + 1) == Some(lp),
                words_from(old(self).toks(), p2, None) == words_from(
                    old(self).toks(),
                    self.pos as int,
                    if any {
                        Some(joined@)
                    } else {
                        None
                    },
                ),
            ensures
                word_at(old(self).toks(), self.pos as int) is None,
                self.tokens@ == old(self).tokens@,
                opt_text(*linux) == Some(lp),
                *cmdline == *old(cmdline),
                word_at(old(self).toks(), old(self).pos + 1) == Some(lp),
                p2 == old(self).pos + 2,
                words_from(old(self).toks(), p2, None) == words_from(
                    old(self).toks(),
                    self.pos as int,
                    if any {
                        Some(joined@)
                    } else {
                        None
                    },
                ),
            decreases self.tokens@.len() - self.pos,
        {
            let w = match self.current_word() {
                Some(w) => w,
                None => {
                    break;
                },
            };
            let ghost a0 = joined@;
            if any {
                joined.push(' ');
            }
            let cs = chars_of(w.as_str());
            push_chars(&mut joined, cs.as_slice());
            proof {
                if any {
                    assert(joined@ =~= a0 + seq![' '] + w@);
                } else {
                    assert(joined@ =~= w@);
                }
            }
            any = true;
            self.advance();
        }
        if any {
            *cmdline = Some(string_from_chars(joined.as_slice()));
        }
    }
}

proof fn lemma_entry_body(
    ts: Seq<TokenView>,
    p: int,
    d: int,
    l: Option<Seq<char>>,
    i: Option<Seq<char>>,
    c: Option<Seq<char>>,
)
    requires
        0 <= p <= ts.len(),
    ensures
        p <= entry_body(ts, p, d, l, i, c).3 <= ts.len(),
    decreases ts.len() - p,
{
    if p < ts.len() {
        match ts[p] {
            TokenView::OpenBrace => lemma_entry_body(ts, p + 1, d + 1, l, i, c),
            TokenView::CloseBrace => if d - 1 != 0 {
                lemma_entry_body(ts, p + 1, d - 1, l, i, c)
            },
            TokenView::Word(w) => if d == 1 && w == seq!['l', 'i', 'n', 'u', 'x'] {
                if p + 2 <= ts.len() {
                    lemma_words_from(ts, p + 2, None);
                }
                let (l2, c2, q) = linux_cmd(ts, p, l, c);
                if p < q <= ts.len() {
                    lemma_entry_body(ts, q, d, l2, i, c2);
                }
            } else if d == 1 && w == seq!['i', 'n', 'i', 't', 'r', 'd'] {
                let (i2, q) = initrd_cmd(ts, p, i);
                if p < q <= ts.len() {
                    lemma_entry_body(ts, q, d, l, i2, c);
                }
            } else {
                lemma_entry_body(ts, p + 1, d, l, i, c)
            },
            TokenView::Separator => lemma_entry_body(ts, p + 1, d, l, i, c),
        }
    }
}

impl GrubParser {
    /// Skips to the next `{` (or the end).
    fn skip_to_open_brace(&mut self)
        requires
            old(self).pos <= old(self).tokens@.len(),
        ensures
            final(self).tokens@ == old(self).tokens@,
            final(self).pos as int == open_brace_from(old(self).toks(), old(self).pos as int),
    {
        loop
            invariant
                self.tokens@ == old(self).tokens@,
                old(self).pos <= self.pos <= self.tokens@.len(),
                self.toks().len() == self.tokens@.len(),
                open_brace_from(old(self).toks(), old(self).pos as int) == open_brace_from(
                    old(self).toks(),
                    self.pos as int,
                ),
            decreases self.tokens@.len() - self.pos,
        {
            if self.pos >= self.tokens.len() {
                return;
            }
            proof {
                assert(self.toks()[self.pos as int] == token_view(self.tokens@[self.pos as int]));
            }
            match &self.tokens[self.pos] {
                Token::OpenBrace => {
                    return;
                },
                _ => {},
            }
            self.advance();
        }
    }

    /// Parses the menu entry whose `menuentry` word is current.
    fn parse_menuentry(&mut self) -> (r: Option<MenuEntry>)
        requires
            old(self).pos < old(self).tokens@.len(),
        ensures
            final(self).tokens@ == old(self).tokens@,
            final(self).pos as int == menuentry_spec(old(self).toks(), old(self).pos as int).1,
            old(self).pos < final(self).pos <= final(self).tokens@.len(),
            match menuentry_spec(old(self).toks(), old(self).pos as int).0 {
                None => r is None,
                Some(v) => r matches Some(m) && menu_is(m, v),
            },
    {
        let ghost ts = old(self).toks();
        let ghost p0 = old(self).pos as int;
        self.advance();
        let title = match self.current_word() {
            Some(t) => t,
            None => {
                return None;
            },
        };
        self.advance();
        proof {
            lemma_open_brace_from(ts, p0 + 2);
        }
        self.skip_to_open_brace();
        if self.pos >= self.tokens.len() {
            return None;
        }
        self.advance();
        let ghost b1 = self.pos as int;
        let mut linux: Option<String> = None;
        let mut initrd: Option<String> = None;
        let mut cmdline: Option<String> = None;
        let mut depth: usize = 1;
        proof {
            lemma_entry_body(ts, b1, 1, None, None, None);
        }
        loop
            invariant_except_break
                entry_body(ts, b1, 1, None, None, None) == entry_body(
                    ts,
                    self.pos as int,
                    depth as int,
                    opt_text(linux),
                    opt_text(initrd),
                    opt_text(cmdline),
                ),
                1 <= depth <= self.pos,
            invariant
                self.tokens@ == old(self).tokens@,
                ts == old(self).toks(),
                b1 <= self.pos <= self.tokens@.len(),
                p0 + 3 <= b1,
            ensures
                entry_body(ts, b1, 1, None, None, None) == (
                    opt_text(linux),
                    opt_text(initrd),
                    opt_text(cmdline),
                    self.pos as int,
                ),
            decreases self.tokens@.len() - self.pos,
        {
            if self.pos >= self.tokens.len() {
                break;
            }
            proof {
                assert(self.toks()[self.pos as int] == token_view(self.tokens@[self.pos as int]));
            }
            let linux_w: [char; 5] = ['l', 'i', 'n', 'u', 'x'];
            let initrd_w: [char; 6] = ['i', 'n', 'i', 't', 'r', 'd'];
            proof {
                assert(linux_w@ =~= seq!['l', 'i', 'n', 'u', 'x']);
                assert(initrd_w@ =~= seq!['i', 'n', 'i', 't', 'r', 'd']);
            }
            match &self.tokens[self.pos] {
                Token::OpenBrace => {
                    depth = depth + 1;
                    self.advance();
                },
                Token::CloseBrace => {
                    depth = depth - 1;
                    self.advance();
                    if depth == 0 {
                        break;
                    }
                },
                Token::Word(_) => {
                    if depth == 1 && self.at_word(&linux_w) {
                        proof {
                            if self.pos + 2 <= ts.len() {
                                lemma_words_from(ts, self.pos + 2, None);
                            }
                        }
                        self.parse_linux_command(&mut linux, &mut cmdline);
                    } else if depth == 1 && self.at_word(&initrd_w) {
                        self.parse_initrd_command(&mut initrd);
                    } else {
                        self.advance();
                    }
                },
                Token::Separator => {
                    self.advance();
                },
            }
        }
        Some(MenuEntry::Entry { title, linux, initrd, cmdline })
    }
}

impl GrubParser {
    /// Parses the submenu whose `submenu` word is current.
    fn parse_submenu(&mut self) -> (r: Option<MenuEntry>)
        requires
            old(self).pos < old(self).tokens@.len(),
        ensures
            final(self).tokens@ == old(self).tokens@,
            final(self).pos as int == submenu_spec(old(self).toks(), old(self).pos as int).1,
            old(self).pos < final(self).pos <= final(self).tokens@.len(),
            match submenu_spec(old(self).toks(), old(self).pos as int).0 {
                None => r is None,
                Some(v) => r matches Some(m) && menu_is(m, v),
            },
        decreases old(self).tokens@.len() - old(self).pos,
    {
        let ghost ts = old(self).toks();
        let ghost p0 = old(self).pos as int;
        self.advance();
        let title = match self.current_word() {
            Some(t) => t,
            None => {
                return None;
            },
        };
        self.advance();
        proof {
            lemma_open_brace_from(ts, p0 + 2);
        }
        self.skip_to_open_brace();
        if self.pos >= self.tokens.len() {
            return None;
        }
        self.advance();
        let ghost b1 = self.pos as int;
        let mut entries: Vec<MenuEntry> = Vec::new();
        let ghost mut ev: Seq<MenuView> = Seq::empty();
        let mut depth: usize = 1;
        let menuentry_w: [char; 9] = ['m', 'e', 'n', 'u', 'e', 'n', 't', 'r', 'y'];
        let submenu_w: [char; 7] = ['s', 'u', 'b', 'm', 'e', 'n', 'u'];
        proof {
            assert(menuentry_w@ =~= seq!['m', 'e', 'n', 'u', 'e', 'n', 't', 'r', 'y']);
            assert(submenu_w@ =~= seq!['s', 'u', 'b', 'm', 'e', 'n', 'u']);
        }
        loop
            invariant_except_break
                submenu_body(ts, b1, 1, Seq::empty()) == submenu_body(
                    ts,
                    self.pos as int,
                    depth as int,
                    ev,
                ),
                1 <= depth <= self.pos,
            invariant
                self.tokens@ == old(self).tokens@,
                ts == old(self).toks(),
                ts.len() == self.tokens@.len(),
                b1 <= self.pos <= self.tokens@.len(),
                p0 + 3 <= b1,
                p0 == old(self).pos,
                menus_are(entries@, ev),
                menuentry_w@ == seq!['m', 'e', 'n', 'u', 'e', 'n', 't', 'r', 'y'],
                submenu_w@ == seq!['s', 'u', 'b', 'm', 'e', 'n', 'u'],
            ensures
                submenu_body(ts, b1, 1, Seq::empty()) == (ev, self.pos as int),
            decreases self.tokens@.len() - self.pos,
        {
            if self.pos >= self.tokens.len() {
                break;
            }
            proof {
                assert(self.toks()[self.pos as int] == token_view(self.tokens@[self.pos as int]));
            }
            match &self.tokens[self.pos] {
                Token::OpenBrace => {
                    depth = depth + 1;
                    self.advance();
                },
                Token::CloseBrace => {
                    depth = depth - 1;
                    self.advance();
                    if depth == 0 {
                        break;
                    }
                },
                Token::Word(_) => {
                    if depth == 1 && self.at_word(&menuentry_w) {
                        let ghost q0 = self.pos as int;
                        let m = self.parse_menuentry();
                        let ghost mv = menuentry_spec(ts, q0).0;
                        match m {
                            Some(x) => {
                                proof {
                                    assert(entries@.push(x).len() == ev.push(mv->0).len());
                                    assert forall|k: int| 0 <= k < ev.push(mv->0).len() implies menu_is(
                                        #[trigger] entries@.push(x)[k],
                                        ev.push(mv->0)[k],
                                    ) by {
                                        if k < ev.len() {
                                            assert(entries@.push(x)[k] == entries@[k]);
                                        }
                                    }
                                    ev = ev.push(mv->0);
                                }
                                entries.push(x);
                            },
                            None => {},
                        }
                    } else if depth == 1 && self.at_word(&submenu_w) {
                        let ghost q0 = self.pos as int;
                        assert(self.tokens@.len() - self.pos < old(self).tokens@.len() - old(
                            self,
                        ).pos);
                        let m = self.parse_submenu();
                        let ghost mv = submenu_spec(ts, q0).0;
                        match m {
                            Some(x) => {
                                proof {
                                    assert(entries@.push(x).len() == ev.push(mv->0).len());
                                    assert forall|k: int| 0 <= k < ev.push(mv->0).len() implies menu_is(
                                        #[trigger] entries@.push(x)[k],
                                        ev.push(mv->0)[k],
                                    ) by {
                                        if k < ev.len() {
                                            assert(entries@.push(x)[k] == entries@[k]);
                                        }
                                    }
                                    ev = ev.push(mv->0);
                                }
                                entries.push(x);
                            },
                            None => {},
                        }
                    } else {
                        self.advance();
                    }
                },
                Token::Separator => {
                    self.advance();
                },
            }
        }
        Some(MenuEntry::Submenu { title, entries })
    }
}

impl GrubParser {
    /// Parses the menu entries and submenus from the current token on.
    fn parse(&mut self) -> (r: Vec<MenuEntry>)
        requires
            old(self).pos <= old(self).tokens@.len(),
        ensures
            menus_are(r@, top_level(old(self).toks(), old(self).pos as int, Seq::empty())),
    {
        let ghost ts = old(self).toks();
        let mut entries: Vec<MenuEntry> = Vec::new();
        let ghost mut ev: Seq<MenuView> = Seq::empty();
        let menuentry_w: [char; 9] = ['m', 'e', 'n', 'u', 'e', 'n', 't', 'r', 'y'];
        let submenu_w: [char; 7] = ['s', 'u', 'b', 'm', 'e', 'n', 'u'];
        proof {
            assert(menuentry_w@ =~= seq!['m', 'e', 'n', 'u', 'e', 'n', 't', 'r', 'y']);
            assert(submenu_w@ =~= seq!['s', 'u', 'b', 'm', 'e', 'n', 'u']);
        }
        while self.pos < self.tokens.len()
            invariant
                self.tokens@ == old(self).tokens@,
                ts == old(self).toks(),
                ts.len() == self.tokens@.len(),
                self.pos <= self.tokens@.len(),
                menus_are(entries@, ev),
                top_level(ts, old(self).pos as int, Seq::empty()) == top_level(
                    ts,
                    self.pos as int,
                    ev,
                ),
                menuentry_w@ == seq!['m', 'e', 'n', 'u', 'e', 'n', 't', 'r', 'y'],
                submenu_w@ == seq!['s', 'u', 'b', 'm', 'e', 'n', 'u'],
            decreases self.tokens@.len() - self.pos,
        {
            if self.at_word(&menuentry_w) {
                let ghost q0 = self.pos as int;
                let m = self.parse_menuentry();
                let ghost mv = menuentry_spec(ts, q0).0;
                match m {
                    Some(x) => {
                        proof {
                            assert forall|k: int| 0 <= k < ev.push(mv->0).len() implies menu_is(
                                #[trigger] entries@.push(x)[k],
                                ev.push(mv->0)[k],
                            ) by {
                                if k < ev.len() {
                                    assert(entries@.push(x)[k] == entries@[k]);
                                }
                            }
                            ev = ev.push(mv->0);
                        }
                        entries.push(x);
                    },
                    None => {},
                }
            } else if self.at_word(&submenu_w) {
                let ghost q0 = self.pos as int;
                let m = self.parse_submenu();
                let ghost mv = submenu_spec(ts, q0).0;
                match m {
                    Some(x) => {
                        proof {
                            assert forall|k: int| 0 <= k < ev.push(mv->0).len() implies menu_is(
                                #[trigger] entries@.push(x)[k],
                                ev.push(mv->0)[k],
                            ) by {
                                if k < ev.len() {
                                    assert(entries@.push(x)[k] == entries@[k]);
                                }
                            }
                            ev = ev.push(mv->0);
                        }
                        entries.push(x);
                    },
                    None => {},
                }
            } else {
                self.advance();
            }
        }
        entries
    }
}

/// Parses the menu of a GRUB configuration file: its top-level menu
/// entries and submenus (nested as in the file), each entry with the
/// path and command line of its `linux` command and the path of its
/// `initrd` command.
pub fn parse_grub_cfg(content: &str) -> (r: Vec<MenuEntry>)
    ensures
        menus_are(r@, grub_menu(content@)),
{
    let mut parser = GrubParser::new(content);
    parser.parse()
}

} // verus!
