//! Boot flow discovery: turning GRUB configurations, Boot Loader
//! Specification entries and speedboot `boot.toml` descriptions found on a
//! filesystem into a list of bootable entries, and ordering that list.
use vstd::prelude::*;
use vstd::string::StringSliceAdditionalSpecFns;
use vstd::utf8::{decode_utf8, encode_utf8_decode_utf8, valid_utf8};
use crate::chid::utf8_str;
use crate::grub::{grub_menu, menu_is, menus_are, opt_text, parse_grub_cfg, MenuEntry, MenuView};
use crate::text::{chars_of, push_str, string_from_chars};

verus! {

/// Errors that can occur during speedboot operation.
#[derive(Debug, Clone, PartialEq, Eq)]
pub enum SpeedbootError {
    /// A platform service failed; the text describes the failure.
    PlatformError(String),
    NoBootEntriesFound,
    InvalidSelection,
    NoKernelPath,
    FileNotFound,
    FileReadError,
    BootError(String),
}

impl SpeedbootError {
    /// Human-readable description of the error.
    pub fn to_string(&self) -> (s: String)
        ensures
            s@ == match self {
                SpeedbootError::PlatformError(e) => "Platform error: "@ + e@,
                SpeedbootError::NoBootEntriesFound => "No boot entries found"@,
                SpeedbootError::InvalidSelection => "Invalid selection"@,
                SpeedbootError::NoKernelPath => "No kernel path in menu entry"@,
                SpeedbootError::FileNotFound => "Boot file not found"@,
                SpeedbootError::FileReadError => "Failed to read boot file"@,
                SpeedbootError::BootError(m) => "Boot error: "@ + m@,
            },
    {
        match self {
            SpeedbootError::PlatformError(e) => {
                let mut s = String::from_str("Platform error: ");
                s.append(e.as_str());
                s
            },
            SpeedbootError::NoBootEntriesFound => String::from_str("No boot entries found"),
            SpeedbootError::InvalidSelection => String::from_str("Invalid selection"),
            SpeedbootError::NoKernelPath => String::from_str("No kernel path in menu entry"),
            SpeedbootError::FileNotFound => String::from_str("Boot file not found"),
            SpeedbootError::FileReadError => String::from_str("Failed to read boot file"),
            SpeedbootError::BootError(m) => {
                let mut s = String::from_str("Boot error: ");
                s.append(m.as_str());
                s
            },
        }
    }
}

/// `p` with a leading slash added where it has none.
pub open spec fn with_leading_slash(p: Seq<char>) -> Seq<char> {
    if p.len() > 0 && p[0] == '/' {
        p
    } else {
        seq!['/'] + p
    }
}

/// Ensures a path starts with a leading slash.
pub fn ensure_leading_slash(path: &str) -> (r: String)
    ensures
        r@ == with_leading_slash(path@),
{
    let v = chars_of(path);
    if v.len() > 0 && v[0] == '/' {
        path.to_owned()
    } else {
        let mut out: Vec<char> = Vec::new();
        out.push('/');
        push_str(&mut out, path);
        proof {
            assert(out@ =~= seq!['/'] + path@);
        }
        string_from_chars(out.as_slice())
    }
}

/// A bootable entry found by a boot flow: the paths of its kernel and
/// initrd on the filesystem it was found on, its command line, and the
/// machine id of the OS it belongs to where the flow knows it.
#[derive(Debug, Clone, PartialEq, Eq)]
pub struct BootEntry {
    pub title: String,
    pub linux: Option<String>,
    pub initrd: Option<String>,
    pub cmdline: Option<String>,
    pub machine_id: Option<String>,
}

/// The text of a boot entry.
pub struct BootEntryView {
    pub title: Seq<char>,
    pub linux: Option<Seq<char>>,
    pub initrd: Option<Seq<char>>,
    pub cmdline: Option<Seq<char>>,
    pub machine_id: Option<Seq<char>>,
}

/// The text of `e`.
pub open spec fn entry_view(e: BootEntry) -> BootEntryView {
    BootEntryView {
        title: e.title@,
        linux: opt_text(e.linux),
        initrd: opt_text(e.initrd),
        cmdline: opt_text(e.cmdline),
        machine_id: opt_text(e.machine_id),
    }
}

/// The texts of `es`.
pub open spec fn entries_view(es: Seq<BootEntry>) -> Seq<BootEntryView> {
    es.map_values(|e: BootEntry| entry_view(e))
}

fn clone_opt(o: &Option<String>) -> (r: Option<String>)
    ensures
        opt_text(r) == opt_text(*o),
{
    match o {
        Some(s) => Some(s.clone()),
        None => None,
    }
}

/// The Boot Loader Specification (type 1) boot flow.
pub struct BlsBootFlow;

impl BlsBootFlow {
    /// Creates a new BLS boot flow.
    pub fn new() -> Self {
        BlsBootFlow
    }
}

/// The GRUB configuration boot flow.
pub struct GrubBootFlow;

/// The speedboot `classic-1` boot flow.
pub struct SpeedbootBootFlow;

impl SpeedbootBootFlow {
    /// Creates a new speedboot boot flow.
    pub fn new() -> Self {
        SpeedbootBootFlow
    }
}

/// The title of an item of a submenu titled `prefix` (none at the top).
pub open spec fn join_title(prefix: Seq<char>, title: Seq<char>) -> Seq<char> {
    if prefix.len() == 0 {
        title
    } else {
        prefix + seq![' ', '>', ' '] + title
    }
}

/// The view of a menu entry.
pub open spec fn menu_view(m: MenuEntry) -> MenuView
    decreases m,
{
    match m {
        MenuEntry::Entry { title, linux, initrd, cmdline } => MenuView::Entry {
            title: title@,
            linux: opt_text(linux),
            initrd: opt_text(initrd),
            cmdline: opt_text(cmdline),
        },
        MenuEntry::Submenu { title, entries } => MenuView::Submenu {
            title: title@,
            entries: menu_views(entries@),
        },
    }
}

/// The views of menu entries.
pub open spec fn menu_views(ms: Seq<MenuEntry>) -> Seq<MenuView>
    decreases ms,
{
    if ms.len() == 0 {
        Seq::empty()
    } else {
        menu_views(ms.drop_last()).push(menu_view(ms.last()))
    }
}

/// The bootable entries under the menu item `m` of a submenu titled
/// `prefix`: an entry gives itself with its full title; a submenu gives the
/// entries under its items, in order.
pub open spec fn flatten_one(m: MenuView, prefix: Seq<char>) -> Seq<BootEntryView>
    decreases m,
{
    match m {
        MenuView::Entry { title, linux, initrd, cmdline } => seq![
            BootEntryView {
                title: join_title(prefix, title),
                linux,
                initrd,
                cmdline,
                machine_id: None,
            },
        ],
        MenuView::Submenu { title, entries } => flatten_seq(entries, join_title(prefix, title)),
    }
}

/// The bootable entries under the menu items `ms`, in order.
pub open spec fn flatten_seq(ms: Seq<MenuView>, prefix: Seq<char>) -> Seq<BootEntryView>
    decreases ms,
{
    if ms.len() == 0 {
        Seq::empty()
    } else {
        flatten_seq(ms.drop_last(), prefix) + flatten_one(ms.last(), prefix)
    }
}

proof fn lemma_menu_view(m: MenuEntry, v: MenuView)
    requires
        menu_is(m, v),
    ensures
        menu_view(m) == v,
    decreases v,
{
    match (m, v) {
        (MenuEntry::Submenu { title, entries }, MenuView::Submenu { title: t, entries: es }) => {
            lemma_menu_views(entries@, es);
        },
        _ => {},
    }
}

proof fn lemma_menu_views(ms: Seq<MenuEntry>, vs: Seq<MenuView>)
    requires
        menus_are(ms, vs),
    ensures
        menu_views(ms) == vs,
    decreases vs,
{
    if vs.len() > 0 {
        assert(menus_are(ms.drop_last(), vs.drop_last()));
        lemma_menu_views(ms.drop_last(), vs.drop_last());
        lemma_menu_view(ms.last(), vs.last());
        assert(vs =~= vs.drop_last().push(vs.last()));
    } else {
        assert(vs =~= Seq::<MenuView>::empty());
    }
}

fn title_with_prefix(prefix: &[char], title: &String) -> (r: Vec<char>)
    ensures
        r@ == join_title(prefix@, title@),
{
    let mut out: Vec<char> = Vec::new();
    if prefix.len() > 0 {
        crate::text::push_chars(&mut out, prefix);
        out.push(' ');
        out.push('>');
        out.push(' ');
    }
    push_str(&mut out, title.as_str());
    proof {
        if prefix@.len() > 0 {
            assert(out@ =~= prefix@ + seq![' ', '>', ' '] + title@);
        } else {
            assert(out@ =~= title@);
        }
    }
    out
}

proof fn lemma_flatten_seq_push(ms: Seq<MenuView>, prefix: Seq<char>, k: int)
    requires
        0 <= k < ms.len(),
    ensures
        flatten_seq(ms.take(k + 1), prefix) == flatten_seq(ms.take(k), prefix) + flatten_one(
            ms[k],
            prefix,
        ),
{
    assert(ms.take(k + 1).drop_last() =~= ms.take(k));
}

impl GrubBootFlow {
    /// Creates a new GRUB boot flow.
    pub fn new() -> Self {
        GrubBootFlow
    }

    /// Appends the bootable entries under `entry` to `result`, with titles
    /// prefixed by the submenus above it.
    fn flatten_recursive(entry: &MenuEntry, prefix: &[char], result: &mut Vec<BootEntry>)
        ensures
            entries_view(final(result)@) == entries_view(old(result)@) + flatten_one(
                menu_view(*entry),
                prefix@,
            ),
        decreases *entry,
    {
        match entry {
            MenuEntry::Entry { title, linux, initrd, cmdline } => {
                let full = title_with_prefix(prefix, title);
                let e = BootEntry {
                    title: string_from_chars(full.as_slice()),
                    linux: clone_opt(linux),
                    initrd: clone_opt(initrd),
                    cmdline: clone_opt(cmdline),
                    machine_id: None,
                };
                result.push(e);
                proof {
                    assert(entries_view(result@) =~= entries_view(old(result)@) + flatten_one(
                        menu_view(*entry),
                        prefix@,
                    ));
                }
            },
            MenuEntry::Submenu { title, entries } => {
                let full = title_with_prefix(prefix, title);
                let ghost vs = menu_views(entries@);
                let ghost start = entries_view(result@);
                let mut k: usize = 0;
                proof {
                    lemma_menu_views_len(entries@);
                    assert(vs.take(0) =~= Seq::<MenuView>::empty());
                    assert(entries_view(result@) =~= start + flatten_seq(vs.take(0), full@));
                }
                while k < entries.len()
                    invariant
                        *entry is Submenu,
                        *entries == (*entry)->entries,
                        k <= entries@.len(),
                        vs == menu_views(entries@),
                        vs.len() == entries@.len(),
                        entries_view(result@) == start + flatten_seq(vs.take(k as int), full@),
                    decreases entries@.len() - k,
                {
                    proof {
                        lemma_menu_views_index(entries@, k as int);
                        lemma_flatten_seq_push(vs, full@, k as int);
                        assert(decreases_to!(*entry => (*entry)->entries));
                        assert(decreases_to!((*entry)->entries => entries@));
                        assert(decreases_to!(entries@ => entries@[k as int]));
                        assert(decreases_to!(*entry => entries@[k as int]));
                    }
                    Self::flatten_recursive(&entries[k], full.as_slice(), result);
                    k += 1;
                }
                proof {
                    assert(vs.take(vs.len() as int) =~= vs);
                }
            },
        }
    }

    /// The bootable entries of a GRUB menu, submenus flattened with their
    /// titles joined by ` > `.
    pub fn build_boot_configurations(&self, entries: &[MenuEntry]) -> (r: Vec<BootEntry>)
        ensures
            entries_view(r@) == flatten_seq(menu_views(entries@), Seq::empty()),
    {
        let mut result: Vec<BootEntry> = Vec::new();
        let ghost vs = menu_views(entries@);
        let empty: Vec<char> = Vec::new();
        let mut k: usize = 0;
        proof {
            lemma_menu_views_len(entries@);
            assert(vs.take(0) =~= Seq::<MenuView>::empty());
            assert(entries_view(result@) =~= flatten_seq(vs.take(0), Seq::empty()));
        }
        while k < entries.len()
            invariant
                k <= entries@.len(),
                vs == menu_views(entries@),
                vs.len() == entries@.len(),
                empty@ == Seq::<char>::empty(),
                entries_view(result@) == flatten_seq(vs.take(k as int), Seq::empty()),
            decreases entries@.len() - k,
        {
            proof {
                lemma_menu_views_index(entries@, k as int);
                lemma_flatten_seq_push(vs, Seq::empty(), k as int);
            }
            Self::flatten_recursive(&entries[k], empty.as_slice(), &mut result);
            k += 1;
        }
        proof {
            assert(vs.take(vs.len() as int) =~= vs);
        }
        result
    }
}

proof fn lemma_menu_views_len(ms: Seq<MenuEntry>)
    ensures
        menu_views(ms).len() == ms.len(),
    decreases ms.len(),
{
    if ms.len() > 0 {
        lemma_menu_views_len(ms.drop_last());
    }
}

proof fn lemma_menu_views_index(ms: Seq<MenuEntry>, k: int)
    requires
        0 <= k < ms.len(),
    ensures
        menu_views(ms).len() == ms.len(),
        menu_views(ms)[k] == menu_view(ms[k]),
    decreases ms.len(),
{
    lemma_menu_views_len(ms);
    if k < ms.len() - 1 {
        lemma_menu_views_index(ms.drop_last(), k);
    }
}

/// The text of bytes that are valid UTF-8.
pub open spec fn text_of(b: Seq<u8>) -> Option<Seq<char>> {
    if valid_utf8(b) {
        Some(decode_utf8(b))
    } else {
        None
    }
}

/// Decodes UTF-8 bytes.
fn decode_text(b: &[u8]) -> (r: Option<&str>)
    ensures
        match text_of(b@) {
            Some(t) => r matches Some(s) && s@ == t,
            None => r is None,
        },
{
    let r = utf8_str(b);
    proof {
        if let Some(s) = r {
            encode_utf8_decode_utf8(s@);
        }
    }
    r
}

/// The bootable entries of a GRUB configuration file: none where it is
/// not UTF-8.
pub open spec fn grub_file_entries(f: Seq<u8>) -> Seq<BootEntryView> {
    match text_of(f) {
        Some(t) => flatten_seq(grub_menu(t), Seq::empty()),
        None => Seq::empty(),
    }
}

/// The bytes of each file.
pub open spec fn files_view(fs: Seq<Vec<u8>>) -> Seq<Seq<u8>> {
    fs.map_values(|v: Vec<u8>| v@)
}

/// The bootable entries of the GRUB configuration files `fs`, in order.
pub open spec fn grub_files_entries(fs: Seq<Seq<u8>>) -> Seq<BootEntryView>
    decreases fs.len(),
{
    if fs.len() == 0 {
        Seq::empty()
    } else {
        grub_files_entries(fs.drop_last()) + grub_file_entries(fs.last())
    }
}

impl GrubBootFlow {
    /// The bootable entries of the GRUB configuration files found on a
    /// filesystem, given their contents in the order they were found; an
    /// error where there are none.
    pub fn discover_in(&self, configs: &[Vec<u8>]) -> (r: Result<Vec<BootEntry>, SpeedbootError>)
        ensures
            grub_files_entries(files_view(configs@)).len() == 0 ==> r
                == Err::<Vec<BootEntry>, SpeedbootError>(SpeedbootError::NoBootEntriesFound),
            grub_files_entries(files_view(configs@)).len() > 0 ==> (r matches Ok(v) && entries_view(
                v@,
            ) == grub_files_entries(files_view(configs@))),
    {
        let mut all: Vec<BootEntry> = Vec::new();
        let mut i: usize = 0;
        while i < configs.len()
            invariant
                i <= configs@.len(),
                entries_view(all@) == grub_files_entries(files_view(configs@).take(i as int)),
            decreases configs@.len() - i,
        {
            proof {
                assert(files_view(configs@).take(i + 1).drop_last() =~= files_view(configs@).take(
                    i as int,
                ));
            }
            let ghost before = all@;
            match decode_text(configs[i].as_slice()) {
                Some(text) => {
                    let menu = parse_grub_cfg(text);
                    proof {
                        lemma_menu_views(menu@, grub_menu(text@));
                    }
                    let mut built = self.build_boot_configurations(menu.as_slice());
                    let ghost b = built@;
                    all.append(&mut built);
                    proof {
                        assert(entries_view(all@) =~= entries_view(before) + entries_view(b));
                    }
                },
                None => {},
            }
            proof {
                assert(entries_view(all@) =~= grub_files_entries(
                    files_view(configs@).take(i + 1),
                ));
            }
            i += 1;
        }
        proof {
            assert(files_view(configs@).take(configs@.len() as int) =~= files_view(configs@));
        }
        if all.len() == 0 {
            return Err(SpeedbootError::NoBootEntriesFound);
        }
        Ok(all)
    }
}

/// The entry that a parsed BLS file describes.
pub open spec fn bls_entry_view(f: crate::bls::BlsFields) -> BootEntryView {
    BootEntryView {
        title: match f.title {
            Some(t) => t,
            None => "(no title)"@,
        },
        linux: f.linux,
        initrd: f.initrd,
        cmdline: f.options,
        machine_id: None,
    }
}

/// The bootable entry of a BLS file: none where it is not UTF-8.
pub open spec fn bls_file_entry(f: Seq<u8>) -> Option<BootEntryView> {
    match text_of(f) {
        Some(t) => Some(bls_entry_view(crate::bls::bls_fold(t, 0, crate::bls::no_fields()))),
        None => None,
    }
}

/// The bootable entries of the BLS files `fs`, in order.
pub open spec fn bls_files_entries(fs: Seq<Seq<u8>>) -> Seq<BootEntryView>
    decreases fs.len(),
{
    if fs.len() == 0 {
        Seq::empty()
    } else {
        match bls_file_entry(fs.last()) {
            Some(e) => bls_files_entries(fs.drop_last()).push(e),
            None => bls_files_entries(fs.drop_last()),
        }
    }
}

/// Whether a file name is that of a BLS entry file (`.conf`).
pub open spec fn is_conf_name(name: Seq<char>) -> bool {
    name.len() >= 5 && name.subrange(name.len() - 5, name.len() as int) == seq![
        '.',
        'c',
        'o',
        'n',
        'f',
    ]
}

impl BlsBootFlow {
    /// Whether a directory entry is a BLS entry file.
    pub fn is_entry_file(name: &str) -> (r: bool)
        ensures
            r == is_conf_name(name@),
    {
        let v = chars_of(name);
        let n = v.len();
        if n < 5 {
            return false;
        }
        let ext: [char; 5] = ['.', 'c', 'o', 'n', 'f'];
        let r = crate::text::chars_range_eq(v.as_slice(), n - 5, n, &ext);
        proof {
            assert(ext@ =~= seq!['.', 'c', 'o', 'n', 'f']);
        }
        r
    }

    /// The path of the entry file `name` in the directory `dir`.
    pub fn entry_path(dir: &str, name: &str) -> (r: String)
        ensures
            r@ == with_leading_slash(dir@) + seq!['/'] + name@,
    {
        let d = ensure_leading_slash(dir);
        let mut out = chars_of(d.as_str());
        out.push('/');
        push_str(&mut out, name);
        string_from_chars(out.as_slice())
    }

    /// The bootable entry of a BLS entry file, when it is UTF-8.
    pub fn entry_from_file(content: &[u8]) -> (r: Option<BootEntry>)
        ensures
            match bls_file_entry(content@) {
                Some(v) => r matches Some(e) && entry_view(e) == v,
                None => r is None,
            },
    {
        let text = match decode_text(content) {
            Some(t) => t,
            None => {
                return None;
            },
        };
        let bls = crate::bls::parse_bls_entry(text);
        let title = bls.title().to_owned();
        Some(
            BootEntry {
                title,
                linux: bls.linux,
                initrd: bls.initrd,
                cmdline: bls.options,
                machine_id: None,
            },
        )
    }

    /// The bootable entries of the BLS entry files found on a filesystem,
    /// given their contents in the order they were found; an error where
    /// there are none.
    pub fn discover_in(&self, configs: &[Vec<u8>]) -> (r: Result<Vec<BootEntry>, SpeedbootError>)
        ensures
            bls_files_entries(files_view(configs@)).len() == 0 ==> r
                == Err::<Vec<BootEntry>, SpeedbootError>(SpeedbootError::NoBootEntriesFound),
            bls_files_entries(files_view(configs@)).len() > 0 ==> (r matches Ok(v) && entries_view(
                v@,
            ) == bls_files_entries(files_view(configs@))),
    {
        let mut all: Vec<BootEntry> = Vec::new();
        let mut i: usize = 0;
        while i < configs.len()
            invariant
                i <= configs@.len(),
                entries_view(all@) == bls_files_entries(files_view(configs@).take(i as int)),
            decreases configs@.len() - i,
        {
            proof {
                assert(files_view(configs@).take(i + 1).drop_last() =~= files_view(configs@).take(
                    i as int,
                ));
            }
            match Self::entry_from_file(configs[i].as_slice()) {
                Some(e) => {
                    all.push(e);
                },
                None => {},
            }
            proof {
                assert(entries_view(all@) =~= bls_files_entries(files_view(configs@).take(i + 1)));
            }
            i += 1;
        }
        proof {
            assert(files_view(configs@).take(configs@.len() as int) =~= files_view(configs@));
        }
        if all.len() == 0 {
            return Err(SpeedbootError::NoBootEntriesFound);
        }
        Ok(all)
    }
}

/// A `[[profile]]` of `boot.toml`: the unlabelled one is the default.
#[derive(Debug, Clone, PartialEq, Eq)]
pub struct Profile {
    pub label: Option<String>,
    pub cmdline: Option<String>,
}

/// What an OS declares in its `boot.toml`.
#[derive(Debug, Clone, PartialEq, Eq)]
pub struct BootToml {
    pub flow: String,
    pub pretty_name: String,
    pub machine_id: Option<String>,
    pub profiles: Vec<Profile>,
}

/// An entry of a directory listing.
#[derive(Debug, Clone, PartialEq, Eq)]
pub struct DirEntry {
    pub name: String,
    pub is_dir: bool,
}

/// The index of the first unlabelled profile from `i` on.
pub open spec fn first_default_from(ps: Seq<Profile>, i: int) -> Option<int>
    decreases ps.len() - i,
{
    if i < 0 || i >= ps.len() {
        None
    } else if ps[i].label is None {
        Some(i)
    } else {
        first_default_from(ps, i + 1)
    }
}

/// The default profile: the first unlabelled one.
pub open spec fn default_profile(ps: Seq<Profile>) -> Option<Profile> {
    match first_default_from(ps, 0) {
        Some(i) => Some(ps[i]),
        None => None,
    }
}

/// The labelled profiles, in order.
pub open spec fn labelled(ps: Seq<Profile>) -> Seq<Profile>
    decreases ps.len(),
{
    if ps.len() == 0 {
        Seq::empty()
    } else if ps.last().label is Some {
        labelled(ps.drop_last()).push(ps.last())
    } else {
        labelled(ps.drop_last())
    }
}

/// A kernel found in the boot directory: its version key, the version
/// text after `vmlinuz-`, and whether a matching initrd is there.
pub struct KernelView {
    pub key: (u32, u32, u32, u32, Seq<char>),
    pub raw: Seq<char>,
    pub has_initrd: bool,
}

/// The kernel that the `i`-th entry of a listing is: a file named
/// `vmlinuz-` and a parseable version.
pub open spec fn kernel_at(es: Seq<DirEntry>, i: int) -> Option<KernelView> {
    let name = es[i].name@;
    let p = "vmlinuz-"@;
    if es[i].is_dir || name.len() < p.len() || name.subrange(0, p.len() as int) != p {
        None
    } else {
        let suffix = name.subrange(p.len() as int, name.len() as int);
        match crate::kversion::kversion_spec(suffix) {
            None => None,
            Some((a, b, c, d, f)) => Some(
                KernelView {
                    key: (a, b, c, d, f),
                    raw: suffix,
                    has_initrd: exists|j: int|
                        0 <= j < es.len() && #[trigger] es[j].name@ == "initrd.img-"@ + suffix,
                },
            ),
        }
    }
}

/// The kernels among the first `n` entries of a listing, in listing order.
pub open spec fn kernels_upto(es: Seq<DirEntry>, n: int) -> Seq<KernelView>
    decreases n,
{
    if n <= 0 {
        Seq::empty()
    } else {
        match kernel_at(es, n - 1) {
            Some(k) => kernels_upto(es, n - 1).push(k),
            None => kernels_upto(es, n - 1),
        }
    }
}

/// The first index from `i` on of a kernel older than `x`.
pub open spec fn first_below(t: Seq<KernelView>, x: KernelView, i: int) -> int
    decreases t.len() - i,
{
    if i < 0 || i >= t.len() {
        t.len() as int
    } else if crate::kversion::key_rank(t[i].key, x.key) < 0 {
        i
    } else {
        first_below(t, x, i + 1)
    }
}

/// The kernels `ks` sorted newest first, kernels of equal version in
/// their original order.
pub open spec fn sort_desc(ks: Seq<KernelView>) -> Seq<KernelView>
    decreases ks.len(),
{
    if ks.len() == 0 {
        Seq::empty()
    } else {
        let t = sort_desc(ks.drop_last());
        t.insert(first_below(t, ks.last(), 0), ks.last())
    }
}

/// `dir` joined with `file`.
pub open spec fn dir_file(dir: Seq<char>, file: Seq<char>) -> Seq<char> {
    if dir.len() > 0 && dir.last() == '/' {
        dir + file
    } else {
        dir + seq!['/'] + file
    }
}

/// The entry booting kernel `k` from `dir`.
pub open spec fn make_entry_view(
    title: Seq<char>,
    dir: Seq<char>,
    k: KernelView,
    cmdline: Option<Seq<char>>,
    machine_id: Option<Seq<char>>,
) -> BootEntryView {
    BootEntryView {
        title,
        linux: Some(dir_file(dir, "vmlinuz-"@ + k.raw)),
        initrd: if k.has_initrd {
            Some(dir_file(dir, "initrd.img-"@ + k.raw))
        } else {
            None
        },
        cmdline,
        machine_id,
    }
}

/// The label of a profile, or nothing.
pub open spec fn label_text(p: Profile) -> Seq<char> {
    match p.label {
        Some(l) => l@,
        None => Seq::empty(),
    }
}

/// The entries of one kernel: the default profile, then each labelled one.
pub open spec fn kernel_entries(
    pretty: Seq<char>,
    dir: Seq<char>,
    k: KernelView,
    def: Option<Profile>,
    lab: Seq<Profile>,
    machine_id: Option<Seq<char>>,
) -> Seq<BootEntryView> {
    let base = pretty + " - kernel "@ + k.raw;
    (match def {
        Some(d) => seq![make_entry_view(base, dir, k, opt_text(d.cmdline), machine_id)],
        None => Seq::empty(),
    }) + Seq::new(
        lab.len(),
        |j: int|
            make_entry_view(
                base + ", "@ + label_text(lab[j]),
                dir,
                k,
                opt_text(lab[j].cmdline),
                machine_id,
            ),
    )
}

/// The entries of the kernels `ks`, in order.
pub open spec fn all_kernel_entries(
    pretty: Seq<char>,
    dir: Seq<char>,
    ks: Seq<KernelView>,
    def: Option<Profile>,
    lab: Seq<Profile>,
    machine_id: Option<Seq<char>>,
) -> Seq<BootEntryView>
    decreases ks.len(),
{
    if ks.len() == 0 {
        Seq::empty()
    } else {
        all_kernel_entries(pretty, dir, ks.drop_last(), def, lab, machine_id) + kernel_entries(
            pretty,
            dir,
            ks.last(),
            def,
            lab,
            machine_id,
        )
    }
}

/// The menu of a `classic-1` OS: with a default profile, a head entry
/// titled by the OS name for the newest kernel; then, newest kernel first,
/// an entry per kernel and profile. An error for another flow, for no
/// kernel, or for no entry.
pub open spec fn speedboot_spec(t: BootToml, dir: Seq<char>, es: Seq<DirEntry>) -> Result<
    Seq<BootEntryView>,
    SpeedbootError,
> {
    if t.flow@ != "classic-1"@ {
        Err(SpeedbootError::NoBootEntriesFound)
    } else {
        let ks = sort_desc(kernels_upto(es, es.len() as int));
        let def = default_profile(t.profiles@);
        let mid = opt_text(t.machine_id);
        if ks.len() == 0 {
            Err(SpeedbootError::NoBootEntriesFound)
        } else {
            let out = (match def {
                Some(d) => seq![make_entry_view(t.pretty_name@, dir, ks[0], opt_text(d.cmdline), mid)],
                None => Seq::empty(),
            }) + all_kernel_entries(t.pretty_name@, dir, ks, def, labelled(t.profiles@), mid);
            if out.len() == 0 {
                Err(SpeedbootError::NoBootEntriesFound)
            } else {
                Ok(out)
            }
        }
    }
}

/// The view of a found kernel.
pub open spec fn kernel_view(k: (crate::kversion::KernelVersion, bool)) -> KernelView {
    KernelView { key: crate::kversion::kv_key(k.0), raw: k.0.raw@, has_initrd: k.1 }
}

/// The views of found kernels.
pub open spec fn kernels_view(ks: Seq<(crate::kversion::KernelVersion, bool)>) -> Seq<KernelView> {
    ks.map_values(|k: (crate::kversion::KernelVersion, bool)| kernel_view(k))
}

/// Appends `dir` joined with `prefix` and `raw` to a fresh string.
fn dir_file_string(dir: &str, prefix: &str, raw: &str) -> (r: String)
    ensures
        r@ == dir_file(dir@, prefix@ + raw@),
{
    let mut out = chars_of(dir);
    let n = out.len();
    if !(n > 0 && out[n - 1] == '/') {
        out.push('/');
    }
    push_str(&mut out, prefix);
    push_str(&mut out, raw);
    proof {
        if n > 0 && dir@.last() == '/' {
            assert(out@ =~= dir@ + (prefix@ + raw@));
        } else {
            assert(out@ =~= dir@ + seq!['/'] + (prefix@ + raw@));
        }
    }
    string_from_chars(out.as_slice())
}

fn make_entry(
    title: String,
    boot_dir: &str,
    ver: &crate::kversion::KernelVersion,
    has_initrd: bool,
    cmdline: &Option<String>,
    machine_id: &Option<String>,
) -> (e: BootEntry)
    ensures
        entry_view(e) == make_entry_view(
            title@,
            boot_dir@,
            kernel_view((*ver, has_initrd)),
            opt_text(*cmdline),
            opt_text(*machine_id),
        ),
{
    let linux = dir_file_string(boot_dir, "vmlinuz-", ver.raw.as_str());
    let initrd = if has_initrd {
        Some(dir_file_string(boot_dir, "initrd.img-", ver.raw.as_str()))
    } else {
        None
    };
    BootEntry {
        title,
        linux: Some(linux),
        initrd,
        cmdline: clone_opt(cmdline),
        machine_id: clone_opt(machine_id),
    }
}

/// Whether some entry of the listing is named `name`.
fn listing_has(listing: &[DirEntry], name: &[char]) -> (r: bool)
    ensures
        r == exists|j: int| 0 <= j < listing@.len() && #[trigger] listing@[j].name@ == name@,
{
    let mut j: usize = 0;
    while j < listing.len()
        invariant
            j <= listing@.len(),
            forall|k: int| 0 <= k < j ==> #[trigger] listing@[k].name@ != name@,
        decreases listing@.len() - j,
    {
        let v = chars_of(listing[j].name.as_str());
        if crate::text::chars_eq(v.as_slice(), name) {
            return true;
        }
        j += 1;
    }
    false
}

/// The kernel that the `i`-th entry of the listing is.
fn kernel_from(listing: &[DirEntry], i: usize) -> (r: Option<(crate::kversion::KernelVersion, bool)>)
    requires
        i < listing@.len(),
    ensures
        match kernel_at(listing@, i as int) {
            Some(k) => r matches Some(x) && kernel_view(x) == k,
            None => r is None,
        },
{
    let e = &listing[i];
    if e.is_dir {
        return None;
    }
    let v = chars_of(e.name.as_str());
    let p = chars_of("vmlinuz-");
    if v.len() < p.len() || !crate::text::chars_range_eq(v.as_slice(), 0, p.len(), p.as_slice()) {
        return None;
    }
    let suffix = crate::text::string_of_range(v.as_slice(), p.len(), v.len());
    let ver = match crate::kversion::KernelVersion::parse(suffix.as_str()) {
        Some(k) => k,
        None => {
            return None;
        },
    };
    let mut initrd_name = chars_of("initrd.img-");
    push_str(&mut initrd_name, suffix.as_str());
    let has_initrd = listing_has(listing, initrd_name.as_slice());
    Some((ver, has_initrd))
}

proof fn lemma_sort_desc_len(ks: Seq<KernelView>)
    ensures
        sort_desc(ks).len() == ks.len(),
    decreases ks.len(),
{
    if ks.len() > 0 {
        lemma_sort_desc_len(ks.drop_last());
        lemma_first_below_range(sort_desc(ks.drop_last()), ks.last(), 0);
    }
}

proof fn lemma_first_below_range(t: Seq<KernelView>, x: KernelView, i: int)
    requires
        0 <= i <= t.len(),
    ensures
        i <= first_below(t, x, i) <= t.len(),
    decreases t.len() - i,
{
    if i < t.len() && crate::kversion::key_rank(t[i].key, x.key) >= 0 {
        lemma_first_below_range(t, x, i + 1);
    }
}

impl SpeedbootBootFlow {
    /// The boot entries of an OS from its `boot.toml` and the listing of
    /// the directory holding it.
    pub fn entries_for(&self, toml: &BootToml, boot_dir: &str, listing: &[DirEntry]) -> (r: Result<
        Vec<BootEntry>,
        SpeedbootError,
    >)
        ensures
            match speedboot_spec(*toml, boot_dir@, listing@) {
                Ok(v) => r matches Ok(es) && entries_view(es@) == v,
                Err(e) => r == Err::<Vec<BootEntry>, SpeedbootError>(e),
            },
    {
        let flow = chars_of(toml.flow.as_str());
        let classic = chars_of("classic-1");
        if !crate::text::chars_eq(flow.as_slice(), classic.as_slice()) {
            return Err(SpeedbootError::NoBootEntriesFound);
        }
        // Split the profiles: the first unlabelled one is the default.
        let mut default: Option<usize> = None;
        let mut lab: Vec<usize> = Vec::new();
        let ps = &toml.profiles;
        let mut i: usize = 0;
        while i < ps.len()
            invariant
                i <= ps@.len(),
                match default {
                    Some(d) => d < i && first_default_from(ps@, 0) == Some(d as int),
                    None => first_default_from(ps@, 0) == first_default_from(ps@, i as int),
                },
                lab@.map_values(|k: usize| ps@[k as int]) == labelled(ps@.take(i as int)),
                forall|k: int| 0 <= k < lab@.len() ==> lab@[k] < i,
            decreases ps@.len() - i,
        {
            proof {
                assert(ps@.take(i + 1).drop_last() =~= ps@.take(i as int));
            }
            if ps[i].label.is_none() {
                if default.is_none() {
                    default = Some(i);
                }
            } else {
                lab.push(i);
            }
            proof {
                assert(lab@.map_values(|k: usize| ps@[k as int]) =~= labelled(ps@.take(i + 1)));
            }
            i += 1;
        }
        proof {
            assert(ps@.take(ps@.len() as int) =~= ps@);
        }
        // The kernels, newest first.
        let mut kernels: Vec<(crate::kversion::KernelVersion, bool)> = Vec::new();
        let mut j: usize = 0;
        while j < listing.len()
            invariant
                j <= listing@.len(),
                kernels_view(kernels@) == sort_desc(kernels_upto(listing@, j as int)),
            decreases listing@.len() - j,
        {
            let ghost ku = kernels_upto(listing@, j as int);
            match kernel_from(listing, j) {
                Some(k) => {
                    let ghost t = kernels_view(kernels@);
                    proof {
                        assert(kernels_upto(listing@, j + 1) == ku.push(kernel_view(k)));
                        assert(ku.push(kernel_view(k)).drop_last() =~= ku);
                    }
                    let mut pos: usize = 0;
                    proof {
                        lemma_sort_desc_len(kernels_upto(listing@, j as int));
                    }
                    while pos < kernels.len() && kernels[pos].0.rank_against(&k.0) >= 0
                        invariant
                            pos <= kernels@.len(),
                            t == kernels_view(kernels@),
                            first_below(t, kernel_view(k), 0) == first_below(
                                t,
                                kernel_view(k),
                                pos as int,
                            ),
                        decreases kernels@.len() - pos,
                    {
                        pos += 1;
                    }
                    kernels.insert(pos, k);
                    proof {
                        assert(kernels_view(kernels@) =~= t.insert(pos as int, kernel_view(k)));
                    }
                },
                None => {},
            }
            j += 1;
        }
        if kernels.len() == 0 {
            return Err(SpeedbootError::NoBootEntriesFound);
        }
        let ghost ks = kernels_view(kernels@);
        let mut out: Vec<BootEntry> = Vec::new();
        match default {
            Some(d) => {
                let (newest, has_initrd) = &kernels[0];
                out.push(
                    make_entry(
                        toml.pretty_name.clone(),
                        boot_dir,
                        newest,
                        *has_initrd,
                        &ps[d].cmdline,
                        &toml.machine_id,
                    ),
                );
            },
            None => {},
        }
        let ghost head = entries_view(out@);
        let ghost def = default_profile(ps@);
        let ghost labs = labelled(ps@);
        let ghost mid_text = opt_text(toml.machine_id);
        let mut k: usize = 0;
        proof {
            assert(ks.take(0) =~= Seq::<KernelView>::empty());
            assert(entries_view(out@) =~= head + all_kernel_entries(
                toml.pretty_name@,
                boot_dir@,
                ks.take(0),
                def,
                labs,
                mid_text,
            ));
        }
        while k < kernels.len()
            invariant
                k <= kernels@.len(),
                ks == kernels_view(kernels@),
                def == match default {
                    Some(d) => Some(ps@[d as int]),
                    None => None::<Profile>,
                },
                match default {
                    Some(d) => d < ps@.len(),
                    None => true,
                },
                *ps == toml.profiles,
                lab@.map_values(|q: usize| ps@[q as int]) == labs,
                forall|q: int| 0 <= q < lab@.len() ==> lab@[q] < ps@.len(),
                mid_text == opt_text(toml.machine_id),
                entries_view(out@) == head + all_kernel_entries(
                    toml.pretty_name@,
                    boot_dir@,
                    ks.take(k as int),
                    def,
                    labs,
                    mid_text,
                ),
            decreases kernels@.len() - k,
        {
            let ghost before = entries_view(out@);
            let (ver, has_initrd) = &kernels[k];
            let ghost kv = ks[k as int];
            let mut base = chars_of(toml.pretty_name.as_str());
            push_str(&mut base, " - kernel ");
            push_str(&mut base, ver.raw.as_str());
            match default {
                Some(d) => {
                    out.push(
                        make_entry(
                            string_from_chars(base.as_slice()),
                            boot_dir,
                            ver,
                            *has_initrd,
                            &ps[d].cmdline,
                            &toml.machine_id,
                        ),
                    );
                },
                None => {},
            }
            let ghost first_part = entries_view(out@);
            let ghost own = kernel_entries(toml.pretty_name@, boot_dir@, kv, def, labs, mid_text);
            let ghost def_part: Seq<BootEntryView> = match def {
                Some(dd) => seq![make_entry_view(base@, boot_dir@, kv, opt_text(dd.cmdline), mid_text)],
                None => Seq::empty(),
            };
            proof {
                assert(first_part =~= before + def_part);
            }
            let mut m: usize = 0;
            while m < lab.len()
                invariant
                    m <= lab@.len(),
                    lab@.map_values(|q: usize| ps@[q as int]) == labs,
                    forall|q: int| 0 <= q < lab@.len() ==> lab@[q] < ps@.len(),
                    kv == kernel_view((*ver, *has_initrd)),
                    base@ == toml.pretty_name@ + " - kernel "@ + kv.raw,
                    mid_text == opt_text(toml.machine_id),
                    entries_view(out@) == first_part + Seq::new(
                        m as nat,
                        |j: int|
                            make_entry_view(
                                base@ + ", "@ + label_text(labs[j]),
                                boot_dir@,
                                kv,
                                opt_text(labs[j].cmdline),
                                mid_text,
                            ),
                    ),
                decreases lab@.len() - m,
            {
                let ghost pre = entries_view(out@);
                let p = &ps[lab[m]];
                proof {
                    assert(labs[m as int] == ps@[lab@[m as int] as int]);
                }
                let mut t: Vec<char> = Vec::new();
                crate::text::push_chars(&mut t, base.as_slice());
                push_str(&mut t, ", ");
                match &p.label {
                    Some(l) => {
                        push_str(&mut t, l.as_str());
                    },
                    None => {
                        assert(t@ =~= t@ + Seq::<char>::empty());
                    },
                }
                proof {
                    assert(t@ == base@ + ", "@ + label_text(labs[m as int]));
                }
                let e = make_entry(
                    string_from_chars(t.as_slice()),
                    boot_dir,
                    ver,
                    *has_initrd,
                    &p.cmdline,
                    &toml.machine_id,
                );
                proof {
                    assert(entry_view(e) == make_entry_view(
                        base@ + ", "@ + label_text(labs[m as int]),
                        boot_dir@,
                        kv,
                        opt_text(labs[m as int].cmdline),
                        mid_text,
                    ));
                }
                out.push(e);
                proof {
                    assert(entries_view(out@) =~= pre.push(entry_view(e)));
                }
                m += 1;
                proof {
                    assert(entries_view(out@) =~= first_part + Seq::new(
                        m as nat,
                        |j: int|
                            make_entry_view(
                                base@ + ", "@ + label_text(labs[j]),
                                boot_dir@,
                                kv,
                                opt_text(labs[j].cmdline),
                                mid_text,
                            ),
                    ));
                }
            }
            proof {
                assert(lab@.len() == labs.len());
                assert(entries_view(out@) =~= before + own);
                assert(ks.take(k + 1).drop_last() =~= ks.take(k as int));
                assert(ks.take(k + 1).last() == kv);
            }
            k += 1;
        }
        proof {
            assert(ks.take(ks.len() as int) =~= ks);
        }
        if out.len() == 0 {
            return Err(SpeedbootError::NoBootEntriesFound);
        }
        Ok(out)
    }
}

/// `p` without its leading slashes.
pub open spec fn strip_slashes(p: Seq<char>) -> Seq<char>
    decreases p.len(),
{
    if p.len() > 0 && p[0] == '/' {
        strip_slashes(p.drop_first())
    } else {
        p
    }
}

/// The paths tried, in order, for a boot file named `p`: the path itself
/// made absolute, then the same path under `/boot` unless it already starts
/// with `boot/` or `/boot/`.
pub open spec fn boot_file_paths_spec(p: Seq<char>) -> Seq<Seq<char>> {
    let b = "boot/"@;
    let sb = "/boot/"@;
    if (p.len() >= b.len() && p.subrange(0, b.len() as int) == b) || (p.len() >= sb.len()
        && p.subrange(0, sb.len() as int) == sb) {
        seq![with_leading_slash(p)]
    } else {
        seq![with_leading_slash(p), sb + strip_slashes(p)]
    }
}

/// The paths to try, in order, to open a boot file named `path`.
pub fn boot_file_paths(path: &str) -> (r: Vec<String>)
    ensures
        r@.map_values(|x: String| x@) == boot_file_paths_spec(path@),
{
    let mut r: Vec<String> = Vec::new();
    r.push(ensure_leading_slash(path));
    let v = chars_of(path);
    let b = chars_of("boot/");
    let sb = chars_of("/boot/");
    let under_boot = (v.len() >= b.len() && crate::text::chars_range_eq(
        v.as_slice(),
        0,
        b.len(),
        b.as_slice(),
    )) || (v.len() >= sb.len() && crate::text::chars_range_eq(
        v.as_slice(),
        0,
        sb.len(),
        sb.as_slice(),
    ));
    if !under_boot {
        let mut i: usize = 0;
        assert(v@.subrange(0, v@.len() as int) =~= v@);
        while i < v.len() && v[i] == '/'
            invariant
                i <= v@.len(),
                strip_slashes(v@) == strip_slashes(v@.subrange(i as int, v@.len() as int)),
            decreases v@.len() - i,
        {
            assert(v@.subrange(i as int, v@.len() as int).drop_first() =~= v@.subrange(
                i + 1,
                v@.len() as int,
            ));
            i += 1;
        }
        let mut out = chars_of("/boot/");
        let rest = crate::text::string_of_range(v.as_slice(), i, v.len());
        push_str(&mut out, rest.as_str());
        r.push(string_from_chars(out.as_slice()));
    }
    proof {
        assert(r@.map_values(|x: String| x@) =~= boot_file_paths_spec(path@));
    }
    r
}

/// The entries of `es` that belong to the OS `primary`, in order.
pub open spec fn primary_entries(es: Seq<BootEntryView>, primary: Seq<char>) -> Seq<BootEntryView>
    decreases es.len(),
{
    if es.len() == 0 {
        Seq::empty()
    } else if es.last().machine_id == Some(primary) {
        primary_entries(es.drop_last(), primary).push(es.last())
    } else {
        primary_entries(es.drop_last(), primary)
    }
}

/// The entries of `es` that do not belong to the OS `primary`, in order.
pub open spec fn other_entries(es: Seq<BootEntryView>, primary: Seq<char>) -> Seq<BootEntryView>
    decreases es.len(),
{
    if es.len() == 0 {
        Seq::empty()
    } else if es.last().machine_id != Some(primary) {
        other_entries(es.drop_last(), primary).push(es.last())
    } else {
        other_entries(es.drop_last(), primary)
    }
}

/// The menu from all the entries that the flows found: an error where
/// there are none; with a primary OS, its entries come first, each group
/// in its original order.
pub open spec fn finish_spec(es: Seq<BootEntryView>, primary: Option<Seq<char>>) -> Result<
    Seq<BootEntryView>,
    SpeedbootError,
> {
    if es.len() == 0 {
        Err(SpeedbootError::NoBootEntriesFound)
    } else {
        match primary {
            Some(p) => Ok(primary_entries(es, p) + other_entries(es, p)),
            None => Ok(es),
        }
    }
}

/// Whether an entry belongs to the OS `primary`.
fn belongs_to(e: &BootEntry, primary: &[char]) -> (r: bool)
    ensures
        r == (entry_view(*e).machine_id == Some(primary@)),
{
    match &e.machine_id {
        Some(m) => {
            let v = chars_of(m.as_str());
            crate::text::chars_eq(v.as_slice(), primary)
        },
        None => false,
    }
}

/// Orders the entries that all flows found into the menu, floating the
/// entries of the primary OS (as `speedboot.toml` names it) to the top.
pub fn finish_discovery(entries: Vec<BootEntry>, primary: Option<&str>) -> (r: Result<
    Vec<BootEntry>,
    SpeedbootError,
>)
    ensures
        match finish_spec(
            entries_view(entries@),
            match primary {
                Some(p) => Some(p@),
                None => None,
            },
        ) {
            Ok(v) => r matches Ok(es) && entries_view(es@) == v,
            Err(e) => r == Err::<Vec<BootEntry>, SpeedbootError>(e),
        },
{
    if entries.len() == 0 {
        return Err(SpeedbootError::NoBootEntriesFound);
    }
    let p = match primary {
        Some(p) => chars_of(p),
        None => {
            return Ok(entries);
        },
    };
    let ghost all = entries_view(entries@);
    let mut rest = entries;
    let mut first: Vec<BootEntry> = Vec::new();
    let mut second: Vec<BootEntry> = Vec::new();
    let ghost mut done: Seq<BootEntryView> = Seq::empty();
    while rest.len() > 0
        invariant
            all == done + entries_view(rest@),
            entries_view(first@) == primary_entries(done, p@),
            entries_view(second@) == other_entries(done, p@),
        decreases rest@.len(),
    {
        let ghost before_rest = rest@;
        let ghost prev = done;
        let e = rest.remove(0);
        proof {
            assert(entries_view(before_rest) =~= seq![entry_view(e)] + entries_view(rest@));
            done = prev.push(entry_view(e));
            assert(done.drop_last() =~= prev);
        }
        if belongs_to(&e, p.as_slice()) {
            first.push(e);
        } else {
            second.push(e);
        }
        proof {
            assert(entries_view(first@) =~= primary_entries(done, p@));
            assert(entries_view(second@) =~= other_entries(done, p@));
        }
    }
    proof {
        assert(done =~= all);
    }
    let ghost a = first@;
    let ghost b = second@;
    first.append(&mut second);
    proof {
        assert(entries_view(first@) =~= entries_view(a) + entries_view(b));
    }
    Ok(first)
}

/// What the menu does with a key pressed at the selection prompt.
#[derive(Debug, Clone, Copy, PartialEq, Eq)]
pub enum SelectionKey {
    /// Enter: the selection is complete.
    Done,
    /// Backspace took a digit away.
    Erase,
    /// A digit was added; echo it.
    Echo(char),
    /// The key is ignored.
    Ignore,
}

/// Handles one key at the selection prompt, editing the typed digits.
pub fn selection_step(typed: &mut Vec<char>, c: char) -> (r: SelectionKey)
    ensures
        (c == '\r' || c == '\n') ==> r == SelectionKey::Done && final(typed)@ == old(typed)@,
        c == '\x08' ==> if old(typed)@.len() > 0 {
            r == SelectionKey::Erase && final(typed)@ == old(typed)@.drop_last()
        } else {
            r == SelectionKey::Ignore && final(typed)@ == old(typed)@
        },
        ('0' <= c <= '9') ==> r == SelectionKey::Echo(c) && final(typed)@ == old(typed)@.push(c),
        !(c == '\r' || c == '\n' || c == '\x08' || ('0' <= c <= '9')) ==> r == SelectionKey::Ignore
            && final(typed)@ == old(typed)@,
{
    if c == '\r' || c == '\n' {
        SelectionKey::Done
    } else if c == '\x08' {
        if typed.len() > 0 {
            typed.pop();
            SelectionKey::Erase
        } else {
            SelectionKey::Ignore
        }
    } else if '0' <= c && c <= '9' {
        typed.push(c);
        SelectionKey::Echo(c)
    } else {
        SelectionKey::Ignore
    }
}

/// What `usize::from_str` gives for `s`: an optional `+`, then one or more
/// ASCII digits whose value fits in a `usize`.
pub open spec fn parse_usize_spec(s: Seq<char>) -> Option<int> {
    let t = if s.len() > 0 && s[0] == '+' {
        s.drop_first()
    } else {
        s
    };
    if t.len() == 0 {
        None
    } else {
        match crate::kversion::digits_value(t) {
            Some(v) => if v <= usize::MAX {
                Some(v)
            } else {
                None
            },
            None => None,
        }
    }
}

proof fn lemma_digits_value_grows(s: Seq<char>, c: char)
    requires
        crate::kversion::digits_value(s) is Some,
    ensures
        crate::kversion::digits_value(s.push(c)) matches Some(w) ==> w >= crate::kversion::digits_value(s)->0 * 10,
{
    assert(s.push(c).drop_last() =~= s);
}

proof fn lemma_digits_value_bound(s: Seq<char>, c: char)
    requires
        crate::kversion::digits_value(s) matches Some(v) && v > usize::MAX,
    ensures
        crate::kversion::digits_value(s.push(c)) matches Some(w) ==> w > usize::MAX,
{
    assert(s.push(c).drop_last() =~= s);
}

/// The entry number typed at the selection prompt: an error where it is no
/// number or not below the number of entries `max`.
pub fn parse_selection(typed: &[char], max: usize) -> (r: Result<usize, SpeedbootError>)
    ensures
        match parse_usize_spec(typed@) {
            Some(v) => if v < max {
                r == Ok::<usize, SpeedbootError>(v as usize)
            } else {
                r == Err::<usize, SpeedbootError>(SpeedbootError::InvalidSelection)
            },
            None => r == Err::<usize, SpeedbootError>(SpeedbootError::InvalidSelection),
        },
{
    let start: usize = if typed.len() > 0 && typed[0] == '+' {
        1
    } else {
        0
    };
    let ghost t = if typed@.len() > 0 && typed@[0] == '+' {
        typed@.drop_first()
    } else {
        typed@
    };
    proof {
        assert(t =~= typed@.subrange(start as int, typed@.len() as int));
    }
    if start == typed.len() {
        return Err(SpeedbootError::InvalidSelection);
    }
    let mut value: usize = 0;
    let mut i: usize = start;
    while i < typed.len()
        invariant
            start <= i <= typed@.len(),
            start < typed@.len(),
            t == typed@.subrange(start as int, typed@.len() as int),
            t == (if typed@.len() > 0 && typed@[0] == '+' {
                typed@.drop_first()
            } else {
                typed@
            }),
            crate::kversion::digits_value(typed@.subrange(start as int, i as int)) == Some(
                value as int,
            ),
        decreases typed@.len() - i,
    {
        let ghost pre = typed@.subrange(start as int, i as int);
        assert(typed@.subrange(start as int, i + 1) =~= pre.push(typed@[i as int]));
        assert(pre.push(typed@[i as int]).drop_last() =~= pre);
        let c = typed[i];
        if !('0' <= c && c <= '9') {
            proof {
                assert(typed@.subrange(start as int, typed@.len() as int).subrange(0, i + 1 - start)
                    =~= typed@.subrange(start as int, i + 1));
                assert(pre.push(c).drop_last() =~= pre);
                lemma_digits_none_extends(typed@.subrange(start as int, i + 1), typed@.subrange(
                    start as int,
                    typed@.len() as int,
                ));
            }
            return Err(SpeedbootError::InvalidSelection);
        }
        let d = (c as u32 - '0' as u32) as usize;
        assert(crate::kversion::digit_value(c) == Some(d as int));
        let next = match value.checked_mul(10) {
            Some(x) => x.checked_add(d),
            None => None,
        };
        match next {
            Some(n) => {
                value = n;
            },
            None => {
                proof {
                    assert(typed@.subrange(start as int, typed@.len() as int).subrange(
                        0,
                        i + 1 - start,
                    ) =~= typed@.subrange(start as int, i + 1));
                    assert(pre.push(c).drop_last() =~= pre);
                    lemma_digits_big_extends(typed@.subrange(start as int, i + 1), typed@.subrange(
                        start as int,
                        typed@.len() as int,
                    ));
                }
                return Err(SpeedbootError::InvalidSelection);
            },
        }
        i += 1;
    }
    if value >= max {
        return Err(SpeedbootError::InvalidSelection);
    }
    Ok(value)
}

/// Digits that fail to parse keep failing when more characters follow.
proof fn lemma_digits_none_extends(p: Seq<char>, s: Seq<char>)
    requires
        p.len() <= s.len(),
        p == s.subrange(0, p.len() as int),
        crate::kversion::digits_value(p) is None,
    ensures
        crate::kversion::digits_value(s) is None,
    decreases s.len(),
{
    if s.len() > p.len() {
        assert(s.drop_last().subrange(0, p.len() as int) =~= p);
        lemma_digits_none_extends(p, s.drop_last());
    } else {
        assert(s =~= p);
    }
}

/// A value past `usize::MAX` stays past it when more digits follow.
proof fn lemma_digits_big_extends(p: Seq<char>, s: Seq<char>)
    requires
        p.len() <= s.len(),
        p == s.subrange(0, p.len() as int),
        crate::kversion::digits_value(p) matches Some(v) ==> v > usize::MAX,
    ensures
        crate::kversion::digits_value(s) matches Some(v) ==> v > usize::MAX,
    decreases s.len(),
{
    if s.len() > p.len() {
        assert(s.drop_last().subrange(0, p.len() as int) =~= p);
        lemma_digits_big_extends(p, s.drop_last());
        assert(s.drop_last().push(s.last()) =~= s);
        if let Some(v) = crate::kversion::digits_value(s.drop_last()) {
            lemma_digits_value_bound(s.drop_last(), s.last());
        }
    } else {
        assert(s =~= p);
    }
}

/// The menu line of entry `idx`.
pub fn menu_line(idx: usize, title: &str) -> (r: String)
    ensures
        r@ == "  ["@ + crate::text::dec(idx as nat) + "] "@ + title@,
{
    let mut out = chars_of("  [");
    crate::text::push_dec(&mut out, idx as u64);
    push_str(&mut out, "] ");
    push_str(&mut out, title);
    string_from_chars(out.as_slice())
}

} // verus!
