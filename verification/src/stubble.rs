//! Stubble images: a PE image carrying a Linux kernel together with the
//! initrd, command line, hardware ids and device trees to boot it with.
use vstd::prelude::*;
use vstd::string::StringSliceAdditionalSpecFns;
use vstd::utf8::valid_utf8;
use crate::bytes::{be32, bytes_eq, le16, le32, read_be32};
use crate::cbfs::first_nul;
use crate::pewrap::dtb_check;
use crate::chid::utf8_str;
use crate::pe_rebuilder::{
    headers, image_spec, lemma_image_layout, lemma_section_table_fields, padded_data,
    pe_headers_ok, section_table_bytes, PeRebuilder,
};
use crate::peimage::{
    name_prefix, parse_pe, pe_error_text, pe_layout, section_header_at, section_item_ok, PeError,
    SectionHeader,
};

verus! {

/// Errors that can occur when booting a Stubble image.
#[derive(Clone, Copy, Debug, PartialEq, Eq)]
pub enum BootStubbleError {
    PeError(PeError),
    DuplicateSection(&'static str),
    NotAStubbleImage,
    InvalidCommandLine,
}

impl BootStubbleError {
    /// Human-readable description of the error.
    pub fn to_string(&self) -> (s: String)
        ensures
            s@ == match self {
                BootStubbleError::PeError(e) => "PE parsing error: "@ + pe_error_text(*e),
                BootStubbleError::DuplicateSection(n) => "Duplicate section in Stubble image: "@
                    + n@,
                BootStubbleError::NotAStubbleImage => "Not a Stubble image"@,
                BootStubbleError::InvalidCommandLine => "Invalid command line encoding"@,
            },
    {
        match self {
            BootStubbleError::PeError(e) => {
                let mut s = String::from_str("PE parsing error: ");
                let d = e.to_string();
                s.append(d.as_str());
                s
            },
            BootStubbleError::DuplicateSection(n) => {
                let mut s = String::from_str("Duplicate section in Stubble image: ");
                s.append(n);
                s
            },
            BootStubbleError::NotAStubbleImage => String::from_str("Not a Stubble image"),
            BootStubbleError::InvalidCommandLine => String::from_str(
                "Invalid command line encoding",
            ),
        }
    }
}

/// A Stubble image, either already loaded (sections at their virtual
/// addresses) or in raw file form.
pub enum StubbleImage<'a> {
    Loaded(&'a [u8]),
    Raw(&'a [u8]),
}

/// Inserting into an empty slot, failing on a full one.
pub trait InsertOnce<T, E>: Sized {
    /// Inserts the value if the slot is empty, otherwise returns `err`.
    fn insert_once_or_error(&mut self, value: T, err: E) -> Result<(), E>;
}

impl<T, E> InsertOnce<T, E> for Option<T> {
    fn insert_once_or_error(&mut self, value: T, err: E) -> (r: Result<(), E>)
        ensures
            match *old(self) {
                Some(_) => r == Err::<(), E>(err) && *final(self) == *old(self),
                None => r == Ok::<(), E>(()) && *final(self) == Some(value),
            },
    {
        if self.is_some() {
            Err(err)
        } else {
            *self = Some(value);
            Ok(())
        }
    }
}

pub const SECTION_LINUX: [u8; 6] = [0x2e, 0x6c, 0x69, 0x6e, 0x75, 0x78];

pub const SECTION_INITRD: [u8; 7] = [0x2e, 0x69, 0x6e, 0x69, 0x74, 0x72, 0x64];

pub const SECTION_CMDLINE: [u8; 8] = [0x2e, 0x63, 0x6d, 0x64, 0x6c, 0x69, 0x6e, 0x65];

pub const SECTION_HWIDS: [u8; 6] = [0x2e, 0x68, 0x77, 0x69, 0x64, 0x73];

pub const SECTION_DTBAUTO: [u8; 8] = [0x2e, 0x64, 0x74, 0x62, 0x61, 0x75, 0x74, 0x6f];

/// What the sections of an image provide, as bytes.
pub struct SectionsView {
    pub kernel: Option<Seq<u8>>,
    pub initrd: Option<Seq<u8>>,
    pub cmdline: Option<Seq<u8>>,
    pub hwids: Option<Seq<u8>>,
    pub dtbauto: Seq<Seq<u8>>,
}

/// Nothing found yet.
pub open spec fn no_sections() -> SectionsView {
    SectionsView { kernel: None, initrd: None, cmdline: None, hwids: None, dtbauto: Seq::empty() }
}

/// Takes in the section `name` holding `data`: a kernel, initrd, command
/// line (which must be UTF-8) or hardware id table may come only once;
/// device trees add up; other sections are ignored.
pub open spec fn take_section(acc: SectionsView, name: Seq<u8>, data: Seq<u8>) -> Result<
    SectionsView,
    BootStubbleError,
> {
    if name == SECTION_LINUX@ {
        if acc.kernel is Some {
            Err(BootStubbleError::DuplicateSection(".linux"))
        } else {
            Ok(SectionsView { kernel: Some(data), ..acc })
        }
    } else if name == SECTION_INITRD@ {
        if acc.initrd is Some {
            Err(BootStubbleError::DuplicateSection(".initrd"))
        } else {
            Ok(SectionsView { initrd: Some(data), ..acc })
        }
    } else if name == SECTION_CMDLINE@ {
        if !valid_utf8(data) {
            Err(BootStubbleError::InvalidCommandLine)
        } else if acc.cmdline is Some {
            Err(BootStubbleError::DuplicateSection(".cmdline"))
        } else {
            Ok(SectionsView { cmdline: Some(data), ..acc })
        }
    } else if name == SECTION_HWIDS@ {
        if acc.hwids is Some {
            Err(BootStubbleError::DuplicateSection(".hwids"))
        } else {
            Ok(SectionsView { hwids: Some(data), ..acc })
        }
    } else if name == SECTION_DTBAUTO@ {
        Ok(SectionsView { dtbauto: acc.dtbauto.push(data), ..acc })
    } else {
        Ok(acc)
    }
}

/// The offset and length of the data of the `i`-th section whose header
/// is in `hdrs`: in the file for a raw image, at its virtual address for a
/// loaded one.
pub open spec fn section_extent(hdrs: Seq<u8>, i: int, raw: bool) -> (int, int) {
    if raw {
        (le32(hdrs, i * 40 + 20), le32(hdrs, i * 40 + 16))
    } else {
        (le32(hdrs, i * 40 + 12), le32(hdrs, i * 40 + 8))
    }
}

/// Takes in the sections from the `i`-th on: the walk ends at a section
/// whose extent overflows, and fails at one past the end of the image.
pub open spec fn sections_fold(
    data: Seq<u8>,
    hdrs: Seq<u8>,
    n: int,
    raw: bool,
    i: int,
    acc: SectionsView,
) -> Result<SectionsView, BootStubbleError>
    decreases n - i,
{
    if i >= n {
        Ok(acc)
    } else {
        let (off, len) = section_extent(hdrs, i, raw);
        if off + len > usize::MAX {
            Ok(acc)
        } else if off + len > data.len() {
            Err(BootStubbleError::PeError(PeError::Truncated))
        } else {
            match take_section(
                acc,
                name_prefix(hdrs.subrange(i * 40, i * 40 + 8)),
                data.subrange(off, off + len),
            ) {
                Err(e) => Err(e),
                Ok(a) => sections_fold(data, hdrs, n, raw, i + 1, a),
            }
        }
    }
}

/// One step of the fold, read through the decoded section header.
proof fn lemma_fold_step(
    data: Seq<u8>,
    hdrs: Seq<u8>,
    n: int,
    raw: bool,
    i: int,
    acc: SectionsView,
    h: SectionHeader,
)
    requires
        0 <= i < n,
        section_header_at(h, hdrs, i * 40),
    ensures
        ({
            let off: int = if raw {
                h.pointer_to_raw_data as int
            } else {
                h.virtual_address as int
            };
            let len: int = if raw {
                h.size_of_raw_data as int
            } else {
                h.virtual_size as int
            };
            sections_fold(data, hdrs, n, raw, i, acc) == if off + len > usize::MAX {
                Ok(acc)
            } else if off + len > data.len() {
                Err(BootStubbleError::PeError(PeError::Truncated))
            } else {
                match take_section(acc, name_prefix(h.name@), data.subrange(off, off + len)) {
                    Err(e) => Err(e),
                    Ok(a) => sections_fold(data, hdrs, n, raw, i + 1, a),
                }
            }
        }),
{
}

/// The bytes of an image.
pub open spec fn image_bytes(image: StubbleImage) -> Seq<u8> {
    match image {
        StubbleImage::Loaded(s) => s@,
        StubbleImage::Raw(s) => s@,
    }
}

/// What booting `data` takes from it: the parts that its sections provide,
/// the external initrd and command line where it has none of its own, and
/// an error where it is no PE image, a section is bad, or no kernel is in it.
pub open spec fn stubble_spec(
    data: Seq<u8>,
    raw: bool,
    external_initrd: Option<Seq<u8>>,
    external_cmdline: Option<Seq<u8>>,
) -> Result<SectionsView, BootStubbleError> {
    match pe_layout(data) {
        Err(e) => Err(BootStubbleError::PeError(e)),
        Ok((start, end)) => with_external(
            sections_fold(
                data,
                data.subrange(start, end),
                le16(data, le32(data, 60) + 6),
                raw,
                0,
                no_sections(),
            ),
            external_initrd,
            external_cmdline,
        ),
    }
}

/// What booting takes once the sections were taken in as `r`: their error,
/// `NotAStubbleImage` without a kernel, else the parts with the external
/// initrd and command line where the image has none of its own.
pub open spec fn with_external(
    r: Result<SectionsView, BootStubbleError>,
    external_initrd: Option<Seq<u8>>,
    external_cmdline: Option<Seq<u8>>,
) -> Result<SectionsView, BootStubbleError> {
    match r {
        Err(e) => Err(e),
        Ok(acc) => if acc.kernel is None {
            Err(BootStubbleError::NotAStubbleImage)
        } else {
            Ok(
                SectionsView {
                    initrd: if acc.initrd is None {
                        external_initrd
                    } else {
                        acc.initrd
                    },
                    cmdline: if acc.cmdline is None {
                        external_cmdline
                    } else {
                        acc.cmdline
                    },
                    ..acc
                },
            )
        },
    }
}

/// Takes in the sections of a PE rebuilder from the `i`-th on, each as its
/// name and its data padded to its raw size.
pub open spec fn rebuilt_fold(
    ss: Seq<(SectionHeader, Vec<u8>)>,
    i: int,
    acc: SectionsView,
) -> Result<SectionsView, BootStubbleError>
    decreases ss.len() - i,
{
    if i < 0 || i >= ss.len() {
        Ok(acc)
    } else {
        match take_section(acc, name_prefix(ss[i].0.name@), padded_data(ss[i])) {
            Err(e) => Err(e),
            Ok(a) => rebuilt_fold(ss, i + 1, a),
        }
    }
}

proof fn lemma_rebuilt_fold(
    img: Seq<u8>,
    ss: Seq<(SectionHeader, Vec<u8>)>,
    i: int,
    acc: SectionsView,
)
    requires
        0 <= i <= ss.len(),
        img.len() <= usize::MAX,
        forall|k: int|
            #![trigger ss[k]]
            0 <= k < ss.len() ==> {
                let h = ss[k].0;
                &&& h.pointer_to_raw_data + h.size_of_raw_data <= img.len()
                &&& img.subrange(
                    h.pointer_to_raw_data as int,
                    h.pointer_to_raw_data + h.size_of_raw_data,
                ) == padded_data(ss[k])
            },
    ensures
        sections_fold(img, section_table_bytes(headers(ss)), ss.len() as int, true, i, acc)
            == rebuilt_fold(ss, i, acc),
    decreases ss.len() - i,
{
    if i < ss.len() {
        let hs = headers(ss);
        lemma_section_table_fields(hs, i);
        assert(hs[i] == ss[i].0);
        let h = ss[i].0;
        assert(img.subrange(h.pointer_to_raw_data as int, h.pointer_to_raw_data + h.size_of_raw_data)
            == padded_data(ss[i]));
        match take_section(acc, name_prefix(h.name@), padded_data(ss[i])) {
            Err(e) => {},
            Ok(a) => {
                lemma_rebuilt_fold(img, ss, i + 1, a);
            },
        }
    }
}

/// An image written by the PE rebuilder reads back, in raw form, as the
/// sections the rebuilder holds, in order: each named as its header says,
/// with its data padded with zeros to its raw size.
pub proof fn lemma_rebuilt_image_reads_back(
    b: PeRebuilder,
    external_initrd: Option<Seq<u8>>,
    external_cmdline: Option<Seq<u8>>,
)
    requires
        pe_headers_ok(b),
        image_spec(b) matches Some(img) && img.len() <= usize::MAX,
    ensures
        stubble_spec(image_spec(b)->0, true, external_initrd, external_cmdline) == with_external(
            rebuilt_fold(b.sections@, 0, no_sections()),
            external_initrd,
            external_cmdline,
        ),
{
    let img = image_spec(b)->0;
    lemma_image_layout(b);
    lemma_rebuilt_fold(img, b.sections@, 0, no_sections());
}

/// The bytes of an optional slice.
pub open spec fn bytes_opt(o: Option<&[u8]>) -> Option<Seq<u8>> {
    match o {
        Some(s) => Some(s@),
        None => None,
    }
}

/// The bytes of an optional string.
pub open spec fn str_bytes_opt(o: Option<&str>) -> Option<Seq<u8>> {
    match o {
        Some(s) => Some(s.spec_bytes()),
        None => None,
    }
}

/// The parts of a Stubble image needed to boot it.
pub struct StubbleParts<'a> {
    pub kernel: &'a [u8],
    pub initrd: Option<&'a [u8]>,
    pub cmdline: Option<&'a str>,
    pub hwids: Option<&'a [u8]>,
    pub dtbauto: Vec<&'a [u8]>,
}

impl<'a> StubbleParts<'a> {
    /// The parts as bytes.
    pub open spec fn view_parts(&self) -> SectionsView {
        SectionsView {
            kernel: Some(self.kernel@),
            initrd: bytes_opt(self.initrd),
            cmdline: str_bytes_opt(self.cmdline),
            hwids: bytes_opt(self.hwids),
            dtbauto: self.dtbauto@.map_values(|d: &[u8]| d@),
        }
    }
}

/// The sections collected so far.
struct Collected<'a> {
    kernel: Option<&'a [u8]>,
    initrd: Option<&'a [u8]>,
    cmdline: Option<&'a str>,
    hwids: Option<&'a [u8]>,
    dtbauto: Vec<&'a [u8]>,
}

impl<'a> Collected<'a> {
    spec fn view_acc(&self) -> SectionsView {
        SectionsView {
            kernel: bytes_opt(self.kernel),
            initrd: bytes_opt(self.initrd),
            cmdline: str_bytes_opt(self.cmdline),
            hwids: bytes_opt(self.hwids),
            dtbauto: self.dtbauto@.map_values(|d: &[u8]| d@),
        }
    }

    fn take(&mut self, name: &[u8], data: &'a [u8]) -> (r: Result<(), BootStubbleError>)
        ensures
            match take_section(old(self).view_acc(), name@, data@) {
                Ok(v) => r is Ok && final(self).view_acc() == v,
                Err(e) => r == Err::<(), BootStubbleError>(e),
            },
    {
        if bytes_eq(name, &SECTION_LINUX) {
            self.kernel.insert_once_or_error(data, BootStubbleError::DuplicateSection(".linux"))
        } else if bytes_eq(name, &SECTION_INITRD) {
            self.initrd.insert_once_or_error(data, BootStubbleError::DuplicateSection(".initrd"))
        } else if bytes_eq(name, &SECTION_CMDLINE) {
            let text = match utf8_str(data) {
                Some(t) => t,
                None => {
                    return Err(BootStubbleError::InvalidCommandLine);
                },
            };
            self.cmdline.insert_once_or_error(text, BootStubbleError::DuplicateSection(".cmdline"))
        } else if bytes_eq(name, &SECTION_HWIDS) {
            self.hwids.insert_once_or_error(data, BootStubbleError::DuplicateSection(".hwids"))
        } else if bytes_eq(name, &SECTION_DTBAUTO) {
            self.dtbauto.push(data);
            proof {
                assert(self.view_acc().dtbauto =~= old(self).view_acc().dtbauto.push(data@));
            }
            Ok(())
        } else {
            Ok(())
        }
    }
}

/// Collects what booting a Stubble image needs from its sections. The
/// external initrd and command line are used only where the image carries
/// no `.initrd` or `.cmdline` section.
pub fn stubble_parts<'a>(
    stubble_image: StubbleImage<'a>,
    external_initrd: Option<&'a [u8]>,
    external_cmdline: Option<&'a str>,
) -> (r: Result<StubbleParts<'a>, BootStubbleError>)
    requires
        pe_layout(image_bytes(stubble_image)) is Ok ==> le32(image_bytes(stubble_image), 60) >= 64,
    ensures
        match stubble_spec(
            image_bytes(stubble_image),
            stubble_image is Raw,
            bytes_opt(external_initrd),
            str_bytes_opt(external_cmdline),
        ) {
            Err(e) => r == Err::<StubbleParts, BootStubbleError>(e),
            Ok(v) => r matches Ok(p) && p.view_parts() == v,
        },
{
    let (data, raw) = match stubble_image {
        StubbleImage::Loaded(s) => (s, false),
        StubbleImage::Raw(s) => (s, true),
    };
    let pe = match parse_pe(data) {
        Ok(pe) => pe,
        Err(e) => {
            return Err(BootStubbleError::PeError(e));
        },
    };
    let ghost hdrs = pe.sect_hdrs@;
    let ghost n = pe.nt_hdrs.file_header.number_of_sections as int;
    let mut acc = Collected { kernel: None, initrd: None, cmdline: None, hwids: None, dtbauto: Vec::new() };
    let ghost whole = stubble_spec(
        image_bytes(stubble_image),
        stubble_image is Raw,
        bytes_opt(external_initrd),
        str_bytes_opt(external_cmdline),
    );
    proof {
        assert(acc.view_acc().dtbauto =~= Seq::<Seq<u8>>::empty());
        assert(acc.view_acc() == no_sections());
        assert(sections_fold(data@, hdrs, n, raw, 0, no_sections()) is Err ==> whole
            == sections_fold(data@, hdrs, n, raw, 0, no_sections()));
    }
    if raw {
        let mut it = pe.raw_sections();
        loop
            invariant_except_break
                it.index <= n,
                sections_fold(data@, hdrs, n, true, 0, no_sections()) == sections_fold(
                    data@,
                    hdrs,
                    n,
                    true,
                    it.index as int,
                    acc.view_acc(),
                ),
            invariant
                it.pe == pe,
                pe.wf(),
                pe.sect_hdrs@ == hdrs,
                pe.data@ == data@,
                n == pe.nt_hdrs.file_header.number_of_sections,
                whole == stubble_spec(
                    image_bytes(stubble_image),
                    stubble_image is Raw,
                    bytes_opt(external_initrd),
                    str_bytes_opt(external_cmdline),
                ),
                sections_fold(data@, hdrs, n, true, 0, no_sections()) is Err ==> whole
                    == sections_fold(data@, hdrs, n, true, 0, no_sections()),
            ensures
                sections_fold(data@, hdrs, n, true, 0, no_sections()) == Ok::<
                    SectionsView,
                    BootStubbleError,
                >(acc.view_acc()),
            decreases n - it.index,
        {
            let ghost i = it.index as int;
            let ghost before = acc.view_acc();
            let item = it.next();
            proof {
                if i < n {
                    let h = choose|h: SectionHeader|
                        #[trigger] section_header_at(h, hdrs, i * 40) && section_item_ok(
                            item,
                            h,
                            data@,
                            h.pointer_to_raw_data as int,
                            h.size_of_raw_data as int,
                        );
                    lemma_fold_step(data@, hdrs, n, true, i, before, h);
                }
            }
            match item {
                None => {
                    break;
                },
                Some(Err(e)) => {
                    return Err(BootStubbleError::PeError(e));
                },
                Some(Ok((sect, sdata))) => {
                    let name = sect.name();
                    match acc.take(name, sdata) {
                        Ok(()) => {},
                        Err(e) => {
                            return Err(e);
                        },
                    }
                },
            }
        }
    } else {
        let mut it = pe.virtual_sections();
        loop
            invariant_except_break
                it.index <= n,
                sections_fold(data@, hdrs, n, false, 0, no_sections()) == sections_fold(
                    data@,
                    hdrs,
                    n,
                    false,
                    it.index as int,
                    acc.view_acc(),
                ),
            invariant
                it.pe == pe,
                pe.wf(),
                pe.sect_hdrs@ == hdrs,
                pe.data@ == data@,
                n == pe.nt_hdrs.file_header.number_of_sections,
                whole == stubble_spec(
                    image_bytes(stubble_image),
                    stubble_image is Raw,
                    bytes_opt(external_initrd),
                    str_bytes_opt(external_cmdline),
                ),
                sections_fold(data@, hdrs, n, false, 0, no_sections()) is Err ==> whole
                    == sections_fold(data@, hdrs, n, false, 0, no_sections()),
            ensures
                sections_fold(data@, hdrs, n, false, 0, no_sections()) == Ok::<
                    SectionsView,
                    BootStubbleError,
                >(acc.view_acc()),
            decreases n - it.index,
        {
            let ghost i = it.index as int;
            let ghost before = acc.view_acc();
            let item = it.next();
            proof {
                if i < n {
                    let h = choose|h: SectionHeader|
                        #[trigger] section_header_at(h, hdrs, i * 40) && section_item_ok(
                            item,
                            h,
                            data@,
                            h.virtual_address as int,
                            h.virtual_size as int,
                        );
                    lemma_fold_step(data@, hdrs, n, false, i, before, h);
                }
            }
            match item {
                None => {
                    break;
                },
                Some(Err(e)) => {
                    return Err(BootStubbleError::PeError(e));
                },
                Some(Ok((sect, sdata))) => {
                    let name = sect.name();
                    match acc.take(name, sdata) {
                        Ok(()) => {},
                        Err(e) => {
                            return Err(e);
                        },
                    }
                },
            }
        }
    }
    if acc.cmdline.is_none() {
        acc.cmdline = external_cmdline;
    }
    if acc.initrd.is_none() {
        acc.initrd = external_initrd;
    }
    let kernel = match acc.kernel {
        Some(k) => k,
        None => {
            return Err(BootStubbleError::NotAStubbleImage);
        },
    };
    Ok(
        StubbleParts {
            kernel,
            initrd: acc.initrd,
            cmdline: acc.cmdline,
            hwids: acc.hwids,
            dtbauto: acc.dtbauto,
        },
    )
}

/// The first string of the `compatible` property of the root node of the
/// flattened device tree in `data`, as bytes; `None` where the tree does not
/// parse or has no such string.
pub uninterp spec fn fdt_root_compatible(data: Seq<u8>) -> Option<Seq<u8>>;

/// `n` rounded up to a multiple of four.
pub open spec fn align4(n: int) -> int {
    (n + 3) / 4 * 4
}

/// The offset past the NOP tokens at and after `p` in the structure block `s`.
pub open spec fn skip_nops_at(s: Seq<u8>, p: int) -> int
    decreases s.len() - p,
{
    if 0 <= p && p + 4 <= s.len() && be32(s, p) == 4 {
        skip_nops_at(s, p + 4)
    } else {
        p
    }
}

/// Whether the property list of a node, from offset `p` of the structure
/// block `s` of the tree `d`, reads without fault: each property token is
/// followed by its length and name offset, its value lies within the block,
/// and its name is a NUL-terminated UTF-8 string inside the strings block.
/// The list ends at the first token that is no property.
pub open spec fn props_ok(d: Seq<u8>, s: Seq<u8>, p: int) -> bool
    decreases s.len() - p,
{
    let q = skip_nops_at(s, p);
    if q < p || q + 4 > s.len() || be32(s, q) != 3 {
        true
    } else if q + 12 > s.len() {
        false
    } else {
        let len = be32(s, q + 4);
        let off = be32(s, q + 8);
        let sto = be32(d, 12);
        let sts = be32(d, 32);
        &&& q + 12 + len <= s.len()
        &&& sto + sts <= d.len()
        &&& off <= sts
        &&& match first_nul(d, sto + off, sto + sts) {
            Some(z) => valid_utf8(d.subrange(sto + off, z)),
            None => false,
        }
        &&& if p < q + 12 + align4(len) <= s.len() {
            props_ok(d, s, q + 12 + align4(len))
        } else {
            true
        }
    }
}

/// Whether looking up the root node of the device tree `d` and reading its
/// properties stays within the data: the header is refused (the lookup then
/// does not start), or the structure block lies in the data and, where it
/// starts with a node, that node's name is NUL-terminated, and when it is
/// UTF-8 it is the root's (empty before any `@`) and its properties read
/// without fault.
pub open spec fn dtb_root_safe(d: Seq<u8>) -> bool {
    dtb_check(d) is Err || {
        let so = be32(d, 8);
        let ss = be32(d, 36);
        &&& so + ss <= d.len()
        &&& {
            let s = d.subrange(so, so + ss);
            let p = skip_nops_at(s, 0);
            p + 4 > s.len() || be32(s, p) != 1 || match first_nul(s, p + 4, s.len() as int) {
                None => false,
                Some(z) => {
                    let name = s.subrange(p + 4, z);
                    !valid_utf8(name) || ((name.len() == 0 || name[0] == 0x40) && props_ok(
                        d,
                        s,
                        p + 4 + align4(z - p - 4 + 1),
                    ))
                },
            }
        }
    }
}

proof fn lemma_skip_nops_ge(s: Seq<u8>, p: int)
    ensures
        skip_nops_at(s, p) >= p,
        p >= 0 && skip_nops_at(s, p) + 4 <= s.len() ==> be32(s, skip_nops_at(s, p)) != 4,
        p >= 0 ==> skip_nops_at(s, p) >= 0,
    decreases s.len() - p,
{
    if 0 <= p && p + 4 <= s.len() && be32(s, p) == 4 {
        lemma_skip_nops_ge(s, p + 4);
    }
}

fn skip_nops_exec(s: &[u8], p: usize) -> (r: usize)
    ensures
        r == skip_nops_at(s@, p as int),
{
    let mut q = p;
    while q <= s.len() && s.len() - q >= 4 && read_be32(s, q) == 4
        invariant
            p <= q,
            skip_nops_at(s@, p as int) == skip_nops_at(s@, q as int),
        decreases s@.len() - q,
    {
        q += 4;
    }
    q
}

fn first_nul_exec(s: &[u8], from: usize, to: usize) -> (r: Option<usize>)
    requires
        from <= to <= s@.len(),
    ensures
        r == match first_nul(s@, from as int, to as int) {
            Some(z) => Some(z as usize),
            None => None::<usize>,
        },
{
    let mut z = from;
    while z < to && s[z] != 0
        invariant
            from <= z <= to <= s@.len(),
            first_nul(s@, from as int, to as int) == first_nul(s@, z as int, to as int),
        decreases to - z,
    {
        z += 1;
    }
    if z < to {
        Some(z)
    } else {
        None
    }
}

/// Whether the root lookup of the device tree `d` stays within the data.
pub fn dtb_root_is_safe(d: &[u8]) -> (r: bool)
    ensures
        r == dtb_root_safe(d@),
{
    let n = d.len();
    let header_ok = n >= 40 && read_be32(d, 0) == 0xd00dfeed && (n as u64) >= read_be32(d, 4) as u64;
    if !header_ok {
        return true;
    }
    let so = read_be32(d, 8) as usize;
    let ss = read_be32(d, 36) as usize;
    if so > n || ss > n - so {
        return false;
    }
    let s = &d[so..so + ss];
    let p = skip_nops_exec(s, 0);
    proof {
        lemma_skip_nops_ge(s@, 0);
    }
    if p > s.len() || s.len() - p < 4 || read_be32(s, p) != 1 {
        return true;
    }
    let z = match first_nul_exec(s, p + 4, s.len()) {
        Some(z) => z,
        None => {
            return false;
        },
    };
    proof {
        crate::cbfs::lemma_first_nul(s@, p + 4, s@.len() as int);
    }
    let name = &s[p + 4..z];
    if utf8_str(name).is_none() {
        return true;
    }
    if name.len() != 0 && name[0] != 0x40 {
        return false;
    }
    let sto = read_be32(d, 12) as u64;
    let sts = read_be32(d, 32) as u64;
    let name_len = z - p - 4;
    let mut cur: usize = p + 4 + (name_len + 1 + 3) / 4 * 4;
    proof {
        assert(cur == p + 4 + align4(z - p - 4 + 1));
        assert(name@ == s@.subrange(p + 4, z as int));
        assert(dtb_root_safe(d@) == props_ok(d@, s@, cur as int));
    }
    loop
        invariant
            s@ == d@.subrange(so as int, so + ss),
            sto == be32(d@, 12),
            sts == be32(d@, 32),
            n == d@.len(),
            cur >= 0,
            dtb_root_safe(d@) == props_ok(d@, s@, cur as int),
        decreases s@.len() + 16 - cur,
    {
        if cur > s.len() {
            proof {
                lemma_skip_nops_ge(s@, cur as int);
                assert(skip_nops_at(s@, cur as int) == cur);
            }
            return true;
        }
        let q = skip_nops_exec(s, cur);
        proof {
            lemma_skip_nops_ge(s@, cur as int);
        }
        if q > s.len() || s.len() - q < 4 || read_be32(s, q) != 3 {
            return true;
        }
        if s.len() - q < 12 {
            return false;
        }
        let len = read_be32(s, q + 4) as usize;
        let off = read_be32(s, q + 8) as u64;
        if len > s.len() - q - 12 {
            return false;
        }
        if sto + sts > n as u64 || off > sts {
            return false;
        }
        let start = (sto + off) as usize;
        let end = (sto + sts) as usize;
        let zn = match first_nul_exec(d, start, end) {
            Some(x) => x,
            None => {
                return false;
            },
        };
        proof {
            crate::cbfs::lemma_first_nul(d@, start as int, end as int);
        }
        let nm = &d[start..zn];
        if utf8_str(nm).is_none() {
            return false;
        }
        let next: u128 = q as u128 + 12 + (len as u128 + 3) / 4 * 4;
        proof {
            assert(next == q + 12 + align4(len as int));
            assert(next > q);
        }
        if next > s.len() as u128 {
            return true;
        }
        cur = next as usize;
    }
}

/// The bytes of an optional vector.
pub open spec fn vec_opt(o: Option<Vec<u8>>) -> Option<Seq<u8>> {
    match o {
        Some(v) => Some(v@),
        None => None,
    }
}

/// The first compatible string of the root node of a device tree.
///
/// Trusted: parses with `fdt::Fdt::new`, looks up the node `/` with
/// `Fdt::find_node`, takes its `compatible` property with
/// `FdtNode::compatible` and its first string with `Compatible::all`. The
/// result depends on `data` alone. The lookup slices the structure and
/// strings blocks and reads the root node's name and properties with
/// assertions; `dtb_root_safe` holds of the trees on which none of these
/// can fail.
#[verifier::external_body]
fn root_compatible(data: &[u8]) -> (r: Option<Vec<u8>>)
    requires
        dtb_root_safe(data@),
    ensures
        vec_opt(r) == fdt_root_compatible(data@),
{
    let tree = fdt::Fdt::new(data).ok()?;
    let first = tree.find_node("/")?.compatible()?.all().next()?;
    Some(first.as_bytes().to_vec())
}

/// The index of the first entry of `roots` equal to `compatible`.
pub fn first_compatible_dtb(roots: &[Option<Vec<u8>>], compatible: &str) -> (r: Option<usize>)
    ensures
        match r {
            Some(i) => i < roots@.len() && vec_opt(roots@[i as int]) == Some(
                compatible.spec_bytes(),
            ) && forall|j: int|
                0 <= j < i ==> vec_opt(#[trigger] roots@[j]) != Some(compatible.spec_bytes()),
            None => forall|j: int|
                0 <= j < roots@.len() ==> vec_opt(#[trigger] roots@[j]) != Some(
                    compatible.spec_bytes(),
                ),
        },
{
    let want = compatible.as_bytes();
    let mut i: usize = 0;
    while i < roots.len()
        invariant
            i <= roots@.len(),
            want@ == compatible.spec_bytes(),
            forall|j: int|
                0 <= j < i ==> vec_opt(#[trigger] roots@[j]) != Some(compatible.spec_bytes()),
        decreases roots@.len() - i,
    {
        match &roots[i] {
            Some(v) => {
                if bytes_eq(v.as_slice(), want) {
                    return Some(i);
                }
            },
            None => {},
        }
        i += 1;
    }
    None
}

/// The index of the first device tree in `dtbauto` whose root node is
/// compatible with `compatible`; trees that do not parse, whose root has no
/// compatible string, or whose root node cannot be read safely
/// (`dtb_root_safe`), are skipped.
pub fn select_dtb(dtbauto: &[&[u8]], compatible: &str) -> (r: Option<usize>)
    ensures
        match r {
            Some(i) => i < dtbauto@.len() && dtb_root_safe(dtbauto@[i as int]@)
                && fdt_root_compatible(dtbauto@[i as int]@) == Some(compatible.spec_bytes())
                && forall|j: int|
                0 <= j < i ==> !dtb_root_safe(#[trigger] dtbauto@[j]@) || fdt_root_compatible(
                    dtbauto@[j]@,
                ) != Some(compatible.spec_bytes()),
            None => forall|j: int|
                0 <= j < dtbauto@.len() ==> !dtb_root_safe(#[trigger] dtbauto@[j]@)
                    || fdt_root_compatible(dtbauto@[j]@) != Some(compatible.spec_bytes()),
        },
{
    let mut roots: Vec<Option<Vec<u8>>> = Vec::new();
    let mut i: usize = 0;
    while i < dtbauto.len()
        invariant
            i <= dtbauto@.len(),
            roots@.len() == i,
            forall|j: int|
                0 <= j < i ==> vec_opt(#[trigger] roots@[j]) == if dtb_root_safe(dtbauto@[j]@) {
                    fdt_root_compatible(dtbauto@[j]@)
                } else {
                    None
                },
        decreases dtbauto@.len() - i,
    {
        if dtb_root_is_safe(dtbauto[i]) {
            roots.push(root_compatible(dtbauto[i]));
        } else {
            roots.push(None);
        }
        i += 1;
    }
    let r = first_compatible_dtb(roots.as_slice(), compatible);
    proof {
        if let Some(k) = r {
            assert(vec_opt(roots@[k as int]) == if dtb_root_safe(dtbauto@[k as int]@) {
                fdt_root_compatible(dtbauto@[k as int]@)
            } else {
                None
            });
        }
        assert forall|j: int| 0 <= j < dtbauto@.len() implies (#[trigger] dtb_root_safe(
            dtbauto@[j]@,
        ) ==> fdt_root_compatible(dtbauto@[j]@) == vec_opt(roots@[j])) && (!dtb_root_safe(
            dtbauto@[j]@,
        ) ==> vec_opt(roots@[j]) is None) by {}
    }
    r
}

} // verus!
