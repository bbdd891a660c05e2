//! Computer Hardware IDs (CHIDs).
//!
//! A CHID is a version 5 (SHA-1, name-based) UUID derived from a selection of
//! hardware identification strings (SMBIOS fields and the EDID panel ID). The
//! selected strings are encoded as UTF-16LE, joined with `&`, prefixed by the
//! CHID namespace GUID in big-endian form and hashed with SHA-1.
use vstd::prelude::*;
use vstd::utf8::{decode_utf8, encode_utf8_decode_utf8, valid_utf8};
use vstd::string::StringSliceAdditionalSpecFns;
use crate::bytes::{be16, be32};
use crate::edid::{EdidParseError, ParsedEdid, edid_panel};
use crate::guid::Guid;
use crate::sha1::{Sha1Ctx, sha1_spec};
use crate::smbios::{
    SmbiosError, SmbiosParseError, SmbiosScan, SmbiosTable, SmbiosTableType0,
    SmbiosTableType0_24, SmbiosTableType1, SmbiosTableType2, SmbiosTableType3,
    Smbios3EntryPoint, SmbiosEntryPoint, find_smbios_table_by_type, nul_piece, smbios_scan, lemma_smbios_scan_found,
};
use crate::text::{chars_of, hex, push_hex, string_from_chars};

verus! {

/// Index of the SMBIOS system manufacturer (type 1).
pub const CHID_SMBIOS_MANUFACTURER: usize = 0;
/// Index of the SMBIOS system family (type 1).
pub const CHID_SMBIOS_FAMILY: usize = 1;
/// Index of the SMBIOS product name (type 1).
pub const CHID_SMBIOS_PRODUCT_NAME: usize = 2;
/// Index of the SMBIOS product SKU (type 1).
pub const CHID_SMBIOS_PRODUCT_SKU: usize = 3;
/// Index of the SMBIOS baseboard manufacturer (type 2).
pub const CHID_SMBIOS_BASEBOARD_MANUFACTURER: usize = 4;
/// Index of the SMBIOS baseboard product (type 2).
pub const CHID_SMBIOS_BASEBOARD_PRODUCT: usize = 5;
/// Index of the SMBIOS BIOS vendor (type 0).
pub const CHID_SMBIOS_BIOS_VENDOR: usize = 6;
/// Index of the SMBIOS BIOS version (type 0).
pub const CHID_SMBIOS_BIOS_VERSION: usize = 7;
/// Index of the SMBIOS BIOS major release (type 0, SMBIOS 2.4+).
pub const CHID_SMBIOS_BIOS_MAJOR: usize = 8;
/// Index of the SMBIOS BIOS minor release (type 0, SMBIOS 2.4+).
pub const CHID_SMBIOS_BIOS_MINOR: usize = 9;
/// Index of the SMBIOS enclosure type (type 3).
pub const CHID_SMBIOS_ENCLOSURE_TYPE: usize = 10;
/// Index of the EDID panel identifier.
pub const CHID_EDID_PANEL: usize = 11;
/// Number of CHID sources.
pub const CHID_SOURCE_MAX: usize = 12;

/// The sources each CHID type is computed from, as bit masks over the
/// source indices. Types 0 to 14 are the standard Microsoft types, from the
/// most specific (exact BIOS version) to the least (manufacturer only);
/// types 15 to 17 add the EDID panel.
pub const CHID_TYPES: [usize; 18] = [
    975,
    967,
    965,
    63,
    15,
    7,
    57,
    9,
    53,
    5,
    51,
    3,
    1025,
    49,
    1,
    2055,
    2051,
    2057,
];

/// Hardware identification strings, indexed by the `CHID_*` source indices.
pub type ChidSources = [Option<String>; 12];

/// The CHID namespace GUID `70ffd812-4c7f-4c7d-0000-000000000000` in the
/// big-endian byte order used for hashing.
pub open spec fn chid_namespace_be() -> Seq<u8> {
    seq![0x70u8, 0xff, 0xd8, 0x12, 0x4c, 0x7f, 0x4c, 0x7d, 0, 0, 0, 0, 0, 0, 0, 0]
}

/// The CHID namespace GUID.
pub fn chid_namespace_guid() -> (g: Guid)
    ensures
        g.data1 == 0x70ffd812 && g.data2 == 0x4c7f && g.data3 == 0x4c7d,
        g.data4@ == seq![0u8, 0, 0, 0, 0, 0, 0, 0],
{
    let g = Guid { data1: 0x70ffd812, data2: 0x4c7f, data3: 0x4c7d, data4: [0u8; 8] };
    assert(g.data4@ =~= seq![0u8, 0, 0, 0, 0, 0, 0, 0]);
    g
}

/// UTF-16 code units of a character.
pub open spec fn utf16_units(c: char) -> Seq<u16> {
    let v = c as u32;
    if v < 0x10000 {
        seq![v as u16]
    } else {
        seq![(0xd800 + (v - 0x10000) / 1024) as u16, (0xdc00 + (v - 0x10000) % 1024) as u16]
    }
}

/// Little-endian bytes of UTF-16 code units.
pub open spec fn units_le_bytes(u: Seq<u16>) -> Seq<u8>
    decreases u.len(),
{
    if u.len() == 0 {
        Seq::empty()
    } else {
        seq![(u[0] % 256) as u8, (u[0] / 256) as u8] + units_le_bytes(u.drop_first())
    }
}

/// UTF-16LE encoding of a character sequence.
pub open spec fn utf16le(s: Seq<char>) -> Seq<u8>
    decreases s.len(),
{
    if s.len() == 0 {
        Seq::empty()
    } else {
        utf16le(s.drop_last()) + units_le_bytes(utf16_units(s.last()))
    }
}

/// Whether CHID type mask `t` selects source `i`.
pub open spec fn selects(t: usize, i: int) -> bool {
    t & (1usize << (i as usize)) != 0
}

/// The text of an optional string.
pub open spec fn opt_view(o: Option<String>) -> Option<Seq<char>> {
    match o {
        Some(s) => Some(s@),
        None => None,
    }
}

/// The views of the sources.
pub open spec fn sources_view(srcs: [Option<String>; 12]) -> Seq<Option<Seq<char>>> {
    srcs@.map_values(|o: Option<String>| opt_view(o))
}

/// The hashed payload for the first `n` sources: the UTF-16LE encodings of
/// the selected ones joined by `&\0`; `None` if a selected source is missing.
pub open spec fn chid_payload(srcs: Seq<Option<Seq<char>>>, t: usize, n: int) -> Option<
    (Seq<u8>, bool),
>
    decreases n,
{
    if n <= 0 {
        Some((Seq::empty(), true))
    } else {
        match chid_payload(srcs, t, n - 1) {
            None => None,
            Some((p, first)) => {
                if !selects(t, n - 1) {
                    Some((p, first))
                } else {
                    match srcs[n - 1] {
                        None => None,
                        Some(s) => Some(
                            (
                                (if first {
                                    p
                                } else {
                                    p + seq![38u8, 0u8]
                                }) + utf16le(s),
                                false,
                            ),
                        ),
                    }
                }
            },
        }
    }
}

/// The name-based UUID (version 5) built from a SHA-1 digest.
pub open spec fn uuid_v5_matches(g: Guid, d: Seq<u8>) -> bool {
    &&& g.data1 == be32(d, 0)
    &&& g.data2 == be16(d, 4)
    &&& g.data3 == be16(d, 6) % 4096 + 0x5000
    &&& g.data4[0] == d[8] % 64 + 0x80
    &&& forall|k: int| 1 <= k < 8 ==> #[trigger] g.data4[k] == d[8 + k]
}

/// The CHID of type mask `t`, or `None` if a selected source is missing.
#[verifier::opaque]
pub open spec fn chid_spec_matches(srcs: Seq<Option<Seq<char>>>, t: usize, r: Option<Guid>) -> bool {
    match chid_payload(srcs, t, 12) {
        None => r is None,
        Some((p, _)) => r matches Some(g) && uuid_v5_matches(g, sha1_spec(chid_namespace_be() + p)),
    }
}

/// The CHID of type mask `t` for the sources `srcs`, or `None` if a
/// selected source is missing.
#[verifier::opaque]
pub open spec fn chid_for(srcs: Seq<Option<Seq<char>>>, t: usize) -> Option<Guid> {
    match chid_payload(srcs, t, 12) {
        None => None,
        Some((p, _)) => Some(
            choose|g: Guid| uuid_v5_matches(g, sha1_spec(chid_namespace_be() + p)),
        ),
    }
}

/// The digest determines the UUID.
pub proof fn lemma_uuid_v5_unique(g1: Guid, g2: Guid, d: Seq<u8>)
    requires
        uuid_v5_matches(g1, d),
        uuid_v5_matches(g2, d),
    ensures
        g1 == g2,
{
    assert(g1.data4[0] == g2.data4[0]);
    assert(g1.data4 =~= g2.data4);
}

/// A CHID that satisfies the relation is the one `chid_for` names.
pub proof fn lemma_chid_for(srcs: Seq<Option<Seq<char>>>, t: usize, r: Option<Guid>)
    requires
        chid_spec_matches(srcs, t, r),
    ensures
        r == chid_for(srcs, t),
{
    reveal(chid_for);
    reveal(chid_spec_matches);
    if let Some((p, _)) = chid_payload(srcs, t, 12) {
        let d = sha1_spec(chid_namespace_be() + p);
        let g = r->0;
        assert(uuid_v5_matches(g, d));
        let c = choose|g: Guid| uuid_v5_matches(g, d);
        lemma_uuid_v5_unique(g, c, d);
    }
}

/// The hashed payload of all twelve sources, empty where one is missing.
pub open spec fn payload_bytes(srcs: Seq<Option<Seq<char>>>, t: usize) -> Seq<u8> {
    match chid_payload(srcs, t, 12) {
        Some((p, _)) => p,
        None => Seq::empty(),
    }
}

proof fn lemma_payload_none_iff(srcs: Seq<Option<Seq<char>>>, t: usize, n: int)
    requires
        0 <= n <= srcs.len(),
    ensures
        chid_payload(srcs, t, n) is None <==> exists|i: int| 0 <= i < n && selects(t, i) && #[trigger] srcs[i] is None,
    decreases n,
{
    if n > 0 {
        lemma_payload_none_iff(srcs, t, n - 1);
        if chid_payload(srcs, t, n) is None && chid_payload(srcs, t, n - 1) is Some {
            assert(srcs[n - 1] is None);
        }
        if exists|i: int| 0 <= i < n && selects(t, i) && #[trigger] srcs[i] is None {
            let i = choose|i: int| 0 <= i < n && selects(t, i) && #[trigger] srcs[i] is None;
            if i < n - 1 {
                assert(chid_payload(srcs, t, n - 1) is None);
            }
        }
    }
}

/// A CHID is missing exactly when a source its type selects is missing;
/// otherwise it is the name-based UUID of the SHA-1 digest of the namespace
/// and the payload, with version 5 and the RFC 4122 variant.
pub proof fn lemma_chid_shape(srcs: Seq<Option<Seq<char>>>, t: usize)
    requires
        srcs.len() == 12,
    ensures
        chid_for(srcs, t) is None <==> exists|i: int| 0 <= i < 12 && selects(t, i) && #[trigger] srcs[i] is None,
        chid_for(srcs, t) matches Some(g) ==> {
            &&& g.data3 / 4096 == 5
            &&& g.data4[0] / 64 == 2
            &&& uuid_v5_matches(g, sha1_spec(chid_namespace_be() + payload_bytes(srcs, t)))
        },
{
    reveal(chid_for);
    lemma_payload_none_iff(srcs, t, 12);
    if let Some((p, _)) = chid_payload(srcs, t, 12) {
        let d = sha1_spec(chid_namespace_be() + p);
        assert(d.len() == 20);
        let w = Guid {
            data1: be32(d, 0) as u32,
            data2: be16(d, 4) as u16,
            data3: (be16(d, 6) % 4096 + 0x5000) as u16,
            data4: [(d[8] % 64 + 0x80) as u8, d[9], d[10], d[11], d[12], d[13], d[14], d[15]],
        };
        assert(uuid_v5_matches(w, d));
        let g = choose|g: Guid| uuid_v5_matches(g, d);
        assert(g.data3 == be16(d, 6) % 4096 + 0x5000);
        assert(g.data4[0] == d[8] % 64 + 0x80);
    }
}

/// The BIOS release sources come with SMBIOS 2.4: when the entry point
/// announces version 2.4 or later (a major version above 2, or 2 with a
/// minor version of at least 4) and a BIOS information structure of the 2.4
/// layout is found, the BIOS major and minor release sources are its bytes
/// 20 and 21 in two hex digits; an entry point announcing an earlier
/// version, or none, gives neither source.
pub proof fn lemma_bios_release_gate(ep: Option<Seq<u8>>, s: Seq<u8>, edid: Option<Seq<u8>>)
    ensures
        (ep matches Some(e) && entry_point_version(e) matches Some((maj, min)) && (maj > 2 || (maj
            == 2 && min >= 4))) ==> match chid_sources_spec(ep, s, edid) {
            Ok(v) => match smbios_scan(s, 0, 0, 26) {
                SmbiosScan::Found { start, .. } => v[8] == Some(hex(s[start + 20] as nat, 2)) && v[9]
                    == Some(hex(s[start + 21] as nat, 2)),
                _ => true,
            },
            Err(_) => true,
        },
        !(ep matches Some(e) && entry_point_version(e) matches Some((maj, min)) && (maj > 2 || (maj
            == 2 && min >= 4))) ==> match chid_sources_spec(ep, s, edid) {
            Ok(v) => v[8] is None && v[9] is None,
            Err(_) => true,
        },
{
    if let Some(e) = ep {
        lemma_gate_version(e);
    }
    let at24 = match ep {
        Some(e) => smbios_at_least_24(e),
        None => false,
    };
    if let Ok(v) = chid_sources_spec(ep, s, edid) {
        let sc0 = smbios_scan(s, 0, 0, if at24 { 26 } else { 20 });
        assert(v[8] == if at24 { found_hex(s, sc0, 20, 2) } else { None });
        assert(v[9] == if at24 { found_hex(s, sc0, 21, 2) } else { None });
    }
}

proof fn lemma_gate_version(e: Seq<u8>)
    ensures
        smbios_at_least_24(e) <==> (entry_point_version(e) matches Some((maj, min)) && (maj > 2 || (
        maj == 2 && min >= 4))),
{
}

/// Every source is short enough to be hashed.
pub open spec fn sources_fit(srcs: ChidSources) -> bool {
    forall|i: int| 0 <= i < 12 ==> (#[trigger] srcs@[i] matches Some(s) ==> s@.len() < 0x80_0000_0000_0000)
}

/// Appends the UTF-16LE encoding of `s` to `out`.
fn push_utf16le(out: &mut Vec<u8>, s: &[char])
    ensures
        final(out)@ == old(out)@ + utf16le(s@),
{
    let ghost start = out@;
    let mut i: usize = 0;
    while i < s.len()
        invariant
            i <= s@.len(),
            out@ == start + utf16le(s@.subrange(0, i as int)),
        decreases s@.len() - i,
    {
        let c = s[i];
        let v = c as u32;
        let ghost before = out@;
        if v < 0x10000 {
            out.push((v % 256) as u8);
            out.push((v / 256) as u8);
            proof {
                reveal_with_fuel(units_le_bytes, 2);
                assert(units_le_bytes(utf16_units(c)) =~= seq![(v % 256) as u8, (v / 256) as u8]);
            }
        } else {
            let w = v - 0x10000;
            let hi = 0xd800 + w / 1024;
            let lo = 0xdc00 + w % 1024;
            out.push((hi % 256) as u8);
            out.push((hi / 256) as u8);
            out.push((lo % 256) as u8);
            out.push((lo / 256) as u8);
            proof {
                vstd::utf8::char_is_scalar(c);
                assert(w < 0x100000);
                assert(hi < 0x10000 && lo < 0x10000);
                reveal_with_fuel(units_le_bytes, 3);
                let u = utf16_units(c);
                assert(u[0] == hi as u16 && u[1] == lo as u16);
                assert(u.drop_first().drop_first() =~= Seq::<u16>::empty());
                assert(units_le_bytes(u) =~= seq![
                    (hi % 256) as u8,
                    (hi / 256) as u8,
                    (lo % 256) as u8,
                    (lo / 256) as u8,
                ]);
            }
        }
        proof {
            let sub = s@.subrange(0, i + 1);
            assert(sub.drop_last() =~= s@.subrange(0, i as int));
            assert(sub.last() == c);
        }
        assert(out@ =~= start + utf16le(s@.subrange(0, i + 1)));
        i += 1;
    }
    assert(s@.subrange(0, s@.len() as int) =~= s@);
}

/// Computes the CHID of type mask `chid_type` from the sources; `None` if a
/// selected source is missing.
pub fn compute_chid(srcs: &ChidSources, chid_type: usize) -> (r: Option<Guid>)
    requires
        sources_fit(*srcs),
    ensures
        chid_spec_matches(sources_view(*srcs), chid_type, r),
        r == chid_for(sources_view(*srcs), chid_type),
{
    let ghost sv = sources_view(*srcs);
    let mut msg: Vec<u8> = Vec::new();
    let mut first = true;
    let mut i: usize = 0;
    while i < 12
        invariant
            i <= 12,
            sv == sources_view(*srcs),
            chid_payload(sv, chid_type, i as int) == Some((msg@, first)),
            msg@.len() <= i * 0x200_0000_0000_0002,
            sources_fit(*srcs),
        decreases 12 - i,
    {
        let ghost before = msg@;
        if chid_type & (1usize << i) != 0 {
            if !first {
                msg.push(38);
                msg.push(0);
            } else {
                first = false;
            }
            match &srcs[i] {
                Some(src) => {
                    let cs = chars_of(src.as_str());
                    push_utf16le(&mut msg, cs.as_slice());
                    proof {
                        lemma_utf16le_len(cs@);
                    }
                },
                None => {
                    proof {
                        assert(chid_payload(sv, chid_type, i + 1) is None);
                        lemma_payload_none(sv, chid_type, i + 1, 12);
                        reveal(chid_spec_matches);
                        lemma_chid_for(sv, chid_type, None);
                    }
                    return None;
                },
            }
        }
        i += 1;
    }
    let mut ctx = Sha1Ctx::new();
    let ns: [u8; 16] = [0x70, 0xff, 0xd8, 0x12, 0x4c, 0x7f, 0x4c, 0x7d, 0, 0, 0, 0, 0, 0, 0, 0];
    assert(ns@ =~= chid_namespace_be());
    ctx.update(&ns);
    ctx.update(msg.as_slice());
    let d = ctx.digest();
    let ghost full = Seq::<u8>::empty() + chid_namespace_be() + msg@;
    assert(full =~= chid_namespace_be() + msg@);
    let data3 = ((d[6] as u16) * 256 + d[7] as u16) % 4096 + 0x5000;
    let g = Guid {
        data1: (d[0] as u32) * 0x100_0000 + (d[1] as u32) * 0x1_0000 + (d[2] as u32) * 0x100 + d[3] as u32,
        data2: (d[4] as u16) * 256 + d[5] as u16,
        data3,
        data4: [d[8] % 64 + 0x80, d[9], d[10], d[11], d[12], d[13], d[14], d[15]],
    };
    proof {
        reveal(chid_spec_matches);
        lemma_chid_for(sv, chid_type, Some(g));
    }
    Some(g)
}

proof fn lemma_payload_none(srcs: Seq<Option<Seq<char>>>, t: usize, n: int, m: int)
    requires
        chid_payload(srcs, t, n) is None,
        0 <= n <= m,
    ensures
        chid_payload(srcs, t, m) is None,
    decreases m - n,
{
    if n < m {
        lemma_payload_none(srcs, t, n, m - 1);
    }
}

/// UTF-16LE takes at most four bytes per character.
proof fn lemma_utf16le_len(s: Seq<char>)
    ensures
        utf16le(s).len() <= 4 * s.len(),
    decreases s.len(),
{
    reveal_with_fuel(units_le_bytes, 3);
    if s.len() > 0 {
        lemma_utf16le_len(s.drop_last());
    }
}

/// Why the CHID sources could not be collected.
#[derive(Clone, Copy, Debug, PartialEq, Eq, Structural)]
pub enum ChidSourcesError {
    SmbiosError(SmbiosParseError),
    EdidError(EdidParseError),
}

impl From<SmbiosParseError> for ChidSourcesError {
    fn from(e: SmbiosParseError) -> (r: Self) {
        ChidSourcesError::SmbiosError(e)
    }
}

impl vstd::std_specs::convert::FromSpecImpl<SmbiosParseError> for ChidSourcesError {
    open spec fn obeys_from_spec() -> bool {
        true
    }

    open spec fn from_spec(e: SmbiosParseError) -> Self {
        ChidSourcesError::SmbiosError(e)
    }
}

impl From<EdidParseError> for ChidSourcesError {
    fn from(e: EdidParseError) -> (r: Self) {
        ChidSourcesError::EdidError(e)
    }
}

impl vstd::std_specs::convert::FromSpecImpl<EdidParseError> for ChidSourcesError {
    open spec fn obeys_from_spec() -> bool {
        true
    }

    open spec fn from_spec(e: EdidParseError) -> Self {
        ChidSourcesError::EdidError(e)
    }
}

impl ChidSourcesError {
    /// Human-readable description of the error.
    pub fn to_string(&self) -> (s: String)
        ensures
            s@ == match self {
                ChidSourcesError::SmbiosError(_) => "invalid SMBIOS data"@,
                ChidSourcesError::EdidError(e) => match e {
                    EdidParseError::InvalidSize => "EDID data is too small"@,
                    EdidParseError::InvalidHeader => "EDID header is invalid"@,
                    EdidParseError::InvalidPanelId => "Panel ID could not be found"@,
                },
            },
    {
        match self {
            ChidSourcesError::SmbiosError(e) => e.to_string(),
            ChidSourcesError::EdidError(e) => e.to_string(),
        }
    }
}

/// Converts a byte slice to a string slice if it is valid UTF-8.
///
/// Trusted: calls `core::str::from_utf8`, which std documents to succeed
/// exactly on valid UTF-8 and to return a view of the same bytes.
#[verifier::external_body]
pub(crate) fn utf8_str(s: &[u8]) -> (r: Option<&str>)
    ensures
        r is Some <==> valid_utf8(s@),
        r matches Some(x) ==> x.spec_bytes() == s@,
{
    core::str::from_utf8(s).ok()
}

/// The characters of the bytes `b`, when present and valid UTF-8.
pub open spec fn utf8_source(b: Option<Seq<u8>>) -> Option<Seq<char>> {
    match b {
        Some(bytes) => if valid_utf8(bytes) {
            Some(decode_utf8(bytes))
        } else {
            None
        },
        None => None,
    }
}

fn str_from_maybe_u8(s: Option<&[u8]>) -> (r: Option<String>)
    ensures
        opt_view(r) == utf8_source(
            match s {
                Some(x) => Some(x@),
                None => None,
            },
        ),
{
    match s {
        Some(b) => match utf8_str(b) {
            Some(x) => {
                let owned = x.to_owned();
                proof {
                    encode_utf8_decode_utf8(x@);
                }
                Some(owned)
            },
            None => None,
        },
        None => None,
    }
}

/// The text of the string referenced by the byte at offset `off` of the
/// structure that `sc` found in `s`: present when the string exists and is
/// valid UTF-8.
pub open spec fn found_string(s: Seq<u8>, sc: SmbiosScan, off: int) -> Option<Seq<char>> {
    match sc {
        SmbiosScan::Found { start, len, strings_len } => {
            let idx = s[start + off];
            if idx < 1 {
                None
            } else {
                utf8_source(
                    nul_piece(s.subrange(start + len, start + len + strings_len), (idx - 1) as nat),
                )
            }
        },
        _ => None,
    }
}

/// The byte at offset `off` of the structure that `sc` found in `s`, in
/// lower-case hex padded to `width` digits.
pub open spec fn found_hex(s: Seq<u8>, sc: SmbiosScan, off: int, width: nat) -> Option<Seq<char>> {
    match sc {
        SmbiosScan::Found { start, .. } => Some(hex(s[start + off] as nat, width)),
        _ => None,
    }
}

/// Whether version `maj.min` is at least 2.4.
pub open spec fn version_at_least_24(maj: u8, min: u8) -> bool {
    maj > 2 || (maj == 2 && min >= 4)
}

/// Whether the entry point `ep` (`_SM3_` or `_SM_`) announces SMBIOS 2.4 or
/// later; false for a truncated or unknown entry point.
pub open spec fn smbios_at_least_24(ep: Seq<u8>) -> bool {
    if ep.len() >= 5 && ep.subrange(0, 5) == seq![95u8, 83, 77, 51, 95] {
        ep.len() >= 24 && version_at_least_24(ep[7], ep[8])
    } else if ep.len() >= 4 && ep.subrange(0, 4) == seq![95u8, 83, 77, 95] {
        ep.len() >= 31 && version_at_least_24(ep[6], ep[7])
    } else {
        false
    }
}

/// The SMBIOS version an entry point announces: bytes 7 and 8 of a 64-bit
/// (`_SM3_`) entry point, bytes 6 and 7 of a 32-bit (`_SM_`) one; `None`
/// for a truncated or unknown entry point.
pub open spec fn entry_point_version(ep: Seq<u8>) -> Option<(u8, u8)> {
    if ep.len() >= 5 && ep.subrange(0, 5) == seq![95u8, 83, 77, 51, 95] {
        if ep.len() >= 24 {
            Some((ep[7], ep[8]))
        } else {
            None
        }
    } else if ep.len() >= 4 && ep.subrange(0, 4) == seq![95u8, 83, 77, 95] {
        if ep.len() >= 31 {
            Some((ep[6], ep[7]))
        } else {
            None
        }
    } else {
        None
    }
}

/// The CHID sources gathered from an SMBIOS entry point, its structure table
/// and an EDID: type 1 gives the manufacturer, family, product name and SKU,
/// type 2 the baseboard manufacturer and product, type 0 the BIOS vendor and
/// version (and, from SMBIOS 2.4, the release in two hex digits each), type
/// 3 the enclosure type in hex, and the EDID the panel ID. A malformed table
/// is an SMBIOS error; a failing EDID an EDID error.
pub open spec fn chid_sources_spec(ep: Option<Seq<u8>>, s: Seq<u8>, edid: Option<Seq<u8>>) -> Result<
    Seq<Option<Seq<char>>>,
    ChidSourcesError,
> {
    let sc1 = smbios_scan(s, 0, 1, 27);
    let sc2 = smbios_scan(s, 0, 2, 8);
    let at24 = match ep {
        Some(e) => smbios_at_least_24(e),
        None => false,
    };
    let sc0 = smbios_scan(s, 0, 0, if at24 { 26 } else { 20 });
    let sc3 = smbios_scan(s, 0, 3, 9);
    if sc1 is Invalid || sc2 is Invalid || sc0 is Invalid || sc3 is Invalid {
        Err(ChidSourcesError::SmbiosError(SmbiosParseError))
    } else {
        let panel: Result<Option<Seq<char>>, EdidParseError> = match edid {
            None => Ok(None),
            Some(e) => match edid_panel(e) {
                Ok(p) => Ok(Some(p)),
                Err(x) => Err(x),
            },
        };
        match panel {
            Err(x) => Err(ChidSourcesError::EdidError(x)),
            Ok(p) => Ok(
                seq![
                    found_string(s, sc1, 4),
                    found_string(s, sc1, 26),
                    found_string(s, sc1, 5),
                    found_string(s, sc1, 25),
                    found_string(s, sc2, 4),
                    found_string(s, sc2, 5),
                    found_string(s, sc0, 4),
                    found_string(s, sc0, 5),
                    if at24 { found_hex(s, sc0, 20, 2) } else { None },
                    if at24 { found_hex(s, sc0, 21, 2) } else { None },
                    found_hex(s, sc3, 5, 0),
                    p,
                ],
            ),
        }
    }
}

fn smbios_version_at_least_24(ep: &[u8]) -> (r: bool)
    ensures
        r == smbios_at_least_24(ep@),
{
    if ep.len() >= 5 && ep[0] == 95 && ep[1] == 83 && ep[2] == 77 && ep[3] == 51 && ep[4] == 95 {
        assert(ep@.subrange(0, 5) =~= seq![95u8, 83, 77, 51, 95]);
        match Smbios3EntryPoint::read_from_prefix(ep) {
            Some(e) => e.major_version > 2 || (e.major_version == 2 && e.minor_version >= 4),
            None => false,
        }
    } else if ep.len() >= 4 && ep[0] == 95 && ep[1] == 83 && ep[2] == 77 && ep[3] == 95 {
        proof {
            if ep@.len() >= 5 && ep@.subrange(0, 5) == seq![95u8, 83, 77, 51, 95] {
                assert(ep@.subrange(0, 5)[3] == 51);
            }
        }
        assert(ep@.subrange(0, 4) =~= seq![95u8, 83, 77, 95]);
        match SmbiosEntryPoint::read_from_prefix(ep) {
            Some(e) => e.major_version > 2 || (e.major_version == 2 && e.minor_version >= 4),
            None => false,
        }
    } else {
        proof {
            if ep@.len() >= 5 && ep@.subrange(0, 5) == seq![95u8, 83, 77, 51, 95] {
                assert(ep@.subrange(0, 5)[0] == 95 && ep@.subrange(0, 5)[1] == 83);
                assert(ep@.subrange(0, 5)[2] == 77 && ep@.subrange(0, 5)[3] == 51);
                assert(ep@.subrange(0, 5)[4] == 95);
            }
            if ep@.len() >= 4 && ep@.subrange(0, 4) == seq![95u8, 83, 77, 95] {
                assert(ep@.subrange(0, 4)[0] == 95 && ep@.subrange(0, 4)[1] == 83);
                assert(ep@.subrange(0, 4)[2] == 77 && ep@.subrange(0, 4)[3] == 95);
            }
        }
        false
    }
}

fn hex_string(n: u8, width: usize) -> (s: String)
    requires
        width <= 2,
    ensures
        s@ == hex(n as nat, width as nat),
{
    let mut v: Vec<char> = Vec::new();
    push_hex(&mut v, n as u64, width);
    string_from_chars(v.as_slice())
}

fn table_string(t: &SmbiosTable, idx: u8) -> (r: Option<String>)
    ensures
        opt_view(r) == if idx < 1 {
            None
        } else {
            utf8_source(nul_piece(t.strings@, (idx - 1) as nat))
        },
{
    let b = t.get_string(idx as usize);
    str_from_maybe_u8(b)
}

/// The system strings (manufacturer, family, product name, SKU) of the
/// type 1 structure; `None` if the table is malformed.
fn system_strings(smbios: &[u8]) -> (r: Option<
    (Option<String>, Option<String>, Option<String>, Option<String>),
>)
    ensures
        smbios_scan(smbios@, 0, 1, 27) is Invalid <==> r is None,
        r matches Some((a, b, c, d)) ==> {
            let sc = smbios_scan(smbios@, 0, 1, 27);
            &&& opt_view(a) == found_string(smbios@, sc, 4)
            &&& opt_view(b) == found_string(smbios@, sc, 26)
            &&& opt_view(c) == found_string(smbios@, sc, 5)
            &&& opt_view(d) == found_string(smbios@, sc, 25)
        },
{
    proof {
        lemma_smbios_scan_found(smbios@, 0, 1, 27);
    }
    match find_smbios_table_by_type(smbios, 1, 27) {
        Ok(t) => {
            let tb = SmbiosTableType1::parse(t.table);
            Some(
                (
                    table_string(&t, tb.manufacturer),
                    table_string(&t, tb.family),
                    table_string(&t, tb.product_name),
                    table_string(&t, tb.sku_number),
                ),
            )
        },
        Err(SmbiosError::TableNotFound) => Some((None, None, None, None)),
        Err(SmbiosError::InvalidTable) => None,
    }
}

/// The baseboard strings (manufacturer, product) of the type 2 structure;
/// `None` if the table is malformed.
fn baseboard_strings(smbios: &[u8]) -> (r: Option<(Option<String>, Option<String>)>)
    ensures
        smbios_scan(smbios@, 0, 2, 8) is Invalid <==> r is None,
        r matches Some((a, b)) ==> {
            let sc = smbios_scan(smbios@, 0, 2, 8);
            &&& opt_view(a) == found_string(smbios@, sc, 4)
            &&& opt_view(b) == found_string(smbios@, sc, 5)
        },
{
    proof {
        lemma_smbios_scan_found(smbios@, 0, 2, 8);
    }
    match find_smbios_table_by_type(smbios, 2, 8) {
        Ok(t) => {
            let tb = SmbiosTableType2::parse(t.table);
            Some((table_string(&t, tb.manufacturer), table_string(&t, tb.product_name)))
        },
        Err(SmbiosError::TableNotFound) => Some((None, None)),
        Err(SmbiosError::InvalidTable) => None,
    }
}

/// The BIOS strings (vendor, version, major and minor release) of the type
/// 0 structure, the releases only from SMBIOS 2.4; `None` if the table is
/// malformed.
fn bios_strings(smbios: &[u8], at24: bool) -> (r: Option<
    (Option<String>, Option<String>, Option<String>, Option<String>),
>)
    ensures
        ({
            let sc = smbios_scan(smbios@, 0, 0, if at24 { 26 } else { 20 });
            &&& sc is Invalid <==> r is None
            &&& r matches Some((a, b, c, d)) ==> {
                &&& opt_view(a) == found_string(smbios@, sc, 4)
                &&& opt_view(b) == found_string(smbios@, sc, 5)
                &&& opt_view(c) == if at24 { found_hex(smbios@, sc, 20, 2) } else { None }
                &&& opt_view(d) == if at24 { found_hex(smbios@, sc, 21, 2) } else { None }
            }
        }),
{
    proof {
        lemma_smbios_scan_found(smbios@, 0, 0, 26);
        lemma_smbios_scan_found(smbios@, 0, 0, 20);
    }
    if at24 {
        match find_smbios_table_by_type(smbios, 0, 26) {
            Ok(t) => {
                let tb = SmbiosTableType0_24::parse(t.table);
                Some(
                    (
                        table_string(&t, tb.vendor),
                        table_string(&t, tb.bios_version),
                        Some(hex_string(tb.bios_major_release, 2)),
                        Some(hex_string(tb.bios_minor_release, 2)),
                    ),
                )
            },
            Err(SmbiosError::TableNotFound) => Some((None, None, None, None)),
            Err(SmbiosError::InvalidTable) => None,
        }
    } else {
        match find_smbios_table_by_type(smbios, 0, 20) {
            Ok(t) => {
                let tb = SmbiosTableType0::parse(t.table);
                Some((table_string(&t, tb.vendor), table_string(&t, tb.bios_version), None, None))
            },
            Err(SmbiosError::TableNotFound) => Some((None, None, None, None)),
            Err(SmbiosError::InvalidTable) => None,
        }
    }
}

/// The enclosure type of the type 3 structure in hex; `None` if the table
/// is malformed.
fn enclosure_string(smbios: &[u8]) -> (r: Option<Option<String>>)
    ensures
        smbios_scan(smbios@, 0, 3, 9) is Invalid <==> r is None,
        r matches Some(a) ==> opt_view(a) == found_hex(smbios@, smbios_scan(smbios@, 0, 3, 9), 5, 0),
{
    proof {
        lemma_smbios_scan_found(smbios@, 0, 3, 9);
    }
    match find_smbios_table_by_type(smbios, 3, 9) {
        Ok(t) => {
            let tb = SmbiosTableType3::parse(t.table);
            Some(Some(hex_string(tb.type_, 0)))
        },
        Err(SmbiosError::TableNotFound) => Some(None),
        Err(SmbiosError::InvalidTable) => None,
    }
}

/// The panel ID of an EDID.
fn edid_panel_string(e: &[u8]) -> (r: Result<String, EdidParseError>)
    ensures
        match edid_panel(e@) {
            Ok(p) => r matches Ok(x) && x@ == p,
            Err(x) => r == Err::<String, EdidParseError>(x),
        },
{
    let parsed = ParsedEdid::parse(e)?;
    parsed.panel_id()
}

/// Gathers the CHID sources from the SMBIOS entry point `smbios_ep` (if
/// known), the SMBIOS structure table `smbios` and the EDID `edid` (if any).
pub fn chid_sources_from_smbios_and_edid(
    smbios_ep: Option<&[u8]>,
    smbios: &[u8],
    edid: Option<&[u8]>,
) -> (r: Result<ChidSources, ChidSourcesError>)
    ensures
        match chid_sources_spec(
            match smbios_ep {
                Some(e) => Some(e@),
                None => None,
            },
            smbios@,
            match edid {
                Some(e) => Some(e@),
                None => None,
            },
        ) {
            Ok(v) => r matches Ok(x) && sources_view(x) == v,
            Err(e) => r == Err::<ChidSources, ChidSourcesError>(e),
        },
{
    let sys = system_strings(smbios);
    let board = baseboard_strings(smbios);
    let at24 = match smbios_ep {
        Some(ep) => smbios_version_at_least_24(ep),
        None => false,
    };
    let bios = bios_strings(smbios, at24);
    let encl = enclosure_string(smbios);
    let (manufacturer, family, product_name, sku) = match sys {
        Some(x) => x,
        None => {
            return Err(ChidSourcesError::SmbiosError(SmbiosParseError));
        },
    };
    let (board_manufacturer, board_product) = match board {
        Some(x) => x,
        None => {
            return Err(ChidSourcesError::SmbiosError(SmbiosParseError));
        },
    };
    let (bios_vendor, bios_version, bios_major, bios_minor) = match bios {
        Some(x) => x,
        None => {
            return Err(ChidSourcesError::SmbiosError(SmbiosParseError));
        },
    };
    let enclosure = match encl {
        Some(x) => x,
        None => {
            return Err(ChidSourcesError::SmbiosError(SmbiosParseError));
        },
    };
    let panel = match edid {
        Some(e) => match edid_panel_string(e) {
            Ok(p) => Some(p),
            Err(x) => {
                return Err(ChidSourcesError::EdidError(x));
            },
        },
        None => None,
    };
    let srcs: ChidSources = [
        manufacturer,
        family,
        product_name,
        sku,
        board_manufacturer,
        board_product,
        bios_vendor,
        bios_version,
        bios_major,
        bios_minor,
        enclosure,
        panel,
    ];
    proof {
        let ghost v = chid_sources_spec(
            match smbios_ep {
                Some(e) => Some(e@),
                None => None,
            },
            smbios@,
            match edid {
                Some(e) => Some(e@),
                None => None,
            },
        )->Ok_0;
        assert(sources_view(srcs) =~= v);
    }
    Ok(srcs)
}

} // verus!
