//! Recognising the video ports among the DRM devices of a running system,
//! whose EDIDs identify the internal panel.
use vstd::prelude::*;

verus! {

/// Whether the regular expression `pattern` matches somewhere in
/// `haystack`; `None` where the pattern does not compile.
pub uninterp spec fn regex_bytes_match(pattern: Seq<char>, haystack: Seq<u8>) -> Option<bool>;

/// Searches `haystack` for the regular expression `pattern`.
///
/// Trusted: compiles `pattern` with `regex::bytes::Regex::new` (`None` on
/// a compile error) and runs `Regex::is_match`, whose answer depends on the
/// pattern and the bytes alone.
#[verifier::external_body]
fn regex_is_match(pattern: &str, haystack: &[u8]) -> (r: Option<bool>)
    ensures
        r == regex_bytes_match(pattern@, haystack@),
{
    match regex::bytes::Regex::new(pattern) {
        Ok(re) => Some(re.is_match(haystack)),
        Err(_) => None,
    }
}

/// The pattern of a video port in a DRM device path: `card`, the card's
/// number and a dash, as in `card0-eDP-1`.
pub open spec fn video_port_pattern() -> Seq<char> {
    "card\\d+-"@
}

/// Whether the DRM device at `path` is a video port, whose directory may
/// hold an EDID; whole cards and other devices are not.
pub fn is_video_port(path: &[u8]) -> (r: bool)
    ensures
        r == (regex_bytes_match(video_port_pattern(), path@) == Some(true)),
{
    match regex_is_match("card\\d+-", path) {
        Some(b) => b,
        None => false,
    }
}

} // verus!
