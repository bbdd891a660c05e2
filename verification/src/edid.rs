//! EDID (display identification data) header parsing and panel IDs.
use vstd::prelude::*;
use crate::bytes::{be16, le16, le32, read_be16, read_le16, read_le32};
use crate::text::{digit_char, string_from_chars};
use vstd::string::StringExecFns;

verus! {

/// The fixed 8-byte pattern every EDID starts with.
pub const EDID_PATTERN: [u8; 8] = [0x00, 0xff, 0xff, 0xff, 0xff, 0xff, 0xff, 0x00];

/// Minimum size of an EDID blob.
pub const EDID_MIN_SIZE: usize = 128;

/// Header of an EDID, with multi-byte fields in host order.
#[derive(Clone, Copy, Debug)]
pub struct EdidHeader {
    pub pattern: [u8; 8],
    /// Manufacturer ID (stored big-endian).
    pub manufacturer_id: u16,
    /// Manufacturer product code (stored little-endian).
    pub manufacturer_product_code: u16,
    /// Serial number (stored little-endian).
    pub serial_number: u32,
    pub week_of_manufacture: u8,
    pub year_of_manufacture: u8,
    pub edid_version: u8,
    pub edid_revision: u8,
}

/// A parsed EDID.
#[derive(Clone, Copy, Debug)]
pub struct ParsedEdid {
    pub header: EdidHeader,
}

/// Errors from EDID parsing.
#[derive(Clone, Copy, Debug, PartialEq, Eq, Structural)]
pub enum EdidParseError {
    InvalidSize,
    InvalidHeader,
    InvalidPanelId,
}

impl EdidParseError {
    /// Human-readable description of the error.
    pub fn to_string(&self) -> (s: String)
        ensures
            s@ == match self {
                EdidParseError::InvalidSize => "EDID data is too small"@,
                EdidParseError::InvalidHeader => "EDID header is invalid"@,
                EdidParseError::InvalidPanelId => "Panel ID could not be found"@,
            },
    {
        match self {
            EdidParseError::InvalidSize => String::from_str("EDID data is too small"),
            EdidParseError::InvalidHeader => String::from_str("EDID header is invalid"),
            EdidParseError::InvalidPanelId => String::from_str("Panel ID could not be found"),
        }
    }
}

/// Whether `data` starts with the EDID pattern.
pub open spec fn has_edid_pattern(data: Seq<u8>) -> bool {
    data[0] == 0x00 && data[1] == 0xff && data[2] == 0xff && data[3] == 0xff && data[4] == 0xff
        && data[5] == 0xff && data[6] == 0xff && data[7] == 0x00
}

/// The header decoded from the first 20 bytes of `data`.
pub open spec fn edid_header_of(h: EdidHeader, data: Seq<u8>) -> bool {
    &&& h.pattern@ == data.subrange(0, 8)
    &&& h.manufacturer_id == be16(data, 8)
    &&& h.manufacturer_product_code == le16(data, 10)
    &&& h.serial_number == le32(data, 12)
    &&& h.week_of_manufacture == data[16]
    &&& h.year_of_manufacture == data[17]
    &&& h.edid_version == data[18]
    &&& h.edid_revision == data[19]
}

/// The letter encoded by a 5-bit manufacturer code (1 is `A`).
pub open spec fn mfr_letter_spec(v: int) -> Option<char> {
    if 1 <= v <= 26 {
        Some((64 + v) as char)
    } else {
        None
    }
}

/// The panel ID for manufacturer ID `m` and product code `p`: three
/// manufacturer letters followed by the product code in four lower-case hex
/// digits; `None` if a letter is invalid.
pub open spec fn panel_id_of(m: int, p: int) -> Option<Seq<char>> {
    match (
        mfr_letter_spec((m / 1024) % 32),
        mfr_letter_spec((m / 32) % 32),
        mfr_letter_spec(m % 32),
    ) {
        (Some(a), Some(b), Some(c)) => Some(
            seq![
                a,
                b,
                c,
                digit_char((p / 4096) % 16),
                digit_char((p / 256) % 16),
                digit_char((p / 16) % 16),
                digit_char(p % 16),
            ],
        ),
        _ => None,
    }
}

/// The panel ID of a header.
pub open spec fn panel_id_spec(h: EdidHeader) -> Option<Seq<char>> {
    panel_id_of(h.manufacturer_id as int, h.manufacturer_product_code as int)
}

/// The panel ID of raw EDID data, or the error that parsing it and
/// deriving the ID gives.
pub open spec fn edid_panel(data: Seq<u8>) -> Result<Seq<char>, EdidParseError> {
    if data.len() < 128 {
        Err(EdidParseError::InvalidSize)
    } else if !has_edid_pattern(data) {
        Err(EdidParseError::InvalidHeader)
    } else {
        match panel_id_of(be16(data, 8), le16(data, 10)) {
            Some(p) => Ok(p),
            None => Err(EdidParseError::InvalidPanelId),
        }
    }
}

fn mfr_letter(val: u16) -> (r: Result<char, EdidParseError>)
    requires
        val < 32,
    ensures
        match mfr_letter_spec(val as int) {
            Some(c) => r == Ok::<char, EdidParseError>(c),
            None => r == Err::<char, EdidParseError>(EdidParseError::InvalidPanelId),
        },
{
    if 1 <= val && val <= 26 {
        Ok(((64 + val) as u8) as char)
    } else {
        Err(EdidParseError::InvalidPanelId)
    }
}

fn hex_lower(d: u16) -> (c: char)
    requires
        d < 16,
    ensures
        c == digit_char(d as int),
{
    if d < 10 {
        ((48 + d) as u8) as char
    } else {
        ((87 + d) as u8) as char
    }
}

impl ParsedEdid {
    /// Parses the header of an EDID of at least 128 bytes.
    pub fn parse(edid_data: &[u8]) -> (r: Result<ParsedEdid, EdidParseError>)
        ensures
            edid_data@.len() < 128 ==> r == Err::<ParsedEdid, EdidParseError>(
                EdidParseError::InvalidSize,
            ),
            edid_data@.len() >= 128 && !has_edid_pattern(edid_data@) ==> r == Err::<
                ParsedEdid,
                EdidParseError,
            >(EdidParseError::InvalidHeader),
            edid_data@.len() >= 128 && has_edid_pattern(edid_data@) ==> (r matches Ok(e)
                && edid_header_of(e.header, edid_data@)),
    {
        if edid_data.len() < EDID_MIN_SIZE {
            return Err(EdidParseError::InvalidSize);
        }
        let mut pattern = [0u8; 8];
        let mut i: usize = 0;
        while i < 8
            invariant
                i <= 8,
                edid_data@.len() >= 128,
                forall|j: int| 0 <= j < i ==> #[trigger] pattern@[j] == edid_data@[j],
            decreases 8 - i,
        {
            pattern[i] = edid_data[i];
            i += 1;
        }
        if pattern[0] != 0x00 || pattern[1] != 0xff || pattern[2] != 0xff || pattern[3] != 0xff
            || pattern[4] != 0xff || pattern[5] != 0xff || pattern[6] != 0xff || pattern[7]
            != 0x00 {
            return Err(EdidParseError::InvalidHeader);
        }
        let header = EdidHeader {
            pattern,
            manufacturer_id: read_be16(edid_data, 8),
            manufacturer_product_code: read_le16(edid_data, 10),
            serial_number: read_le32(edid_data, 12),
            week_of_manufacture: edid_data[16],
            year_of_manufacture: edid_data[17],
            edid_version: edid_data[18],
            edid_revision: edid_data[19],
        };
        assert(header.pattern@ =~= edid_data@.subrange(0, 8));
        Ok(ParsedEdid { header })
    }

    /// The panel ID, e.g. `LCD89ab`.
    pub fn panel_id(&self) -> (r: Result<String, EdidParseError>)
        ensures
            match panel_id_spec(self.header) {
                Some(s) => r matches Ok(x) && x@ == s,
                None => r matches Err(e) && e == EdidParseError::InvalidPanelId,
            },
    {
        let m = self.header.manufacturer_id;
        let p = self.header.manufacturer_product_code;
        let a = match mfr_letter((m / 1024) % 32) {
            Ok(c) => c,
            Err(e) => return Err(e),
        };
        let b = match mfr_letter((m / 32) % 32) {
            Ok(c) => c,
            Err(e) => return Err(e),
        };
        let c = match mfr_letter(m % 32) {
            Ok(c) => c,
            Err(e) => return Err(e),
        };
        let mut s: Vec<char> = Vec::new();
        s.push(a);
        s.push(b);
        s.push(c);
        s.push(hex_lower((p / 4096) % 16));
        s.push(hex_lower((p / 256) % 16));
        s.push(hex_lower((p / 16) % 16));
        s.push(hex_lower(p % 16));
        Ok(string_from_chars(s.as_slice()))
    }
}

} // verus!
