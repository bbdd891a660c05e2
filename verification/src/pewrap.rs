//! Wrapping a kernel and its companions into a Stubble PE image: checking
//! the input sections, and turning HWID descriptions into CHID mappings.
use vstd::prelude::*;
use vstd::string::StringSliceAdditionalSpecFns;
use vstd::utf8::encode_utf8;
use crate::bytes::{be32, le16, le32};
use crate::chid_mapping::{opt_str_view, ChidMapping};
use crate::grub::opt_text;
use crate::guid::{guid_matches_text, is_guid_text, Guid, GuidParseError};
use crate::pe_rebuilder::{can_add_section, section_appended, PeRebuilder};
use crate::peimage::{
    parse_pe, pe_error_text, pe_layout, NtHeaders64, OptionalHeader64, PeError,
    DLLCHARACTERISTICS_NX_COMPAT, SCN_CNT_INITIALIZED_DATA, SCN_MEM_READ,
};
use crate::text::{chars_eq, chars_of};

verus! {

/// Why a device tree blob was refused.
#[derive(Clone, Copy, Debug, PartialEq, Eq, Structural)]
pub enum DtbError {
    BadMagic,
    BadPtr,
    BufferTooSmall,
}

/// The description of a device tree error.
pub open spec fn dtb_error_text(e: DtbError) -> Seq<char> {
    match e {
        DtbError::BadMagic => "bad FDT magic value"@,
        DtbError::BadPtr => "an invalid pointer was passed"@,
        DtbError::BufferTooSmall => "the given buffer was too small to contain a FDT header"@,
    }
}

impl DtbError {
    /// Human-readable description of the error.
    pub fn to_string(&self) -> (s: String)
        ensures
            s@ == dtb_error_text(*self),
    {
        match self {
            DtbError::BadMagic => String::from_str("bad FDT magic value"),
            DtbError::BadPtr => String::from_str("an invalid pointer was passed"),
            DtbError::BufferTooSmall => String::from_str(
                "the given buffer was too small to contain a FDT header",
            ),
        }
    }
}

/// What opening a device tree blob checks: a header of ten big-endian
/// words, its magic, and a total size that the buffer holds.
pub open spec fn dtb_check(d: Seq<u8>) -> Result<(), DtbError> {
    if d.len() < 40 {
        Err(DtbError::BufferTooSmall)
    } else if be32(d, 0) != 0xd00dfeed {
        Err(DtbError::BadMagic)
    } else if d.len() < be32(d, 4) {
        Err(DtbError::BufferTooSmall)
    } else {
        Ok(())
    }
}

/// Opens a device tree blob.
///
/// Trusted: calls `fdt::Fdt::new`, which reads the ten header words (failing
/// with `BufferTooSmall` when they do not fit), then fails with `BadMagic`
/// unless the first is `0xd00dfeed` and with `BufferTooSmall` when the
/// buffer is shorter than the second, the total size.
#[verifier::external_body]
fn open_dtb(d: &[u8]) -> (r: Result<(), DtbError>)
    ensures
        r == dtb_check(d@),
{
    match fdt::Fdt::new(d) {
        Ok(_) => Ok(()),
        Err(fdt::FdtError::BadMagic) => Err(DtbError::BadMagic),
        Err(fdt::FdtError::BadPtr) => Err(DtbError::BadPtr),
        Err(fdt::FdtError::BufferTooSmall) => Err(DtbError::BufferTooSmall),
    }
}

/// Why an input section was refused.
#[derive(Clone, Copy, Debug, PartialEq, Eq)]
pub enum InputSectionError {
    /// The kernel cannot take its initrd through LoadFile2.
    KernelLacksLoadFile2,
    InvalidKernel(PeError),
    InvalidDtb(DtbError),
}

impl InputSectionError {
    /// Human-readable description of the error.
    pub fn to_string(&self) -> (s: String)
        ensures
            s@ == match self {
                InputSectionError::KernelLacksLoadFile2 =>
                    "Linux kernel PE image does not support LoadFile2 initrd"@,
                InputSectionError::InvalidKernel(e) => "invalid Linux kernel PE image: "@
                    + pe_error_text(*e),
                InputSectionError::InvalidDtb(e) => "invalid device tree blob: "@ + dtb_error_text(
                    *e,
                ),
            },
    {
        match self {
            InputSectionError::KernelLacksLoadFile2 => String::from_str(
                "Linux kernel PE image does not support LoadFile2 initrd",
            ),
            InputSectionError::InvalidKernel(e) => {
                let mut s = String::from_str("invalid Linux kernel PE image: ");
                let t = e.to_string();
                s.append(t.as_str());
                s
            },
            InputSectionError::InvalidDtb(e) => {
                let mut s = String::from_str("invalid device tree blob: ");
                let t = e.to_string();
                s.append(t.as_str());
                s
            },
        }
    }
}

/// The major image version that the kernel image `k` declares.
pub open spec fn kernel_major_version(k: Seq<u8>) -> int {
    le16(k, le32(k, 60) + 24 + 44)
}

/// The DLL characteristics that the kernel image `k` declares.
pub open spec fn kernel_dll_characteristics(k: Seq<u8>) -> int {
    le16(k, le32(k, 60) + 24 + 70)
}

/// What an input file named `name` must pass: a kernel (`.linux`) must be
/// a PE image supporting LoadFile2 (major image version 1 or later), a
/// device tree (`.dtbauto`) must open; other sections are taken as they
/// are.
pub open spec fn input_check(name: Seq<char>, d: Seq<u8>) -> Result<(), InputSectionError> {
    if name == ".linux"@ {
        match pe_layout(d) {
            Err(e) => Err(InputSectionError::InvalidKernel(e)),
            Ok(_) => if kernel_major_version(d) < 1 {
                Err(InputSectionError::KernelLacksLoadFile2)
            } else {
                Ok(())
            },
        }
    } else if name == ".dtbauto"@ {
        match dtb_check(d) {
            Err(e) => Err(InputSectionError::InvalidDtb(e)),
            Ok(()) => Ok(()),
        }
    } else {
        Ok(())
    }
}

/// The headers of the wrapped image once the kernel `k` has been taken in:
/// it declares LoadFile2 support and the kernel's NX compatibility.
pub open spec fn with_kernel(nt: NtHeaders64, k: Seq<u8>) -> NtHeaders64 {
    let nx = DLLCHARACTERISTICS_NX_COMPAT;
    NtHeaders64 {
        optional_header: OptionalHeader64 {
            major_image_version: 1,
            dll_characteristics: if (kernel_dll_characteristics(k) as u16 & nx) != 0 {
                nt.optional_header.dll_characteristics | nx
            } else {
                nt.optional_header.dll_characteristics & !nx
            },
            ..nt.optional_header
        },
        ..nt
    }
}

/// Adds the contents of an input file as the section `name`, after the
/// checks of `input_check`; a kernel also passes its LoadFile2 support and
/// NX compatibility on to the image. Nothing changes when a check fails.
pub fn add_input_section(bld: &mut PeRebuilder, name: &str, data: Vec<u8>) -> (r: Result<
    (),
    InputSectionError,
>)
    requires
        can_add_section(old(bld).sections@, old(bld).nt_hdrs, data@.len()),
        name@ == ".linux"@ ==> (pe_layout(data@) is Ok ==> le32(data@, 60) >= 64),
    ensures
        r == input_check(name@, data@),
        r is Err ==> *final(bld) == *old(bld),
        r is Ok ==> {
            &&& final(bld).dos_hdr == old(bld).dos_hdr
            &&& final(bld).dos_data == old(bld).dos_data
            &&& final(bld).nt_data == old(bld).nt_data
            &&& final(bld).nt_hdrs == if name@ == ".linux"@ {
                with_kernel(old(bld).nt_hdrs, data@)
            } else {
                old(bld).nt_hdrs
            }
            &&& section_appended(
                old(bld).sections@,
                final(bld).sections@,
                old(bld).nt_hdrs,
                name.spec_bytes(),
                data,
                SCN_CNT_INITIALIZED_DATA | SCN_MEM_READ,
            )
        },
{
    let n = chars_of(name);
    let linux = chars_of(".linux");
    let dtbauto = chars_of(".dtbauto");
    if chars_eq(n.as_slice(), linux.as_slice()) {
        match parse_pe(data.as_slice()) {
            Ok(pe) => {
                proof {
                    assert(pe.nt_hdrs.optional_header.major_image_version == kernel_major_version(
                        data@,
                    ));
                    assert(pe.nt_hdrs.optional_header.dll_characteristics
                        == kernel_dll_characteristics(data@));
                }
                if !bld.adopt_kernel_properties(&pe) {
                    return Err(InputSectionError::KernelLacksLoadFile2);
                }
            },
            Err(e) => {
                return Err(InputSectionError::InvalidKernel(e));
            },
        }
    } else if chars_eq(n.as_slice(), dtbauto.as_slice()) {
        match open_dtb(data.as_slice()) {
            Ok(()) => {},
            Err(e) => {
                return Err(InputSectionError::InvalidDtb(e));
            },
        }
    }
    bld.add_section(name, data, SCN_CNT_INITIALIZED_DATA | SCN_MEM_READ);
    Ok(())
}

/// A HWID description: the kind of mapping, its name, the device tree
/// compatible or the firmware id it selects, and the CHIDs it applies to.
#[derive(Debug, Clone, PartialEq, Eq)]
pub struct HwidJson {
    pub type_: String,
    pub name: Option<String>,
    pub compatible: Option<String>,
    pub fwid: Option<String>,
    pub hwids: Vec<String>,
}

/// Errors that can occur when generating CHID mappings from HWID JSON.
#[derive(Debug, Clone, PartialEq, Eq)]
pub enum GenerateChidMappingsError {
    UnknownType(String),
    GuidParseError(GuidParseError),
}

impl GenerateChidMappingsError {
    /// Human-readable description of the error.
    pub fn to_string(&self) -> (s: String)
        ensures
            s@ == match self {
                GenerateChidMappingsError::UnknownType(t) => "unknown HWID type: "@ + t@,
                GenerateChidMappingsError::GuidParseError(_) => "invalid GUID format"@,
            },
    {
        match self {
            GenerateChidMappingsError::UnknownType(t) => {
                let mut s = String::from_str("unknown HWID type: ");
                s.append(t.as_str());
                s
            },
            GenerateChidMappingsError::GuidParseError(e) => e.to_string(),
        }
    }
}

/// The kind of mapping a HWID type names: `Some(true)` for a device tree,
/// `Some(false)` for UEFI firmware, `None` for any other type.
pub open spec fn hwid_kind(t: Seq<char>) -> Option<bool> {
    if t == "devicetree"@ {
        Some(true)
    } else if t == "uefi-fw"@ {
        Some(false)
    } else {
        None
    }
}

/// The index of the first HWID from `i` on that is no GUID, or the number
/// of HWIDs.
pub open spec fn first_bad_hwid(hs: Seq<String>, i: nat) -> nat
    decreases hs.len() - i,
{
    if i >= hs.len() {
        hs.len()
    } else if !is_guid_text(encode_utf8(hs[i as int]@)) {
        i
    } else {
        first_bad_hwid(hs, i + 1)
    }
}

proof fn lemma_first_bad_hwid_ge(hs: Seq<String>, i: nat)
    ensures
        first_bad_hwid(hs, i) >= i || first_bad_hwid(hs, i) == hs.len(),
        first_bad_hwid(hs, i) <= hs.len(),
    decreases hs.len() - i,
{
    if i < hs.len() && is_guid_text(encode_utf8(hs[i as int]@)) {
        lemma_first_bad_hwid_ge(hs, i + 1);
    }
}

/// How many mappings a HWID description yields: one per HWID before the
/// first that is no GUID, none for an unknown type.
pub open spec fn mapping_count(j: HwidJson) -> nat {
    if hwid_kind(j.type_@) is Some {
        first_bad_hwid(j.hwids@, 0)
    } else {
        0
    }
}

/// `m` is the mapping that the description `j` yields for the HWID `hw`.
pub open spec fn mapping_of(j: HwidJson, hw: Seq<char>, m: ChidMapping) -> bool {
    match m {
        ChidMapping::DeviceTree { chid, name, compatible } => {
            &&& hwid_kind(j.type_@) == Some(true)
            &&& guid_matches_text(chid, encode_utf8(hw))
            &&& opt_str_view(name) == opt_text(j.name)
            &&& opt_str_view(compatible) == opt_text(j.compatible)
        },
        ChidMapping::UefiFw { chid, name, fwid } => {
            &&& hwid_kind(j.type_@) == Some(false)
            &&& guid_matches_text(chid, encode_utf8(hw))
            &&& opt_str_view(name) == opt_text(j.name)
            &&& opt_str_view(fwid) == opt_text(j.fwid)
        },
        ChidMapping::Unknown { .. } => false,
    }
}

/// What generating the mappings of `j` returns: each HWID is parsed in
/// turn, and its mapping's type checked after it.
pub open spec fn generate_outcome(j: HwidJson) -> Result<(), GenerateChidMappingsError> {
    let n = j.hwids@.len();
    let k = first_bad_hwid(j.hwids@, 0);
    if k < n && (hwid_kind(j.type_@) is Some || k == 0) {
        Err(GenerateChidMappingsError::GuidParseError(GuidParseError))
    } else if hwid_kind(j.type_@) is None && n > 0 {
        Err(GenerateChidMappingsError::UnknownType(j.type_))
    } else {
        Ok(())
    }
}

fn opt_as_str<'a>(o: &'a Option<String>) -> (r: Option<&'a str>)
    ensures
        opt_str_view(r) == opt_text(*o),
{
    match o {
        Some(s) => Some(s.as_str()),
        None => None,
    }
}

impl HwidJson {
    /// Appends to `v` the CHID mapping of each HWID, of the kind the type
    /// names; stops at the first HWID that is no GUID or at an unknown type.
    pub fn generate_chid_mappings<'s>(&'s self, v: &mut Vec<ChidMapping<'s>>) -> (r: Result<
        (),
        GenerateChidMappingsError,
    >)
        ensures
            r == generate_outcome(*self),
            final(v)@.len() == old(v)@.len() + mapping_count(*self),
            final(v)@.take(old(v)@.len() as int) == old(v)@,
            forall|i: int|
                0 <= i < mapping_count(*self) ==> mapping_of(
                    *self,
                    self.hwids@[i]@,
                    #[trigger] final(v)@[old(v)@.len() + i],
                ),
    {
        let t = chars_of(self.type_.as_str());
        let dt = chars_of("devicetree");
        let fw = chars_of("uefi-fw");
        let is_dt = chars_eq(t.as_slice(), dt.as_slice());
        let is_fw = chars_eq(t.as_slice(), fw.as_slice());
        proof {
            reveal_strlit("devicetree");
            reveal_strlit("uefi-fw");
            assert("uefi-fw"@.len() != "devicetree"@.len());
        }
        let ghost start = v@;
        let mut i: usize = 0;
        while i < self.hwids.len()
            invariant
                i <= self.hwids@.len(),
                start == old(v)@,
                is_dt == (hwid_kind(self.type_@) == Some(true)),
                is_fw == (hwid_kind(self.type_@) == Some(false)),
                first_bad_hwid(self.hwids@, 0) == first_bad_hwid(self.hwids@, i as nat),
                (is_dt || is_fw) || i == 0,
                v@.len() == start.len() + i,
                v@.take(start.len() as int) == start,
                forall|k: int|
                    0 <= k < i ==> mapping_of(*self, self.hwids@[k]@, #[trigger] v@[start.len() + k]),
            decreases self.hwids@.len() - i,
        {
            let h = &self.hwids[i];
            let g = match Guid::try_from_str(h.as_str()) {
                Ok(g) => g,
                Err(e) => {
                    proof {
                        assert(first_bad_hwid(self.hwids@, i as nat) == i);
                    }
                    return Err(GenerateChidMappingsError::GuidParseError(e));
                },
            };
            proof {
                assert(first_bad_hwid(self.hwids@, i as nat) == first_bad_hwid(
                    self.hwids@,
                    (i + 1) as nat,
                ));
            }
            let ghost before = v@;
            if is_dt {
                v.push(
                    ChidMapping::DeviceTree {
                        chid: g,
                        name: opt_as_str(&self.name),
                        compatible: opt_as_str(&self.compatible),
                    },
                );
            } else if is_fw {
                v.push(
                    ChidMapping::UefiFw {
                        chid: g,
                        name: opt_as_str(&self.name),
                        fwid: opt_as_str(&self.fwid),
                    },
                );
            } else {
                proof {
                    lemma_first_bad_hwid_ge(self.hwids@, 1);
                }
                return Err(GenerateChidMappingsError::UnknownType(self.type_.clone()));
            }
            proof {
                assert(v@.take(start.len() as int) =~= before.take(start.len() as int));
                assert forall|k: int| 0 <= k < i + 1 implies mapping_of(
                    *self,
                    self.hwids@[k]@,
                    #[trigger] v@[start.len() + k],
                ) by {
                    if k < i {
                        assert(v@[start.len() + k] == before[start.len() + k]);
                    }
                }
            }
            i += 1;
        }
        Ok(())
    }
}

} // verus!
