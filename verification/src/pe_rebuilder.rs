//! Rebuilding a PE image with added sections: the headers and sections of
//! a parsed image are taken over, sections are appended, the file layout
//! and the size fields are recomputed, and the image is written out.
use vstd::prelude::*;
use vstd::string::StringSliceAdditionalSpecFns;
use crate::bytes::{le16, le16_bytes, lemma_le16_roundtrip, lemma_le32_roundtrip, le32, le32_bytes, le64_bytes, push_all, push_le16, push_le32, push_le64, push_zeros};
use crate::peimage::{
    pe_layout, pe_of, section_header_at, section_item_ok, DosHeader, FileHeader, NtHeaders64, OptionalHeader64,
    PeError, PeRef, SectionHeader, SCN_CNT_CODE, SCN_CNT_INITIALIZED_DATA,
    SCN_CNT_UNINITIALIZED_DATA,
};

verus! {

/// Part 1 of the little-endian bytes of a DosHeader.
#[verifier::opaque]
pub open spec fn dos_header_bytes_1(h: DosHeader) -> Seq<u8> {
    le16_bytes(h.e_magic as int)
        + le16_bytes(h.e_cblp as int)
        + le16_bytes(h.e_cp as int)
        + le16_bytes(h.e_crlc as int)
        + le16_bytes(h.e_cparhdr as int)
        + le16_bytes(h.e_minalloc as int)
        + le16_bytes(h.e_maxalloc as int)
        + le16_bytes(h.e_ss as int)
}

fn push_dos_header_1(h: &DosHeader, out: &mut Vec<u8>)
    ensures
        final(out)@ == old(out)@ + dos_header_bytes_1(*h),
{
    reveal(dos_header_bytes_1);
    push_le16(out, h.e_magic);
    push_le16(out, h.e_cblp);
    push_le16(out, h.e_cp);
    push_le16(out, h.e_crlc);
    push_le16(out, h.e_cparhdr);
    push_le16(out, h.e_minalloc);
    push_le16(out, h.e_maxalloc);
    push_le16(out, h.e_ss);
    assert(out@ =~= old(out)@ + dos_header_bytes_1(*h));
}

/// Part 2 of the little-endian bytes of a DosHeader.
#[verifier::opaque]
pub open spec fn dos_header_bytes_2(h: DosHeader) -> Seq<u8> {
    le16_bytes(h.e_sp as int)
        + le16_bytes(h.e_csum as int)
        + le16_bytes(h.e_ip as int)
        + le16_bytes(h.e_cs as int)
        + le16_bytes(h.e_lfarlc as int)
        + le16_bytes(h.e_ovno as int)
        + le16_bytes(h.e_res[0] as int)
        + le16_bytes(h.e_res[1] as int)
}

fn push_dos_header_2(h: &DosHeader, out: &mut Vec<u8>)
    ensures
        final(out)@ == old(out)@ + dos_header_bytes_2(*h),
{
    reveal(dos_header_bytes_2);
    push_le16(out, h.e_sp);
    push_le16(out, h.e_csum);
    push_le16(out, h.e_ip);
    push_le16(out, h.e_cs);
    push_le16(out, h.e_lfarlc);
    push_le16(out, h.e_ovno);
    push_le16(out, h.e_res[0]);
    push_le16(out, h.e_res[1]);
    assert(out@ =~= old(out)@ + dos_header_bytes_2(*h));
}

/// Part 3 of the little-endian bytes of a DosHeader.
#[verifier::opaque]
pub open spec fn dos_header_bytes_3(h: DosHeader) -> Seq<u8> {
    le16_bytes(h.e_res[2] as int)
        + le16_bytes(h.e_res[3] as int)
        + le16_bytes(h.e_oemid as int)
        + le16_bytes(h.e_oeminfo as int)
        + le16_bytes(h.e_res2[0] as int)
        + le16_bytes(h.e_res2[1] as int)
        + le16_bytes(h.e_res2[2] as int)
        + le16_bytes(h.e_res2[3] as int)
}

fn push_dos_header_3(h: &DosHeader, out: &mut Vec<u8>)
    ensures
        final(out)@ == old(out)@ + dos_header_bytes_3(*h),
{
    reveal(dos_header_bytes_3);
    push_le16(out, h.e_res[2]);
    push_le16(out, h.e_res[3]);
    push_le16(out, h.e_oemid);
    push_le16(out, h.e_oeminfo);
    push_le16(out, h.e_res2[0]);
    push_le16(out, h.e_res2[1]);
    push_le16(out, h.e_res2[2]);
    push_le16(out, h.e_res2[3]);
    assert(out@ =~= old(out)@ + dos_header_bytes_3(*h));
}

/// Part 4 of the little-endian bytes of a DosHeader.
#[verifier::opaque]
pub open spec fn dos_header_bytes_4(h: DosHeader) -> Seq<u8> {
    le16_bytes(h.e_res2[4] as int)
        + le16_bytes(h.e_res2[5] as int)
        + le16_bytes(h.e_res2[6] as int)
        + le16_bytes(h.e_res2[7] as int)
        + le16_bytes(h.e_res2[8] as int)
        + le16_bytes(h.e_res2[9] as int)
        + le32_bytes(h.e_lfanew as int)
}

fn push_dos_header_4(h: &DosHeader, out: &mut Vec<u8>)
    ensures
        final(out)@ == old(out)@ + dos_header_bytes_4(*h),
{
    reveal(dos_header_bytes_4);
    push_le16(out, h.e_res2[4]);
    push_le16(out, h.e_res2[5]);
    push_le16(out, h.e_res2[6]);
    push_le16(out, h.e_res2[7]);
    push_le16(out, h.e_res2[8]);
    push_le16(out, h.e_res2[9]);
    push_le32(out, h.e_lfanew);
    assert(out@ =~= old(out)@ + dos_header_bytes_4(*h));
}

/// The little-endian bytes of a DosHeader.
pub open spec fn dos_header_bytes(h: DosHeader) -> Seq<u8> {
    dos_header_bytes_1(h) + dos_header_bytes_2(h) + dos_header_bytes_3(h) + dos_header_bytes_4(h)
}

impl DosHeader {
    /// Appends the little-endian bytes of the structure.
    pub fn push_bytes(&self, out: &mut Vec<u8>)
        ensures
            final(out)@ == old(out)@ + dos_header_bytes(*self),
    {
        push_dos_header_1(self, out);
        push_dos_header_2(self, out);
        push_dos_header_3(self, out);
        push_dos_header_4(self, out);
        assert(out@ =~= old(out)@ + dos_header_bytes(*self));
    }
}

/// The little-endian bytes of a FileHeader.
pub open spec fn file_header_bytes(h: FileHeader) -> Seq<u8> {
    le16_bytes(h.machine as int)
        + le16_bytes(h.number_of_sections as int)
        + le32_bytes(h.time_date_stamp as int)
        + le32_bytes(h.pointer_to_symbol_table as int)
        + le32_bytes(h.number_of_symbols as int)
        + le16_bytes(h.size_of_optional_header as int)
        + le16_bytes(h.characteristics as int)
}

impl FileHeader {
    /// Appends the little-endian bytes of the structure.
    pub fn push_bytes(&self, out: &mut Vec<u8>)
        ensures
            final(out)@ == old(out)@ + file_header_bytes(*self),
    {
        let h = self;
        push_le16(out, h.machine);
        push_le16(out, h.number_of_sections);
        push_le32(out, h.time_date_stamp);
        push_le32(out, h.pointer_to_symbol_table);
        push_le32(out, h.number_of_symbols);
        push_le16(out, h.size_of_optional_header);
        push_le16(out, h.characteristics);
        assert(out@ =~= old(out)@ + file_header_bytes(*self));
    }
}

/// Part 1 of the little-endian bytes of a OptionalHeader64.
#[verifier::opaque]
pub open spec fn optional_header64_bytes_1(h: OptionalHeader64) -> Seq<u8> {
    le16_bytes(h.magic as int)
        + seq![h.major_linker_version]
        + seq![h.minor_linker_version]
        + le32_bytes(h.size_of_code as int)
        + le32_bytes(h.size_of_initialized_data as int)
        + le32_bytes(h.size_of_uninitialized_data as int)
        + le32_bytes(h.address_of_entry_point as int)
        + le32_bytes(h.base_of_code as int)
}

fn push_optional_header64_1(h: &OptionalHeader64, out: &mut Vec<u8>)
    ensures
        final(out)@ == old(out)@ + optional_header64_bytes_1(*h),
{
    reveal(optional_header64_bytes_1);
    push_le16(out, h.magic);
    out.push(h.major_linker_version);
    out.push(h.minor_linker_version);
    push_le32(out, h.size_of_code);
    push_le32(out, h.size_of_initialized_data);
    push_le32(out, h.size_of_uninitialized_data);
    push_le32(out, h.address_of_entry_point);
    push_le32(out, h.base_of_code);
    assert(out@ =~= old(out)@ + optional_header64_bytes_1(*h));
}

/// Part 2 of the little-endian bytes of a OptionalHeader64.
#[verifier::opaque]
pub open spec fn optional_header64_bytes_2(h: OptionalHeader64) -> Seq<u8> {
    le64_bytes(h.image_base as int)
        + le32_bytes(h.section_alignment as int)
        + le32_bytes(h.file_alignment as int)
        + le16_bytes(h.major_operating_system_version as int)
        + le16_bytes(h.minor_operating_system_version as int)
        + le16_bytes(h.major_image_version as int)
        + le16_bytes(h.minor_image_version as int)
        + le16_bytes(h.major_subsystem_version as int)
}

fn push_optional_header64_2(h: &OptionalHeader64, out: &mut Vec<u8>)
    ensures
        final(out)@ == old(out)@ + optional_header64_bytes_2(*h),
{
    reveal(optional_header64_bytes_2);
    push_le64(out, h.image_base);
    push_le32(out, h.section_alignment);
    push_le32(out, h.file_alignment);
    push_le16(out, h.major_operating_system_version);
    push_le16(out, h.minor_operating_system_version);
    push_le16(out, h.major_image_version);
    push_le16(out, h.minor_image_version);
    push_le16(out, h.major_subsystem_version);
    assert(out@ =~= old(out)@ + optional_header64_bytes_2(*h));
}

/// Part 3 of the little-endian bytes of a OptionalHeader64.
#[verifier::opaque]
pub open spec fn optional_header64_bytes_3(h: OptionalHeader64) -> Seq<u8> {
    le16_bytes(h.minor_subsystem_version as int)
        + le32_bytes(h.win32_version_value as int)
        + le32_bytes(h.size_of_image as int)
        + le32_bytes(h.size_of_headers as int)
        + le32_bytes(h.check_sum as int)
        + le16_bytes(h.subsystem as int)
        + le16_bytes(h.dll_characteristics as int)
        + le64_bytes(h.size_of_stack_reserve as int)
}

fn push_optional_header64_3(h: &OptionalHeader64, out: &mut Vec<u8>)
    ensures
        final(out)@ == old(out)@ + optional_header64_bytes_3(*h),
{
    reveal(optional_header64_bytes_3);
    push_le16(out, h.minor_subsystem_version);
    push_le32(out, h.win32_version_value);
    push_le32(out, h.size_of_image);
    push_le32(out, h.size_of_headers);
    push_le32(out, h.check_sum);
    push_le16(out, h.subsystem);
    push_le16(out, h.dll_characteristics);
    push_le64(out, h.size_of_stack_reserve);
    assert(out@ =~= old(out)@ + optional_header64_bytes_3(*h));
}

/// Part 4 of the little-endian bytes of a OptionalHeader64.
#[verifier::opaque]
pub open spec fn optional_header64_bytes_4(h: OptionalHeader64) -> Seq<u8> {
    le64_bytes(h.size_of_stack_commit as int)
        + le64_bytes(h.size_of_heap_reserve as int)
        + le64_bytes(h.size_of_heap_commit as int)
        + le32_bytes(h.loader_flags as int)
        + le32_bytes(h.number_of_rva_and_sizes as int)
}

fn push_optional_header64_4(h: &OptionalHeader64, out: &mut Vec<u8>)
    ensures
        final(out)@ == old(out)@ + optional_header64_bytes_4(*h),
{
    reveal(optional_header64_bytes_4);
    push_le64(out, h.size_of_stack_commit);
    push_le64(out, h.size_of_heap_reserve);
    push_le64(out, h.size_of_heap_commit);
    push_le32(out, h.loader_flags);
    push_le32(out, h.number_of_rva_and_sizes);
    assert(out@ =~= old(out)@ + optional_header64_bytes_4(*h));
}

/// The little-endian bytes of a OptionalHeader64.
pub open spec fn optional_header64_bytes(h: OptionalHeader64) -> Seq<u8> {
    optional_header64_bytes_1(h) + optional_header64_bytes_2(h) + optional_header64_bytes_3(h) + optional_header64_bytes_4(h)
}

impl OptionalHeader64 {
    /// Appends the little-endian bytes of the structure.
    pub fn push_bytes(&self, out: &mut Vec<u8>)
        ensures
            final(out)@ == old(out)@ + optional_header64_bytes(*self),
    {
        push_optional_header64_1(self, out);
        push_optional_header64_2(self, out);
        push_optional_header64_3(self, out);
        push_optional_header64_4(self, out);
        assert(out@ =~= old(out)@ + optional_header64_bytes(*self));
    }
}

/// Part 1 of the little-endian bytes of a SectionHeader.
#[verifier::opaque]
pub open spec fn section_header_bytes_1(h: SectionHeader) -> Seq<u8> {
    h.name@
        + le32_bytes(h.virtual_size as int)
        + le32_bytes(h.virtual_address as int)
        + le32_bytes(h.size_of_raw_data as int)
        + le32_bytes(h.pointer_to_raw_data as int)
        + le32_bytes(h.pointer_to_relocations as int)
        + le32_bytes(h.pointer_to_linenumbers as int)
        + le16_bytes(h.number_of_relocations as int)
}

fn push_section_header_1(h: &SectionHeader, out: &mut Vec<u8>)
    ensures
        final(out)@ == old(out)@ + section_header_bytes_1(*h),
{
    reveal(section_header_bytes_1);
    push_all(out, &h.name);
    push_le32(out, h.virtual_size);
    push_le32(out, h.virtual_address);
    push_le32(out, h.size_of_raw_data);
    push_le32(out, h.pointer_to_raw_data);
    push_le32(out, h.pointer_to_relocations);
    push_le32(out, h.pointer_to_linenumbers);
    push_le16(out, h.number_of_relocations);
    assert(out@ =~= old(out)@ + section_header_bytes_1(*h));
}

/// Part 2 of the little-endian bytes of a SectionHeader.
#[verifier::opaque]
pub open spec fn section_header_bytes_2(h: SectionHeader) -> Seq<u8> {
    le16_bytes(h.number_of_linenumbers as int)
        + le32_bytes(h.characteristics as int)
}

fn push_section_header_2(h: &SectionHeader, out: &mut Vec<u8>)
    ensures
        final(out)@ == old(out)@ + section_header_bytes_2(*h),
{
    reveal(section_header_bytes_2);
    push_le16(out, h.number_of_linenumbers);
    push_le32(out, h.characteristics);
    assert(out@ =~= old(out)@ + section_header_bytes_2(*h));
}

/// The little-endian bytes of a SectionHeader.
pub open spec fn section_header_bytes(h: SectionHeader) -> Seq<u8> {
    section_header_bytes_1(h) + section_header_bytes_2(h)
}

impl SectionHeader {
    /// Appends the little-endian bytes of the structure.
    pub fn push_bytes(&self, out: &mut Vec<u8>)
        ensures
            final(out)@ == old(out)@ + section_header_bytes(*self),
    {
        push_section_header_1(self, out);
        push_section_header_2(self, out);
        assert(out@ =~= old(out)@ + section_header_bytes(*self));
    }
}

/// The little-endian bytes of the NT headers.
pub open spec fn nt_headers64_bytes(h: NtHeaders64) -> Seq<u8> {
    le32_bytes(h.signature as int) + file_header_bytes(h.file_header) + optional_header64_bytes(
        h.optional_header,
    )
}

impl NtHeaders64 {
    /// Appends the little-endian bytes of the structure.
    pub fn push_bytes(&self, out: &mut Vec<u8>)
        ensures
            final(out)@ == old(out)@ + nt_headers64_bytes(*self),
    {
        push_le32(out, self.signature);
        self.file_header.push_bytes(out);
        self.optional_header.push_bytes(out);
        assert(out@ =~= old(out)@ + nt_headers64_bytes(*self));
    }
}

/// Errors from rebuilding a PE image.
#[derive(Clone, Copy, Debug, PartialEq, Eq, Structural)]
pub enum PeRebuildError {
    HeadersTooLarge,
}

impl PeRebuildError {
    /// Human-readable description of the error.
    pub fn to_string(&self) -> (s: String)
        ensures
            s@ == "PE headers exceed maximum allowed size"@,
    {
        String::from_str("PE headers exceed maximum allowed size")
    }
}

/// A PE image being rebuilt: the headers and the sections with their data.
pub struct PeRebuilder<'s> {
    pub dos_hdr: DosHeader,
    pub dos_data: &'s [u8],
    pub nt_hdrs: NtHeaders64,
    pub nt_data: &'s [u8],
    pub sections: Vec<(SectionHeader, Vec<u8>)>,
}

/// The section headers of a rebuilder.
pub open spec fn headers(ss: Seq<(SectionHeader, Vec<u8>)>) -> Seq<SectionHeader> {
    ss.map_values(|s: (SectionHeader, Vec<u8>)| s.0)
}

/// Aligns `v` up to `a` as `u32::div_ceil` and a multiplication compute
/// it.
fn align_up_u32(v: u32, a: u32) -> (r: Option<u32>)
    ensures
        match crate::peimage::align_up32(v as int, a as int) {
            Some(x) => r == Some(x as u32),
            None => r is None,
        },
{
    if a == 0 {
        return None;
    }
    let q0: u32 = v / a;
    let q: u32 = if v % a != 0 {
        assert(q0 < 0xffff_ffff) by (nonlinear_arith)
            requires
                a > 0,
                q0 == v / a,
                v % a != 0,
                v <= 0xffff_ffff,
        ;
        q0 + 1
    } else {
        q0
    };
    proof {
        lemma_div_ceil(v as int, a as int);
    }
    q.checked_mul(a)
}

proof fn lemma_div_ceil(v: int, a: int)
    requires
        v >= 0,
        a > 0,
    ensures
        (v + a - 1) / a == v / a + if v % a != 0 {
            1int
        } else {
            0int
        },
{
    let q = v / a;
    let r = v % a;
    assert(v == q * a + r && 0 <= r < a) by (nonlinear_arith)
        requires
            a > 0,
            q == v / a,
            r == v % a,
    ;
    if r == 0 {
        assert((q * a + a - 1) / a == q) by (nonlinear_arith)
            requires
                a > 0,
        ;
    } else {
        assert((q * a + r + a - 1) / a == q + 1) by (nonlinear_arith)
            requires
                a > 0,
                0 < r < a,
        ;
    }
}

/// Counting the sections whose raw data `from_ref` takes: all of them, up
/// to one whose extent overflows; an error for one past the end of the
/// image.
pub open spec fn raw_fold(data: Seq<u8>, hdrs: Seq<u8>, n: int, i: int) -> Result<int, PeError>
    decreases n - i,
{
    if i >= n {
        Ok(n)
    } else {
        let off = le32(hdrs, i * 40 + 20);
        let len = le32(hdrs, i * 40 + 16);
        if off + len > usize::MAX {
            Ok(i)
        } else if off + len > data.len() {
            Err(PeError::Truncated)
        } else {
            raw_fold(data, hdrs, n, i + 1)
        }
    }
}

/// The name field of a section named `name`: its first 8 bytes, padded
/// with zeros.
pub open spec fn name_field(name: Seq<u8>) -> Seq<u8> {
    Seq::new(8, |i: int| if i < name.len() { name[i] } else { 0u8 })
}

/// The end of a section's virtual extent.
pub open spec fn section_end(h: SectionHeader) -> int {
    h.virtual_address + h.virtual_size
}

/// The largest end of the sections' virtual extents, `dflt` when there are
/// none.
pub open spec fn max_end(hs: Seq<SectionHeader>, dflt: int) -> int
    decreases hs.len(),
{
    if hs.len() == 0 {
        dflt
    } else if hs.len() == 1 {
        section_end(hs[0])
    } else {
        let m = max_end(hs.drop_last(), dflt);
        if m >= section_end(hs.last()) {
            m
        } else {
            section_end(hs.last())
        }
    }
}

/// The lowest virtual address of the sections, `dflt` when there are none.
pub open spec fn min_va(hs: Seq<SectionHeader>, dflt: int) -> int
    decreases hs.len(),
{
    if hs.len() == 0 {
        dflt
    } else if hs.len() == 1 {
        hs[0].virtual_address as int
    } else {
        let m = min_va(hs.drop_last(), dflt);
        if m <= hs.last().virtual_address {
            m
        } else {
            hs.last().virtual_address as int
        }
    }
}

/// Laying out the sections from the `i`-th on at file offset `off`: each
/// gets the offset and its raw size aligned to the file alignment, and the
/// size fields grow with it. The outcome, the final optional header and
/// section headers; `None` where the arithmetic overflows.
pub open spec fn fix_loop(oh: OptionalHeader64, hs: Seq<SectionHeader>, i: int, off: int) -> Option<
    (Result<(), PeRebuildError>, OptionalHeader64, Seq<SectionHeader>),
>
    decreases hs.len() - i,
{
    if i < 0 || i >= hs.len() {
        Some((Ok(()), oh, hs))
    } else {
        let h = hs[i];
        if oh.size_of_headers > h.virtual_address {
            Some((Err(PeRebuildError::HeadersTooLarge), oh, hs))
        } else {
            match crate::peimage::align_up32(h.size_of_raw_data as int, oh.file_alignment as int) {
                None => None,
                Some(raw) => {
                    let code = if (h.characteristics & SCN_CNT_CODE) > 0 {
                        oh.size_of_code + raw
                    } else {
                        oh.size_of_code as int
                    };
                    let init = if (h.characteristics & SCN_CNT_INITIALIZED_DATA) > 0 {
                        oh.size_of_initialized_data + raw
                    } else {
                        oh.size_of_initialized_data as int
                    };
                    let uninit = if (h.characteristics & SCN_CNT_UNINITIALIZED_DATA) > 0 {
                        oh.size_of_uninitialized_data + raw
                    } else {
                        oh.size_of_uninitialized_data as int
                    };
                    let mapped = if h.virtual_size == 0 {
                        raw
                    } else {
                        h.virtual_size as int
                    };
                    let end0 = if h.virtual_address + mapped > u32::MAX {
                        u32::MAX as int
                    } else {
                        h.virtual_address + mapped
                    };
                    if off + raw > u32::MAX || code > u32::MAX || init > u32::MAX || uninit
                        > u32::MAX {
                        None
                    } else {
                        match crate::peimage::align_up32(end0, oh.section_alignment as int) {
                            None => None,
                            Some(end) => fix_loop(
                                OptionalHeader64 {
                                    size_of_code: code as u32,
                                    size_of_initialized_data: init as u32,
                                    size_of_uninitialized_data: uninit as u32,
                                    size_of_image: if end > oh.size_of_image {
                                        end as u32
                                    } else {
                                        oh.size_of_image
                                    },
                                    ..oh
                                },
                                hs.update(
                                    i,
                                    SectionHeader {
                                        pointer_to_raw_data: off as u32,
                                        size_of_raw_data: raw as u32,
                                        ..h
                                    },
                                ),
                                i + 1,
                                off + raw,
                            ),
                        }
                    }
                },
            }
        }
    }
}

/// What `fixup_offsets` computes: the outcome, the NT headers and the
/// section headers after it; `None` where its arithmetic overflows or an
/// alignment is zero.
pub open spec fn fixup_spec(
    dos: DosHeader,
    nt: NtHeaders64,
    hs: Seq<SectionHeader>,
    maximize_header_space: bool,
) -> Option<(Result<(), PeRebuildError>, NtHeaders64, Seq<SectionHeader>)> {
    let nsec = hs.len() as u16;
    let fh = FileHeader { number_of_sections: nsec, ..nt.file_header };
    let unaligned0 = dos.e_lfanew + 24 + fh.size_of_optional_header + nsec * 40;
    if unaligned0 > u32::MAX {
        None
    } else {
        let unaligned = if maximize_header_space && min_va(hs, unaligned0) > unaligned0 {
            min_va(hs, unaligned0)
        } else {
            unaligned0
        };
        match (
            crate::peimage::align_up32(unaligned, nt.optional_header.section_alignment as int),
            crate::peimage::align_up32(unaligned, nt.optional_header.file_alignment as int),
        ) {
            (Some(img), Some(hsz)) => {
                let oh = OptionalHeader64 {
                    size_of_code: 0,
                    size_of_initialized_data: 0,
                    size_of_uninitialized_data: 0,
                    size_of_image: img as u32,
                    size_of_headers: hsz as u32,
                    ..nt.optional_header
                };
                match fix_loop(oh, hs, 0, hsz) {
                    None => None,
                    Some((res, oh2, hs2)) => Some(
                        (res, NtHeaders64 { file_header: fh, optional_header: oh2, ..nt }, hs2),
                    ),
                }
            },
            _ => None,
        }
    }
}

/// `n` zero bytes.
pub open spec fn zeros(n: int) -> Seq<u8> {
    Seq::new(n as nat, |_i: int| 0u8)
}

/// The bytes of the section header table.
pub open spec fn section_table_bytes(hs: Seq<SectionHeader>) -> Seq<u8>
    decreases hs.len(),
{
    if hs.len() == 0 {
        Seq::empty()
    } else {
        section_table_bytes(hs.drop_last()) + section_header_bytes(hs.last())
    }
}

/// The raw data of the sections from `off` on, each padded to its raw
/// size; `None` where a section is not at the offset its header gives or
/// its data exceeds its raw size.
pub open spec fn sections_image(ss: Seq<(SectionHeader, Vec<u8>)>, off: int) -> Option<Seq<u8>>
    decreases ss.len(),
{
    if ss.len() == 0 {
        Some(Seq::empty())
    } else {
        let h = ss[0].0;
        let d = ss[0].1@;
        if h.pointer_to_raw_data != off || d.len() > h.size_of_raw_data {
            None
        } else {
            match sections_image(ss.drop_first(), off + h.size_of_raw_data) {
                None => None,
                Some(rest) => Some(d + zeros(h.size_of_raw_data - d.len()) + rest),
            }
        }
    }
}

/// The header bytes of an image: the DOS header and stub, the NT headers,
/// the data directories and the section header table.
pub open spec fn header_bytes(b: PeRebuilder) -> Seq<u8> {
    dos_header_bytes(b.dos_hdr) + b.dos_data@ + nt_headers64_bytes(b.nt_hdrs) + b.nt_data@
        + section_table_bytes(headers(b.sections@))
}

/// The bytes of the image: the headers padded to their size, then the
/// sections; `None` where the headers exceed their size or the sections do
/// not follow each other as their headers say.
pub open spec fn image_spec(b: PeRebuilder) -> Option<Seq<u8>> {
    let hb = header_bytes(b);
    let soh = b.nt_hdrs.optional_header.size_of_headers as int;
    if hb.len() > soh {
        None
    } else {
        match sections_image(b.sections@, soh) {
            None => None,
            Some(sb) => Some(hb + zeros(soh - hb.len()) + sb),
        }
    }
}

/// Appends `n` zero bytes, returning how many were written.
pub fn write_zeros(out: &mut Vec<u8>, n: usize) -> (r: usize)
    ensures
        r == n,
        final(out)@ == old(out)@ + zeros(n as int),
{
    push_zeros(out, n);
    proof {
        assert(out@ =~= old(out)@ + zeros(n as int));
    }
    n
}

/// The highest end of the sections' virtual extents.
fn first_avail_va(ss: &Vec<(SectionHeader, Vec<u8>)>, dflt: u32) -> (r: u32)
    requires
        forall|k: int| 0 <= k < ss@.len() ==> section_end(#[trigger] ss@[k].0) <= u32::MAX,
    ensures
        r == max_end(headers(ss@), dflt as int),
{
    let ghost hs = headers(ss@);
    if ss.len() == 0 {
        return dflt;
    }
    let mut m: u32 = ss[0].0.virtual_address + ss[0].0.virtual_size;
    let mut i: usize = 1;
    proof {
        assert(hs.take(1).len() == 1);
        assert(hs.take(1)[0] == ss@[0].0);
    }
    while i < ss.len()
        invariant
            1 <= i <= ss@.len(),
            hs == headers(ss@),
            forall|k: int| 0 <= k < ss@.len() ==> section_end(#[trigger] ss@[k].0) <= u32::MAX,
            m == max_end(hs.take(i as int), dflt as int),
        decreases ss@.len() - i,
    {
        proof {
            assert(hs.take(i + 1).drop_last() =~= hs.take(i as int));
            assert(hs.take(i + 1).last() == ss@[i as int].0);
        }
        let e = ss[i].0.virtual_address + ss[i].0.virtual_size;
        if e > m {
            m = e;
        }
        i += 1;
    }
    proof {
        assert(hs.take(ss@.len() as int) =~= hs);
    }
    m
}

/// The lowest virtual address of the sections.
fn lowest_va(ss: &Vec<(SectionHeader, Vec<u8>)>, dflt: u32) -> (r: u32)
    ensures
        r == min_va(headers(ss@), dflt as int),
{
    let ghost hs = headers(ss@);
    if ss.len() == 0 {
        return dflt;
    }
    let mut m: u32 = ss[0].0.virtual_address;
    let mut i: usize = 1;
    proof {
        assert(hs.take(1).len() == 1);
        assert(hs.take(1)[0] == ss@[0].0);
    }
    while i < ss.len()
        invariant
            1 <= i <= ss@.len(),
            hs == headers(ss@),
            m == min_va(hs.take(i as int), dflt as int),
        decreases ss@.len() - i,
    {
        proof {
            assert(hs.take(i + 1).drop_last() =~= hs.take(i as int));
            assert(hs.take(i + 1).last() == ss@[i as int].0);
        }
        let e = ss[i].0.virtual_address;
        if e < m {
            m = e;
        }
        i += 1;
    }
    proof {
        assert(hs.take(ss@.len() as int) =~= hs);
    }
    m
}

/// Whether a section of `len` bytes can be appended to the sections `ss`
/// of an image with headers `nt`: the virtual extents end within 32 bits,
/// and the new section's aligned address and raw size fit in 32 bits.
pub open spec fn can_add_section(ss: Seq<(SectionHeader, Vec<u8>)>, nt: NtHeaders64, len: nat) -> bool {
    &&& forall|k: int| 0 <= k < ss.len() ==> section_end(#[trigger] ss[k].0) <= u32::MAX
    &&& crate::peimage::align_up32(
        max_end(headers(ss), nt.optional_header.size_of_headers as int),
        nt.optional_header.section_alignment as int,
    ) is Some
    &&& crate::peimage::align_up32((len as u32) as int, nt.optional_header.file_alignment as int) is Some
}

/// `after` is `before` with a section named `name` (cut to 8 bytes)
/// holding `data` appended: placed at the first virtual address past every
/// section (or the headers), aligned to the section alignment, its raw size
/// aligned to the file alignment, its file offset still unset.
pub open spec fn section_appended(
    before: Seq<(SectionHeader, Vec<u8>)>,
    after: Seq<(SectionHeader, Vec<u8>)>,
    nt: NtHeaders64,
    name: Seq<u8>,
    data: Vec<u8>,
    characteristics: u32,
) -> bool {
    let (h, d) = after.last();
    &&& after.len() == before.len() + 1
    &&& after.drop_last() == before
    &&& d == data
    &&& h.name@ == name_field(name)
    &&& h.virtual_size == data@.len() as u32
    &&& h.virtual_address == crate::peimage::align_up32(
        max_end(headers(before), nt.optional_header.size_of_headers as int),
        nt.optional_header.section_alignment as int,
    )->0
    &&& h.size_of_raw_data == crate::peimage::align_up32(
        (data@.len() as u32) as int,
        nt.optional_header.file_alignment as int,
    )->0
    &&& h.pointer_to_raw_data == 0
    &&& h.pointer_to_relocations == 0
    &&& h.pointer_to_linenumbers == 0
    &&& h.number_of_relocations == 0
    &&& h.number_of_linenumbers == 0
    &&& h.characteristics == characteristics
}

impl<'s> PeRebuilder<'s> {
    /// Whether a section of `len` bytes can be appended: its address and
    /// raw size can be computed within 32 bits.
    pub fn can_add_section(&self, len: usize) -> (r: bool)
        ensures
            r == can_add_section(self.sections@, self.nt_hdrs, len as nat),
    {
        let mut i: usize = 0;
        while i < self.sections.len()
            invariant
                i <= self.sections@.len(),
                forall|k: int| 0 <= k < i ==> section_end(#[trigger] self.sections@[k].0) <= u32::MAX,
            decreases self.sections@.len() - i,
        {
            let h = self.sections[i].0;
            if h.virtual_address > 0xffff_ffff - h.virtual_size {
                return false;
            }
            i += 1;
        }
        let end = first_avail_va(&self.sections, self.nt_hdrs.optional_header.size_of_headers);
        if align_up_u32(end, self.nt_hdrs.optional_header.section_alignment).is_none() {
            return false;
        }
        let len32 = len as u32;
        align_up_u32(len32, self.nt_hdrs.optional_header.file_alignment).is_some()
    }

    /// Takes over the headers and the sections (with a copy of their raw
    /// data) of a parsed image.
    pub fn from_ref(r: &PeRef<'s>) -> (res: Result<Self, PeError>)
        requires
            r.wf(),
        ensures
            match raw_fold(r.data@, r.sect_hdrs@, r.nt_hdrs.file_header.number_of_sections as int, 0) {
                Err(e) => res == Err::<PeRebuilder, PeError>(e),
                Ok(c) => res matches Ok(b) && b.dos_hdr == r.dos_hdr && b.dos_data == r.dos_data
                    && b.nt_hdrs == r.nt_hdrs && b.nt_data == r.nt_data && b.sections@.len() == c
                    && forall|k: int|
                    0 <= k < c ==> section_header_at(#[trigger] b.sections@[k].0, r.sect_hdrs@, k * 40)
                        && b.sections@[k].1@ == r.data@.subrange(
                        le32(r.sect_hdrs@, k * 40 + 20),
                        le32(r.sect_hdrs@, k * 40 + 20) + le32(r.sect_hdrs@, k * 40 + 16),
                    ),
            },
    {
        let ghost hdrs = r.sect_hdrs@;
        let ghost n = r.nt_hdrs.file_header.number_of_sections as int;
        let mut sections: Vec<(SectionHeader, Vec<u8>)> = Vec::new();
        let mut it = r.raw_sections();
        loop
            invariant_except_break
                it.index <= n,
                sections@.len() == it.index,
                raw_fold(r.data@, hdrs, n, 0) == raw_fold(r.data@, hdrs, n, it.index as int),
            invariant
                it.pe == *r,
                r.wf(),
                hdrs == r.sect_hdrs@,
                n == r.nt_hdrs.file_header.number_of_sections,
                forall|k: int|
                    0 <= k < sections@.len() ==> section_header_at(#[trigger] sections@[k].0, hdrs, k * 40)
                        && sections@[k].1@ == r.data@.subrange(
                        le32(hdrs, k * 40 + 20),
                        le32(hdrs, k * 40 + 20) + le32(hdrs, k * 40 + 16),
                    ),
            ensures
                raw_fold(r.data@, hdrs, n, 0) == Ok::<int, PeError>(sections@.len() as int),
            decreases n - it.index,
        {
            let ghost i = it.index as int;
            let item = it.next();
            proof {
                if i < n {
                    let h = choose|h: SectionHeader|
                        #[trigger] section_header_at(h, hdrs, i * 40) && section_item_ok(
                            item,
                            h,
                            r.data@,
                            h.pointer_to_raw_data as int,
                            h.size_of_raw_data as int,
                        );
                    assert(section_header_at(h, hdrs, i * 40));
                }
            }
            match item {
                None => {
                    break;
                },
                Some(Err(e)) => {
                    return Err(e);
                },
                Some(Ok((shdr, data))) => {
                    let mut copy: Vec<u8> = Vec::new();
                    push_all(&mut copy, data);
                    sections.push((shdr, copy));
                },
            }
        }
        Ok(
            PeRebuilder {
                dos_hdr: r.dos_hdr,
                dos_data: r.dos_data,
                nt_hdrs: r.nt_hdrs,
                nt_data: r.nt_data,
                sections,
            },
        )
    }

    /// Appends a section named `name` (cut to 8 bytes) holding `data`,
    /// placed at the first virtual address past every section, aligned to
    /// the section alignment, with its raw size aligned to the file
    /// alignment; its file offset is set by `fixup_offsets`.
    pub fn add_section(&mut self, name: &str, data: Vec<u8>, characteristics: u32)
        requires
            can_add_section(old(self).sections@, old(self).nt_hdrs, data@.len()),
        ensures
            final(self).dos_hdr == old(self).dos_hdr,
            final(self).dos_data == old(self).dos_data,
            final(self).nt_hdrs == old(self).nt_hdrs,
            final(self).nt_data == old(self).nt_data,
            section_appended(
                old(self).sections@,
                final(self).sections@,
                old(self).nt_hdrs,
                name.spec_bytes(),
                data,
                characteristics,
            ),
    {
        let bytes = name.as_bytes();
        let namelen = if bytes.len() < 8 {
            bytes.len()
        } else {
            8
        };
        let mut namearr: [u8; 8] = [0u8; 8];
        let mut i: usize = 0;
        while i < namelen
            invariant
                namelen <= 8,
                namelen <= bytes@.len(),
                i <= namelen,
                forall|k: int| 0 <= k < i ==> namearr@[k] == bytes@[k],
                forall|k: int| i <= k < 8 ==> namearr@[k] == 0,
            decreases namelen - i,
        {
            namearr.set(i, bytes[i]);
            i += 1;
        }
        proof {
            assert(namearr@ =~= name_field(name.spec_bytes()));
        }
        let first = first_avail_va(&self.sections, self.nt_hdrs.optional_header.size_of_headers);
        let va = align_up_u32(first, self.nt_hdrs.optional_header.section_alignment).unwrap();
        let size = data.len() as u32;
        let raw = align_up_u32(size, self.nt_hdrs.optional_header.file_alignment).unwrap();
        let shdr = SectionHeader {
            name: namearr,
            virtual_size: size,
            virtual_address: va,
            size_of_raw_data: raw,
            pointer_to_raw_data: 0,
            pointer_to_relocations: 0,
            pointer_to_linenumbers: 0,
            number_of_relocations: 0,
            number_of_linenumbers: 0,
            characteristics,
        };
        self.sections.push((shdr, data));
        proof {
            assert(self.sections@.drop_last() =~= old(self).sections@);
        }
    }
}

impl<'s> PeRebuilder<'s> {
    /// Whether `fixup_offsets` can compute the layout: its sizes and
    /// offsets fit in 32 bits and its alignments are not zero.
    pub fn can_fixup_offsets(&self, maximize_header_space: bool) -> (r: bool)
        ensures
            r == fixup_spec(
                self.dos_hdr,
                self.nt_hdrs,
                headers(self.sections@),
                maximize_header_space,
            ) is Some,
    {
        let ghost hs0 = headers(self.sections@);
        let n = self.sections.len();
        let nsec = #[verifier::truncate] (n as u16);
        let e: u64 = self.dos_hdr.e_lfanew as u64 + 24
            + self.nt_hdrs.file_header.size_of_optional_header as u64 + nsec as u64 * 40;
        if e > 0xffff_ffff {
            return false;
        }
        let mut unaligned = e as u32;
        if maximize_header_space {
            let m = lowest_va(&self.sections, unaligned);
            if m > unaligned {
                unaligned = m;
            }
        }
        let img = match align_up_u32(unaligned, self.nt_hdrs.optional_header.section_alignment) {
            Some(x) => x,
            None => {
                return false;
            },
        };
        let hsz = match align_up_u32(unaligned, self.nt_hdrs.optional_header.file_alignment) {
            Some(x) => x,
            None => {
                return false;
            },
        };
        let mut oh = self.nt_hdrs.optional_header;
        oh.size_of_code = 0;
        oh.size_of_initialized_data = 0;
        oh.size_of_uninitialized_data = 0;
        oh.size_of_image = img;
        oh.size_of_headers = hsz;
        let ghost spec_some = fixup_spec(
            self.dos_hdr,
            self.nt_hdrs,
            hs0,
            maximize_header_space,
        ) is Some;
        proof {
            assert(spec_some == fix_loop(oh, hs0, 0, hsz as int) is Some);
        }
        let mut off: u32 = hsz;
        let ghost mut hs_g = hs0;
        let mut i: usize = 0;
        while i < n
            invariant
                i <= n == self.sections@.len() == hs_g.len() == hs0.len(),
                hs0 == headers(self.sections@),
                forall|j: int| i <= j < n ==> #[trigger] hs_g[j] == hs0[j],
                spec_some == fix_loop(oh, hs_g, i as int, off as int) is Some,
                spec_some == fixup_spec(
                    self.dos_hdr,
                    self.nt_hdrs,
                    headers(self.sections@),
                    maximize_header_space,
                ) is Some,
            decreases n - i,
        {
            let h = self.sections[i].0;
            proof {
                assert(h == hs_g[i as int]);
            }
            if oh.size_of_headers > h.virtual_address {
                return true;
            }
            let raw = match align_up_u32(h.size_of_raw_data, oh.file_alignment) {
                Some(x) => x,
                None => {
                    return false;
                },
            };
            if off > 0xffff_ffff - raw {
                return false;
            }
            if (h.characteristics & SCN_CNT_CODE) > 0 {
                if oh.size_of_code > 0xffff_ffff - raw {
                    return false;
                }
                oh.size_of_code = oh.size_of_code + raw;
            }
            if (h.characteristics & SCN_CNT_INITIALIZED_DATA) > 0 {
                if oh.size_of_initialized_data > 0xffff_ffff - raw {
                    return false;
                }
                oh.size_of_initialized_data = oh.size_of_initialized_data + raw;
            }
            if (h.characteristics & SCN_CNT_UNINITIALIZED_DATA) > 0 {
                if oh.size_of_uninitialized_data > 0xffff_ffff - raw {
                    return false;
                }
                oh.size_of_uninitialized_data = oh.size_of_uninitialized_data + raw;
            }
            let mapped = if h.virtual_size == 0 {
                raw
            } else {
                h.virtual_size
            };
            let end0 = h.virtual_address.saturating_add(mapped);
            let end = match align_up_u32(end0, oh.section_alignment) {
                Some(x) => x,
                None => {
                    return false;
                },
            };
            if end > oh.size_of_image {
                oh.size_of_image = end;
            }
            proof {
                hs_g = hs_g.update(
                    i as int,
                    SectionHeader { pointer_to_raw_data: off, size_of_raw_data: raw, ..h },
                );
            }
            off = off + raw;
            i += 1;
        }
        true
    }

    /// Recomputes the file layout: the number of sections, the size of the
    /// headers (grown up to the first section's virtual address when
    /// `maximize_header_space` is set, so that more sections can be added
    /// later), the file offset and aligned raw size of each section, and the
    /// code, data and image sizes. Fails where the headers would reach into
    /// a section's virtual extent.
    pub fn fixup_offsets(&mut self, maximize_header_space: bool) -> (r: Result<(), PeRebuildError>)
        requires
            fixup_spec(
                old(self).dos_hdr,
                old(self).nt_hdrs,
                headers(old(self).sections@),
                maximize_header_space,
            ) is Some,
        ensures
            ({
                let (res, nt, hs) = fixup_spec(
                    old(self).dos_hdr,
                    old(self).nt_hdrs,
                    headers(old(self).sections@),
                    maximize_header_space,
                )->0;
                &&& r == res
                &&& final(self).nt_hdrs == nt
                &&& headers(final(self).sections@) == hs
                &&& final(self).sections@.len() == old(self).sections@.len()
                &&& forall|k: int|
                    0 <= k < old(self).sections@.len() ==> #[trigger] final(self).sections@[k].1
                        == old(self).sections@[k].1
            }),
            final(self).dos_hdr == old(self).dos_hdr,
            final(self).dos_data == old(self).dos_data,
            final(self).nt_data == old(self).nt_data,
            stub_headers_ok(old(self).dos_hdr, old(self).dos_data@, old(self).nt_hdrs, old(self).nt_data@)
                && old(self).sections@.len() <= 0xffff ==> pe_headers_ok(*final(self)),
    {
        let ghost hs0 = headers(self.sections@);
        let ghost datas = self.sections@.map_values(|s: (SectionHeader, Vec<u8>)| s.1);
        let nsec = #[verifier::truncate] (self.sections.len() as u16);
        self.nt_hdrs.file_header.number_of_sections = nsec;
        self.nt_hdrs.optional_header.size_of_code = 0;
        self.nt_hdrs.optional_header.size_of_initialized_data = 0;
        self.nt_hdrs.optional_header.size_of_uninitialized_data = 0;
        let mut unaligned: u32 = self.dos_hdr.e_lfanew + 24
            + self.nt_hdrs.file_header.size_of_optional_header as u32 + nsec as u32 * 40;
        if maximize_header_space {
            let min_va = lowest_va(&self.sections, unaligned);
            if min_va > unaligned {
                unaligned = min_va;
            }
        }
        self.nt_hdrs.optional_header.size_of_image = align_up_u32(
            unaligned,
            self.nt_hdrs.optional_header.section_alignment,
        ).unwrap();
        self.nt_hdrs.optional_header.size_of_headers = align_up_u32(
            unaligned,
            self.nt_hdrs.optional_header.file_alignment,
        ).unwrap();
        let mut off: u32 = self.nt_hdrs.optional_header.size_of_headers;
        let ghost oh0 = self.nt_hdrs.optional_header;
        let ghost whole = fix_loop(oh0, hs0, 0, off as int);
        let ghost fh = self.nt_hdrs.file_header;
        let ghost spec_r = fixup_spec(
            old(self).dos_hdr,
            old(self).nt_hdrs,
            hs0,
            maximize_header_space,
        );
        proof {
            assert(spec_r == match whole {
                Some((res, oh2, hs2)) => Some(
                    (res, NtHeaders64 { file_header: fh, optional_header: oh2, ..old(self).nt_hdrs }, hs2),
                ),
                None => None,
            });
        }
        let mut i: usize = 0;
        while i < self.sections.len()
            invariant
                i <= self.sections@.len(),
                self.sections@.len() == hs0.len(),
                self.sections@.map_values(|s: (SectionHeader, Vec<u8>)| s.1) == datas,
                datas == old(self).sections@.map_values(|s: (SectionHeader, Vec<u8>)| s.1),
                whole is Some,
                spec_r == fixup_spec(
                    old(self).dos_hdr,
                    old(self).nt_hdrs,
                    hs0,
                    maximize_header_space,
                ),
                hs0 == headers(old(self).sections@),
                fh == self.nt_hdrs.file_header,
                spec_r == match whole {
                    Some((res, oh2, hs2)) => Some(
                        (res, NtHeaders64 { file_header: fh, optional_header: oh2, ..old(self).nt_hdrs }, hs2),
                    ),
                    None => None,
                },
                whole == fix_loop(self.nt_hdrs.optional_header, headers(self.sections@), i as int, off as int),
                self.dos_hdr == old(self).dos_hdr,
                self.dos_data == old(self).dos_data,
                self.nt_data == old(self).nt_data,
                self.nt_hdrs.signature == old(self).nt_hdrs.signature,
                self.nt_hdrs.optional_header.magic == old(self).nt_hdrs.optional_header.magic,
                self.nt_hdrs.file_header == (FileHeader { number_of_sections: nsec, ..old(self).nt_hdrs.file_header }),
            decreases self.sections@.len() - i,
        {
            let ghost hs = headers(self.sections@);
            let ghost oh = self.nt_hdrs.optional_header;
            let (shdr, data) = self.sections.remove(i);
            if self.nt_hdrs.optional_header.size_of_headers > shdr.virtual_address {
                self.sections.insert(i, (shdr, data));
                proof {
                    assert(headers(self.sections@) =~= hs);
                    assert(self.sections@.map_values(|s: (SectionHeader, Vec<u8>)| s.1) =~= datas);
                    assert(self.nt_hdrs == (NtHeaders64 {
                        file_header: fh,
                        optional_header: self.nt_hdrs.optional_header,
                        ..old(self).nt_hdrs
                    }));
                    assert forall|k: int| 0 <= k < old(self).sections@.len() implies #[trigger] self.sections@[k].1
                        == old(self).sections@[k].1 by {
                        assert(self.sections@.map_values(|s: (SectionHeader, Vec<u8>)| s.1)[k] == datas[k]);
                    }
                }
                return Err(PeRebuildError::HeadersTooLarge);
            }
            let raw = align_up_u32(shdr.size_of_raw_data, self.nt_hdrs.optional_header.file_alignment).unwrap();
            let new_off = off.checked_add(raw).unwrap();
            if (shdr.characteristics & SCN_CNT_CODE) > 0 {
                self.nt_hdrs.optional_header.size_of_code = self.nt_hdrs.optional_header.size_of_code.checked_add(raw).unwrap();
            }
            if (shdr.characteristics & SCN_CNT_INITIALIZED_DATA) > 0 {
                self.nt_hdrs.optional_header.size_of_initialized_data = self.nt_hdrs.optional_header.size_of_initialized_data.checked_add(raw).unwrap();
            }
            if (shdr.characteristics & SCN_CNT_UNINITIALIZED_DATA) > 0 {
                self.nt_hdrs.optional_header.size_of_uninitialized_data = self.nt_hdrs.optional_header.size_of_uninitialized_data.checked_add(raw).unwrap();
            }
            let mapped = if shdr.virtual_size == 0 {
                raw
            } else {
                shdr.virtual_size
            };
            let end0 = shdr.virtual_address.saturating_add(mapped);
            let end = align_up_u32(end0, self.nt_hdrs.optional_header.section_alignment).unwrap();
            if end > self.nt_hdrs.optional_header.size_of_image {
                self.nt_hdrs.optional_header.size_of_image = end;
            }
            let fixed = SectionHeader { pointer_to_raw_data: off, size_of_raw_data: raw, ..shdr };
            self.sections.insert(i, (fixed, data));
            proof {
                assert(headers(self.sections@) =~= hs.update(i as int, fixed));
                assert(self.sections@.map_values(|s: (SectionHeader, Vec<u8>)| s.1) =~= datas);
            }
            off = new_off;
            i += 1;
        }
        proof {
            assert forall|k: int| 0 <= k < old(self).sections@.len() implies #[trigger] self.sections@[k].1
                == old(self).sections@[k].1 by {
                assert(self.sections@.map_values(|s: (SectionHeader, Vec<u8>)| s.1)[k] == datas[k]);
            }
        }
        Ok(())
    }
}

/// The raw sizes of the sections, added up.
pub open spec fn raw_total(ss: Seq<(SectionHeader, Vec<u8>)>) -> int
    decreases ss.len(),
{
    if ss.len() == 0 {
        0
    } else {
        ss[0].0.size_of_raw_data + raw_total(ss.drop_first())
    }
}

proof fn lemma_sections_image_len(ss: Seq<(SectionHeader, Vec<u8>)>, off: int)
    ensures
        sections_image(ss, off) matches Some(x) ==> x.len() == raw_total(ss),
        raw_total(ss) >= 0,
    decreases ss.len(),
{
    if ss.len() > 0 {
        lemma_sections_image_len(ss.drop_first(), off + ss[0].0.size_of_raw_data);
    }
}

proof fn lemma_section_table_len(hs: Seq<SectionHeader>)
    ensures
        section_table_bytes(hs).len() == 40 * hs.len(),
    decreases hs.len(),
{
    if hs.len() > 0 {
        lemma_section_table_len(hs.drop_last());
        reveal(section_header_bytes_1);
        reveal(section_header_bytes_2);
        assert(section_header_bytes(hs.last()).len() == 40);
    }
}

proof fn lemma_le_lens()
    ensures
        forall|x: int| #[trigger] le16_bytes(x).len() == 2,
        forall|x: int| #[trigger] le32_bytes(x).len() == 4,
        forall|x: int| #[trigger] le64_bytes(x).len() == 8,
{
}

proof fn lemma_dos_header_len(h: DosHeader)
    ensures
        dos_header_bytes(h).len() == 64,
{
    lemma_le_lens();
    assert(dos_header_bytes_1(h).len() == 16) by {
        reveal(dos_header_bytes_1);
    }
    assert(dos_header_bytes_2(h).len() == 16) by {
        reveal(dos_header_bytes_2);
    }
    assert(dos_header_bytes_3(h).len() == 16) by {
        reveal(dos_header_bytes_3);
    }
    assert(dos_header_bytes_4(h).len() == 16) by {
        reveal(dos_header_bytes_4);
    }
}

proof fn lemma_nt_headers_len(h: NtHeaders64)
    ensures
        nt_headers64_bytes(h).len() == 136,
{
    lemma_le_lens();
    let o = h.optional_header;
    assert(optional_header64_bytes_1(o).len() == 24) by {
        reveal(optional_header64_bytes_1);
    }
    assert(optional_header64_bytes_2(o).len() == 26) by {
        reveal(optional_header64_bytes_2);
    }
    assert(optional_header64_bytes_3(o).len() == 30) by {
        reveal(optional_header64_bytes_3);
    }
    assert(optional_header64_bytes_4(o).len() == 32) by {
        reveal(optional_header64_bytes_4);
    }
}

proof fn lemma_header_len(b: PeRebuilder)
    ensures
        header_bytes(b).len() == 200 + b.dos_data@.len() + b.nt_data@.len() + 40 * b.sections@.len(),
{
    lemma_dos_header_len(b.dos_hdr);
    lemma_nt_headers_len(b.nt_hdrs);
    lemma_section_table_len(headers(b.sections@));
}

impl<'s> PeRebuilder<'s> {
    /// Whether `write_pe` can write the image after `out_len` bytes: the
    /// headers fit in their size, each section's data lies at the offset
    /// its header gives within its raw size, and the whole fits in memory.
    pub fn can_write_pe(&self, out_len: usize) -> (r: bool)
        ensures
            r == (image_spec(*self) matches Some(img) && out_len + img.len() <= usize::MAX),
    {
        let ghost ss = self.sections@;
        let n = self.sections.len();
        let soh = self.nt_hdrs.optional_header.size_of_headers as u128;
        proof {
            lemma_header_len(*self);
            lemma_sections_image_len(ss, soh as int);
        }
        let hlen: u128 = 200 + self.dos_data.len() as u128 + self.nt_data.len() as u128 + 40
            * n as u128;
        if hlen > soh {
            return false;
        }
        let mut off: u128 = soh;
        let mut j: usize = 0;
        proof {
            assert(ss.subrange(0, n as int) =~= ss);
        }
        while j < n
            invariant
                j <= n == ss.len(),
                ss == self.sections@,
                off <= 0x1_0000_0000 * (j + 1),
                (sections_image(ss, soh as int) is Some) == (sections_image(
                    ss.subrange(j as int, n as int),
                    off as int,
                ) is Some),
                raw_total(ss) == (off - soh) + raw_total(ss.subrange(j as int, n as int)),
                raw_total(ss.subrange(j as int, n as int)) >= 0,
                header_bytes(*self).len() == hlen <= soh,
                soh == self.nt_hdrs.optional_header.size_of_headers,
                sections_image(ss, soh as int) matches Some(x) ==> x.len() == raw_total(ss),
            decreases n - j,
        {
            let h = self.sections[j].0;
            let d_len = self.sections[j].1.len();
            proof {
                let sub = ss.subrange(j as int, n as int);
                assert(sub[0] == ss[j as int]);
                assert(sub.drop_first() =~= ss.subrange(j + 1, n as int));
                lemma_sections_image_len(sub.drop_first(), off as int);
            }
            if h.pointer_to_raw_data as u128 != off || d_len as u128 > h.size_of_raw_data as u128 {
                return false;
            }
            off = off + h.size_of_raw_data as u128;
            j += 1;
        }
        proof {
            assert(ss.subrange(n as int, n as int) =~= Seq::<(SectionHeader, Vec<u8>)>::empty());
            let sb = sections_image(ss, soh as int)->0;
            assert(sb.len() == off - soh);
            assert(image_spec(*self) == Some(
                header_bytes(*self) + zeros(soh - hlen) + sb,
            ));
            assert(image_spec(*self)->0.len() == off);
        }
        out_len as u128 + off <= usize::MAX as u128
    }

    /// Writes the image: the headers padded to their size, then each
    /// section's data padded to its raw size, at the offsets that
    /// `fixup_offsets` set.
    pub fn write_pe(&self, out: &mut Vec<u8>)
        requires
            image_spec(*self) matches Some(img) && old(out)@.len() + img.len() <= usize::MAX,
        ensures
            final(out)@ == old(out)@ + image_spec(*self)->0,
    {
        let ghost start = out@;
        let ghost img = image_spec(*self)->0;
        let base = out.len();
        self.dos_hdr.push_bytes(out);
        push_all(out, self.dos_data);
        self.nt_hdrs.push_bytes(out);
        push_all(out, self.nt_data);
        let ghost fixed = dos_header_bytes(self.dos_hdr) + self.dos_data@ + nt_headers64_bytes(
            self.nt_hdrs,
        ) + self.nt_data@;
        let ghost hs = headers(self.sections@);
        let n = self.sections.len();
        let mut i: usize = 0;
        proof {
            assert(hs.take(0) =~= Seq::<SectionHeader>::empty());
            assert(out@ =~= start + fixed + section_table_bytes(hs.take(0)));
        }
        while i < n
            invariant
                i <= n == self.sections@.len(),
                hs == headers(self.sections@),
                out@ == start + fixed + section_table_bytes(hs.take(i as int)),
            decreases n - i,
        {
            proof {
                assert(hs.take(i + 1).drop_last() =~= hs.take(i as int));
                assert(hs.take(i + 1).last() == self.sections@[i as int].0);
            }
            self.sections[i].0.push_bytes(out);
            proof {
                assert(out@ =~= start + fixed + section_table_bytes(hs.take(i + 1)));
            }
            i += 1;
        }
        proof {
            assert(hs.take(n as int) =~= hs);
            assert(out@ =~= start + header_bytes(*self));
        }
        let soh = self.nt_hdrs.optional_header.size_of_headers as usize;
        let hlen = out.len() - base;
        write_zeros(out, soh - hlen);
        let ghost ss = self.sections@;
        let ghost written = header_bytes(*self) + zeros(soh - hlen);
        let mut off: usize = soh;
        let mut j: usize = 0;
        proof {
            assert(ss.subrange(0, n as int) =~= ss);
        }
        while j < n
            invariant
                j <= n == ss.len(),
                ss == self.sections@,
                out@.len() == base + off,
                out@ == start + written,
                sections_image(ss.subrange(j as int, n as int), off as int) matches Some(rest)
                    && img == written + rest,
                base + img.len() <= usize::MAX,
            decreases n - j,
        {
            let ghost tail = ss.subrange(j as int, n as int);
            proof {
                assert(tail.drop_first() =~= ss.subrange(j + 1, n as int));
                assert(tail[0] == ss[j as int]);
            }
            let h = &self.sections[j].0;
            let d = &self.sections[j].1;
            let ghost rest_after = sections_image(ss.subrange(j + 1, n as int), off + h.size_of_raw_data)->0;
            proof {
                assert(img == written + (d@ + zeros(h.size_of_raw_data - d@.len()) + rest_after));
            }
            push_all(out, d.as_slice());
            let pad = h.size_of_raw_data as usize - d.len();
            write_zeros(out, pad);
            proof {
                written = written + (d@ + zeros(pad as int));
                assert(img =~= written + rest_after);
                assert(out@ =~= start + written);
            }
            off = out.len() - base;
            j += 1;
        }
        proof {
            assert(ss.subrange(n as int, n as int) =~= Seq::<(SectionHeader, Vec<u8>)>::empty());
            assert(img =~= written);
        }
    }

    /// Takes over what the kernel image says of itself: it must support
    /// loading the initrd through LoadFile2 (image major version 1 or
    /// later); the rebuilt image then declares that support and the kernel's
    /// NX compatibility. Returns `false`, changing nothing, for a kernel
    /// without that support.
    pub fn adopt_kernel_properties(&mut self, kernel: &PeRef) -> (ok: bool)
        ensures
            ok == (kernel.nt_hdrs.optional_header.major_image_version >= 1),
            !ok ==> *final(self) == *old(self),
            ok ==> final(self).dos_hdr == old(self).dos_hdr && final(self).dos_data == old(
                self,
            ).dos_data && final(self).nt_data == old(self).nt_data && final(self).sections
                == old(self).sections && final(self).nt_hdrs == (NtHeaders64 {
                optional_header: OptionalHeader64 {
                    major_image_version: 1,
                    dll_characteristics: if (kernel.nt_hdrs.optional_header.dll_characteristics
                        & crate::peimage::DLLCHARACTERISTICS_NX_COMPAT) != 0 {
                        old(self).nt_hdrs.optional_header.dll_characteristics
                            | crate::peimage::DLLCHARACTERISTICS_NX_COMPAT
                    } else {
                        old(self).nt_hdrs.optional_header.dll_characteristics
                            & !crate::peimage::DLLCHARACTERISTICS_NX_COMPAT
                    },
                    ..old(self).nt_hdrs.optional_header
                },
                ..old(self).nt_hdrs
            }),
    {
        if kernel.nt_hdrs.optional_header.major_image_version < 1 {
            return false;
        }
        self.nt_hdrs.optional_header.major_image_version = 1;
        let nx = crate::peimage::DLLCHARACTERISTICS_NX_COMPAT;
        if (kernel.nt_hdrs.optional_header.dll_characteristics & nx) != 0 {
            self.nt_hdrs.optional_header.dll_characteristics = self.nt_hdrs.optional_header.dll_characteristics
                | nx;
        } else {
            self.nt_hdrs.optional_header.dll_characteristics = self.nt_hdrs.optional_header.dll_characteristics
                & !nx;
        }
        true
    }
}

/// The DOS and NT headers describe a PE32+ image laid out as `write_pe`
/// writes it: the NT headers right after the DOS stub `dos_data`, and the
/// section table right after the data directories `nt_data`.
pub open spec fn stub_headers_ok(dos: DosHeader, dos_data: Seq<u8>, nt: NtHeaders64, nt_data: Seq<u8>) -> bool {
    &&& dos.e_magic == 0x5a4d
    &&& dos.e_lfanew == 64 + dos_data.len()
    &&& nt.signature == 0x4550
    &&& nt.optional_header.magic == 0x20b
    &&& nt.file_header.size_of_optional_header == 112 + nt_data.len()
}

/// The headers of a rebuilder describe the image `write_pe` writes, with
/// one section header per section.
pub open spec fn pe_headers_ok(b: PeRebuilder) -> bool {
    &&& stub_headers_ok(b.dos_hdr, b.dos_data@, b.nt_hdrs, b.nt_data@)
    &&& b.nt_hdrs.file_header.number_of_sections == b.sections@.len()
}

/// The headers of a parsed image describe it as `write_pe` lays it out.
pub proof fn lemma_parsed_headers_ok(pe: PeRef, s: Seq<u8>)
    requires
        pe_of(pe, s),
        le32(s, 60) >= 64,
    ensures
        stub_headers_ok(pe.dos_hdr, pe.dos_data@, pe.nt_hdrs, pe.nt_data@),
{
}

/// A section's data padded with zeros to its raw size.
pub open spec fn padded_data(s: (SectionHeader, Vec<u8>)) -> Seq<u8> {
    s.1@ + zeros(s.0.size_of_raw_data - s.1@.len())
}

proof fn lemma_le16_at(s: Seq<u8>, off: int, x: int)
    requires
        0 <= off,
        off + 2 <= s.len(),
        0 <= x < 65536,
        s.subrange(off, off + 2) == le16_bytes(x),
    ensures
        le16(s, off) == x,
{
    lemma_le16_roundtrip(x);
    let t = s.subrange(off, off + 2);
    assert(t[0] == s[off] && t[1] == s[off + 1]);
}

proof fn lemma_le32_at(s: Seq<u8>, off: int, x: int)
    requires
        0 <= off,
        off + 4 <= s.len(),
        0 <= x < 4294967296,
        s.subrange(off, off + 4) == le32_bytes(x),
    ensures
        le32(s, off) == x,
{
    lemma_le32_roundtrip(x);
    let t = s.subrange(off, off + 4);
    assert(t[0] == s[off] && t[1] == s[off + 1] && t[2] == s[off + 2] && t[3] == s[off + 3]);
}

proof fn lemma_section_header_fields(h: SectionHeader)
    ensures
        section_header_bytes(h).len() == 40,
        section_header_bytes(h).subrange(0, 8) == h.name@,
        section_header_bytes(h).subrange(16, 20) == le32_bytes(h.size_of_raw_data as int),
        section_header_bytes(h).subrange(20, 24) == le32_bytes(h.pointer_to_raw_data as int),
{
    lemma_le_lens();
    assert(h.name@.len() == 8);
    reveal(section_header_bytes_1);
    reveal(section_header_bytes_2);
    let s = section_header_bytes(h);
    assert(s.subrange(0, 8) =~= h.name@);
    assert(s.subrange(16, 20) =~= le32_bytes(h.size_of_raw_data as int));
    assert(s.subrange(20, 24) =~= le32_bytes(h.pointer_to_raw_data as int));
}

proof fn lemma_section_table_entry(hs: Seq<SectionHeader>, k: int)
    requires
        0 <= k < hs.len(),
    ensures
        section_table_bytes(hs).subrange(40 * k, 40 * k + 40) == section_header_bytes(hs[k]),
    decreases hs.len(),
{
    lemma_section_table_len(hs);
    lemma_section_table_len(hs.drop_last());
    let t = section_table_bytes(hs);
    let t0 = section_table_bytes(hs.drop_last());
    if k < hs.len() - 1 {
        lemma_section_table_entry(hs.drop_last(), k);
        assert(t.subrange(40 * k, 40 * k + 40) =~= t0.subrange(40 * k, 40 * k + 40));
    } else {
        assert(t.subrange(40 * k, 40 * k + 40) =~= section_header_bytes(hs.last()));
    }
}

proof fn lemma_sections_image_parts(ss: Seq<(SectionHeader, Vec<u8>)>, off: int, k: int)
    requires
        sections_image(ss, off) is Some,
        0 <= k < ss.len(),
    ensures
        ({
            let x = sections_image(ss, off)->0;
            let h = ss[k].0;
            &&& off <= h.pointer_to_raw_data
            &&& h.pointer_to_raw_data + h.size_of_raw_data <= off + x.len()
            &&& ss[k].1@.len() <= h.size_of_raw_data
            &&& x.subrange(
                h.pointer_to_raw_data - off,
                h.pointer_to_raw_data - off + h.size_of_raw_data,
            ) == padded_data(ss[k])
        }),
    decreases ss.len(),
{
    let x = sections_image(ss, off)->0;
    let h0 = ss[0].0;
    let d0 = ss[0].1@;
    let off1 = off + h0.size_of_raw_data;
    let rest = sections_image(ss.drop_first(), off1)->0;
    let pad = d0 + zeros(h0.size_of_raw_data - d0.len());
    assert(x == pad + rest);
    assert(pad.len() == h0.size_of_raw_data);
    if k == 0 {
        assert(x.subrange(0, h0.size_of_raw_data as int) =~= pad);
    } else {
        lemma_sections_image_parts(ss.drop_first(), off1, k - 1);
        assert(ss.drop_first()[k - 1] == ss[k]);
        let h = ss[k].0;
        assert(x.subrange(h.pointer_to_raw_data - off, h.pointer_to_raw_data - off + h.size_of_raw_data)
            =~= rest.subrange(
            h.pointer_to_raw_data - off1,
            h.pointer_to_raw_data - off1 + h.size_of_raw_data,
        ));
    }
}

/// The `k`-th entry of a section table gives the name, raw size and raw
/// offset of the `k`-th header at the places a reader looks for them.
pub proof fn lemma_section_table_fields(hs: Seq<SectionHeader>, k: int)
    requires
        0 <= k < hs.len(),
    ensures
        section_table_bytes(hs).len() == 40 * hs.len(),
        section_table_bytes(hs).subrange(40 * k, 40 * k + 8) == hs[k].name@,
        le32(section_table_bytes(hs), 40 * k + 16) == hs[k].size_of_raw_data,
        le32(section_table_bytes(hs), 40 * k + 20) == hs[k].pointer_to_raw_data,
{
    let t = section_table_bytes(hs);
    let e = section_header_bytes(hs[k]);
    lemma_section_table_len(hs);
    lemma_section_table_entry(hs, k);
    lemma_section_header_fields(hs[k]);
    assert(t.subrange(40 * k, 40 * k + 8) =~= e.subrange(0, 8));
    assert(t.subrange(40 * k + 16, 40 * k + 20) =~= e.subrange(16, 20));
    assert(t.subrange(40 * k + 20, 40 * k + 24) =~= e.subrange(20, 24));
    lemma_le32_at(t, 40 * k + 16, hs[k].size_of_raw_data as int);
    lemma_le32_at(t, 40 * k + 20, hs[k].pointer_to_raw_data as int);
}

/// The image that `write_pe` writes for a rebuilder whose headers describe
/// it is a PE32+ image: parsing checks pass, the section table right after
/// the data directories holds the rebuilder's section headers, and each
/// section's raw bytes are its data padded with zeros to its raw size.
#[verifier::rlimit(80)]
pub proof fn lemma_image_layout(b: PeRebuilder)
    requires
        pe_headers_ok(b),
        image_spec(b) is Some,
    ensures
        ({
            let img = image_spec(b)->0;
            let start: int = 200 + b.dos_data@.len() as int + b.nt_data@.len() as int;
            let n: int = b.sections@.len() as int;
            &&& pe_layout(img) == Ok::<(int, int), PeError>((start, start + 40 * n))
            &&& le16(img, le32(img, 60) + 6) == n
            &&& img.subrange(start, start + 40 * n) == section_table_bytes(headers(b.sections@))
            &&& forall|k: int|
                #![trigger b.sections@[k]]
                0 <= k < n ==> {
                    let h = b.sections@[k].0;
                    &&& h.pointer_to_raw_data + h.size_of_raw_data <= img.len()
                    &&& img.subrange(
                        h.pointer_to_raw_data as int,
                        h.pointer_to_raw_data + h.size_of_raw_data,
                    ) == padded_data(b.sections@[k])
                }
        }),
{
    let img = image_spec(b)->0;
    let ss = b.sections@;
    let hs = headers(ss);
    let n: int = ss.len() as int;
    let dd = b.dos_data@;
    let nd = b.nt_data@;
    let d = dos_header_bytes(b.dos_hdr);
    let nt = nt_headers64_bytes(b.nt_hdrs);
    let t = section_table_bytes(hs);
    let hb = header_bytes(b);
    let soh = b.nt_hdrs.optional_header.size_of_headers as int;
    let sb = sections_image(ss, soh)->0;
    lemma_dos_header_len(b.dos_hdr);
    lemma_nt_headers_len(b.nt_hdrs);
    lemma_section_table_len(hs);
    lemma_le_lens();
    assert(hb == d + dd + nt + nd + t);
    assert(img == hb + zeros(soh - hb.len()) + sb);
    let lf: int = 64 + dd.len() as int;
    let start: int = lf + 136 + nd.len();
    // The DOS header.
    assert(d.subrange(0, 2) == le16_bytes(b.dos_hdr.e_magic as int)) by {
        reveal(dos_header_bytes_1);
        assert(d.subrange(0, 2) =~= dos_header_bytes_1(b.dos_hdr).subrange(0, 2));
        assert(dos_header_bytes_1(b.dos_hdr).subrange(0, 2) =~= le16_bytes(b.dos_hdr.e_magic as int));
    }
    assert(d.subrange(60, 64) == le32_bytes(b.dos_hdr.e_lfanew as int)) by {
        reveal(dos_header_bytes_1);
        reveal(dos_header_bytes_2);
        reveal(dos_header_bytes_3);
        reveal(dos_header_bytes_4);
        assert(d.subrange(60, 64) =~= dos_header_bytes_4(b.dos_hdr).subrange(12, 16));
        assert(dos_header_bytes_4(b.dos_hdr).subrange(12, 16) =~= le32_bytes(b.dos_hdr.e_lfanew as int));
    }
    assert(img.subrange(0, 2) =~= d.subrange(0, 2));
    assert(img.subrange(60, 64) =~= d.subrange(60, 64));
    lemma_le16_at(img, 0, b.dos_hdr.e_magic as int);
    lemma_le32_at(img, 60, b.dos_hdr.e_lfanew as int);
    // The NT headers.
    let fh = b.nt_hdrs.file_header;
    assert(nt.subrange(0, 4) =~= le32_bytes(b.nt_hdrs.signature as int));
    assert(nt.subrange(6, 8) =~= le16_bytes(fh.number_of_sections as int));
    assert(nt.subrange(20, 22) =~= le16_bytes(fh.size_of_optional_header as int));
    assert(nt.subrange(24, 26) == le16_bytes(b.nt_hdrs.optional_header.magic as int)) by {
        reveal(optional_header64_bytes_1);
        reveal(optional_header64_bytes_2);
        reveal(optional_header64_bytes_3);
        reveal(optional_header64_bytes_4);
        assert(nt.subrange(24, 26) =~= optional_header64_bytes_1(b.nt_hdrs.optional_header).subrange(0, 2));
        assert(optional_header64_bytes_1(b.nt_hdrs.optional_header).subrange(0, 2) =~= le16_bytes(
            b.nt_hdrs.optional_header.magic as int,
        ));
    }
    assert(img.subrange(lf, lf + 4) =~= nt.subrange(0, 4));
    assert(img.subrange(lf + 6, lf + 8) =~= nt.subrange(6, 8));
    assert(img.subrange(lf + 20, lf + 22) =~= nt.subrange(20, 22));
    assert(img.subrange(lf + 24, lf + 26) =~= nt.subrange(24, 26));
    lemma_le32_at(img, lf, b.nt_hdrs.signature as int);
    lemma_le16_at(img, lf + 6, fh.number_of_sections as int);
    lemma_le16_at(img, lf + 20, fh.size_of_optional_header as int);
    lemma_le16_at(img, lf + 24, b.nt_hdrs.optional_header.magic as int);
    // The section table and the sections.
    assert(img.subrange(start, start + 40 * n) =~= t);
    assert forall|k: int| #![trigger b.sections@[k]] 0 <= k < n implies {
        let h = b.sections@[k].0;
        &&& h.pointer_to_raw_data + h.size_of_raw_data <= img.len()
        &&& img.subrange(h.pointer_to_raw_data as int, h.pointer_to_raw_data + h.size_of_raw_data)
            == padded_data(b.sections@[k])
    } by {
        lemma_sections_image_parts(ss, soh, k);
        let h = ss[k].0;
        assert(img.subrange(h.pointer_to_raw_data as int, h.pointer_to_raw_data + h.size_of_raw_data)
            =~= sb.subrange(
            h.pointer_to_raw_data - soh,
            h.pointer_to_raw_data - soh + h.size_of_raw_data,
        ));
    }
}

/// The raw sizes of the sections `i` up to `j`, each aligned to the file
/// alignment `fa`, added up.
pub open spec fn aligned_raw_sum(hs: Seq<SectionHeader>, fa: int, i: int, j: int) -> int
    decreases j - i,
{
    if j <= i {
        0
    } else {
        aligned_raw_sum(hs, fa, i, j - 1) + crate::peimage::align_up32(
            hs[j - 1].size_of_raw_data as int,
            fa,
        )->0
    }
}

proof fn lemma_fix_loop_facts(oh: OptionalHeader64, hs: Seq<SectionHeader>, i: int, off: int)
    requires
        0 <= i <= hs.len(),
        0 <= off,
        fix_loop(oh, hs, i, off) is Some,
    ensures
        ({
            let (res, oh2, hs2) = fix_loop(oh, hs, i, off)->0;
            let fa = oh.file_alignment as int;
            &&& oh2.size_of_headers == oh.size_of_headers
            &&& oh2.file_alignment == oh.file_alignment
            &&& hs2.len() == hs.len()
            &&& forall|j: int| 0 <= j < i ==> hs2[j] == hs[j]
            &&& (res is Err <==> exists|j: int|
                i <= j < hs.len() && oh.size_of_headers > #[trigger] hs[j].virtual_address)
            &&& res is Err ==> res == Err::<(), PeRebuildError>(PeRebuildError::HeadersTooLarge)
            &&& res is Ok ==> forall|j: int|
                i <= j < hs.len() ==> {
                    &&& #[trigger] hs2[j].pointer_to_raw_data == off + aligned_raw_sum(hs, fa, i, j)
                    &&& hs2[j].size_of_raw_data == crate::peimage::align_up32(
                        hs[j].size_of_raw_data as int,
                        fa,
                    )->0
                    &&& hs2[j].virtual_address == hs[j].virtual_address
                }
        }),
    decreases hs.len() - i,
{
    if i < hs.len() {
        let h = hs[i];
        if oh.size_of_headers > h.virtual_address {
            assert(oh.size_of_headers > hs[i].virtual_address);
        } else {
            let fa = oh.file_alignment as int;
            let raw = crate::peimage::align_up32(h.size_of_raw_data as int, fa)->0;
            let code = if (h.characteristics & SCN_CNT_CODE) > 0 {
                oh.size_of_code + raw
            } else {
                oh.size_of_code as int
            };
            let init = if (h.characteristics & SCN_CNT_INITIALIZED_DATA) > 0 {
                oh.size_of_initialized_data + raw
            } else {
                oh.size_of_initialized_data as int
            };
            let uninit = if (h.characteristics & SCN_CNT_UNINITIALIZED_DATA) > 0 {
                oh.size_of_uninitialized_data + raw
            } else {
                oh.size_of_uninitialized_data as int
            };
            let mapped = if h.virtual_size == 0 {
                raw
            } else {
                h.virtual_size as int
            };
            let end0 = if h.virtual_address + mapped > u32::MAX {
                u32::MAX as int
            } else {
                h.virtual_address + mapped
            };
            let end = crate::peimage::align_up32(end0, oh.section_alignment as int)->0;
            let oh1 = OptionalHeader64 {
                size_of_code: code as u32,
                size_of_initialized_data: init as u32,
                size_of_uninitialized_data: uninit as u32,
                size_of_image: if end > oh.size_of_image {
                    end as u32
                } else {
                    oh.size_of_image
                },
                ..oh
            };
            let hs1 = hs.update(
                i,
                SectionHeader { pointer_to_raw_data: off as u32, size_of_raw_data: raw as u32, ..h },
            );
            assert(fix_loop(oh, hs, i, off) == fix_loop(oh1, hs1, i + 1, off + raw));
            lemma_fix_loop_facts(oh1, hs1, i + 1, off + raw);
            let (res, oh2, hs2) = fix_loop(oh, hs, i, off)->0;
            if exists|j: int| i <= j < hs.len() && oh.size_of_headers > #[trigger] hs[j].virtual_address {
                let j = choose|j: int| i <= j < hs.len() && oh.size_of_headers > #[trigger] hs[j].virtual_address;
                assert(j > i);
                assert(hs1[j] == hs[j]);
                assert(oh1.size_of_headers > hs1[j].virtual_address);
            }
            if exists|j: int| i + 1 <= j < hs1.len() && oh1.size_of_headers > #[trigger] hs1[j].virtual_address {
                let j = choose|j: int| i + 1 <= j < hs1.len() && oh1.size_of_headers > #[trigger] hs1[j].virtual_address;
                assert(hs1[j] == hs[j]);
                assert(oh.size_of_headers > hs[j].virtual_address);
            }
            if res is Ok {
                assert forall|j: int| i <= j < hs.len() implies {
                    &&& #[trigger] hs2[j].pointer_to_raw_data == off + aligned_raw_sum(hs, fa, i, j)
                    &&& hs2[j].size_of_raw_data == crate::peimage::align_up32(
                        hs[j].size_of_raw_data as int,
                        fa,
                    )->0
                    &&& hs2[j].virtual_address == hs[j].virtual_address
                } by {
                    if j == i {
                        assert(0 <= raw <= u32::MAX);
                        assert(off + raw <= u32::MAX);
                        assert(hs2[i] == hs1[i]);
                        assert(aligned_raw_sum(hs, fa, i, i) == 0);
                    }
                    if j > i {
                        assert(hs1[j] == hs[j]);
                        lemma_raw_sum_first(hs, fa, i, j);
                        lemma_raw_sum_same(hs, hs1, fa, i + 1, j);
                        assert(hs2[j].pointer_to_raw_data == off + raw + aligned_raw_sum(hs1, fa, i + 1, j));
                    }
                }
            }
        }
    }
}

proof fn lemma_raw_sum_first(hs: Seq<SectionHeader>, fa: int, i: int, j: int)
    requires
        0 <= i < j,
    ensures
        aligned_raw_sum(hs, fa, i, j) == crate::peimage::align_up32(hs[i].size_of_raw_data as int, fa)->0
            + aligned_raw_sum(hs, fa, i + 1, j),
    decreases j - i,
{
    reveal_with_fuel(aligned_raw_sum, 2);
    if j > i + 1 {
        lemma_raw_sum_first(hs, fa, i, j - 1);
    }
}

proof fn lemma_raw_sum_same(a: Seq<SectionHeader>, b: Seq<SectionHeader>, fa: int, i: int, j: int)
    requires
        forall|k: int| i <= k < j ==> a[k] == b[k],
    ensures
        aligned_raw_sum(a, fa, i, j) == aligned_raw_sum(b, fa, i, j),
    decreases j - i,
{
    if j > i {
        lemma_raw_sum_same(a, b, fa, i, j - 1);
    }
}

/// The layout that `fixup_offsets` computes: it fails with
/// `HeadersTooLarge` exactly when a section's virtual address lies below
/// the header size; otherwise each section's raw data starts at the header
/// size plus the aligned raw sizes of the sections before it, and its raw
/// size is aligned to the file alignment.
pub proof fn lemma_fixup_layout(dos: DosHeader, nt: NtHeaders64, hs: Seq<SectionHeader>, maximize_header_space: bool)
    requires
        fixup_spec(dos, nt, hs, maximize_header_space) is Some,
    ensures
        ({
            let (res, nt2, hs2) = fixup_spec(dos, nt, hs, maximize_header_space)->0;
            let soh = nt2.optional_header.size_of_headers;
            let fa = nt.optional_header.file_alignment as int;
            &&& hs2.len() == hs.len()
            &&& (res == Err::<(), PeRebuildError>(PeRebuildError::HeadersTooLarge) <==> exists|j: int|
                0 <= j < hs.len() && #[trigger] hs[j].virtual_address < soh)
            &&& res is Ok ==> forall|j: int|
                0 <= j < hs.len() ==> {
                    &&& #[trigger] hs2[j].pointer_to_raw_data == soh + aligned_raw_sum(hs, fa, 0, j)
                    &&& hs2[j].size_of_raw_data == crate::peimage::align_up32(
                        hs[j].size_of_raw_data as int,
                        fa,
                    )->0
                }
        }),
{
    let nsec = hs.len() as u16;
    let fh = FileHeader { number_of_sections: nsec, ..nt.file_header };
    let unaligned0 = dos.e_lfanew + 24 + fh.size_of_optional_header + nsec * 40;
    let unaligned = if maximize_header_space && min_va(hs, unaligned0) > unaligned0 {
        min_va(hs, unaligned0)
    } else {
        unaligned0
    };
    let img = crate::peimage::align_up32(unaligned, nt.optional_header.section_alignment as int)->0;
    let hsz = crate::peimage::align_up32(unaligned, nt.optional_header.file_alignment as int)->0;
    let oh = OptionalHeader64 {
        size_of_code: 0,
        size_of_initialized_data: 0,
        size_of_uninitialized_data: 0,
        size_of_image: img as u32,
        size_of_headers: hsz as u32,
        ..nt.optional_header
    };
    lemma_fix_loop_facts(oh, hs, 0, hsz);
    assert(hsz >= 0);
}

} // verus!
