//! PE32+ (PE/COFF) images: header decoding, section access and loading
//! into memory.
use vstd::prelude::*;
use vstd::string::StringExecFns;
use crate::bytes::{copy_into, fill_range, le16, le32, le64, read_le16, read_le32, read_le64, write_at};

verus! {

/// `MZ`, the DOS header signature.
pub const DOS_SIGNATURE: u16 = 0x5a4d;

/// `PE\0\0`, the NT headers signature.
pub const NT_SIGNATURE: u32 = 0x4550;

/// Magic of the PE32+ optional header.
pub const NT_OPTIONAL_HDR64_MAGIC: u16 = 0x20b;

/// Data directory index of the export table.
pub const DIRECTORY_ENTRY_EXPORT: usize = 0;
/// Data directory index of the import table.
pub const DIRECTORY_ENTRY_IMPORT: usize = 1;
/// Data directory index of the resource table.
pub const DIRECTORY_ENTRY_RESOURCE: usize = 2;
/// Data directory index of the exception table.
pub const DIRECTORY_ENTRY_EXCEPTION: usize = 3;
/// Data directory index of the certificate table.
pub const DIRECTORY_ENTRY_SECURITY: usize = 4;
/// Data directory index of the base relocation table.
pub const DIRECTORY_ENTRY_BASERELOC: usize = 5;
/// Data directory index of the debug data.
pub const DIRECTORY_ENTRY_DEBUG: usize = 6;
/// Data directory index of the architecture data.
pub const DIRECTORY_ENTRY_COPYRIGHT: usize = 7;
/// Data directory index of the global pointer.
pub const DIRECTORY_ENTRY_GLOBALPTR: usize = 8;
/// Data directory index of the TLS table.
pub const DIRECTORY_ENTRY_TLS: usize = 9;
/// Data directory index of the load configuration table.
pub const DIRECTORY_ENTRY_LOAD_CONFIG: usize = 10;
/// Number of data directories.
pub const NUMBER_OF_DIRECTORY_ENTRIES: usize = 16;

/// The image is compatible with data execution prevention.
pub const DLLCHARACTERISTICS_NX_COMPAT: u16 = 0x0100;

/// Section contains code.
pub const SCN_CNT_CODE: u32 = 0x00000020;
/// Section contains initialized data.
pub const SCN_CNT_INITIALIZED_DATA: u32 = 0x00000040;
/// Section contains uninitialized data.
pub const SCN_CNT_UNINITIALIZED_DATA: u32 = 0x00000080;
/// Section can be discarded.
pub const SCN_MEM_DISCARDABLE: u32 = 0x02000000;
/// Section cannot be cached.
pub const SCN_MEM_NOT_CACHED: u32 = 0x04000000;
/// Section is not pageable.
pub const SCN_MEM_NOT_PAGED: u32 = 0x08000000;
/// Section can be shared in memory.
pub const SCN_MEM_SHARED: u32 = 0x10000000;
/// Section can be executed.
pub const SCN_MEM_EXECUTE: u32 = 0x20000000;
/// Section can be read.
pub const SCN_MEM_READ: u32 = 0x40000000;
/// Section can be written.
pub const SCN_MEM_WRITE: u32 = 0x80000000;

/// Size of the DOS header.
pub const DOS_HEADER_SIZE: usize = 64;
/// Size of the NT headers (signature, file header, optional header).
pub const NT_HEADERS_SIZE: usize = 136;
/// Size of the optional header.
pub const OPTIONAL_HEADER_SIZE: usize = 112;
/// Size of a section header.
pub const SECTION_HEADER_SIZE: usize = 40;

/// The MS-DOS header at the start of a PE image (64 bytes).
#[derive(Clone, Copy, Debug)]
pub struct DosHeader {
    pub e_magic: u16,
    pub e_cblp: u16,
    pub e_cp: u16,
    pub e_crlc: u16,
    pub e_cparhdr: u16,
    pub e_minalloc: u16,
    pub e_maxalloc: u16,
    pub e_ss: u16,
    pub e_sp: u16,
    pub e_csum: u16,
    pub e_ip: u16,
    pub e_cs: u16,
    pub e_lfarlc: u16,
    pub e_ovno: u16,
    pub e_res: [u16; 4],
    pub e_oemid: u16,
    pub e_oeminfo: u16,
    pub e_res2: [u16; 10],
    pub e_lfanew: u32,
}

/// `h` is the DosHeader stored at offset `base` of `s`.
pub open spec fn dos_header_at(h: DosHeader, s: Seq<u8>, base: int) -> bool {
    &&& h.e_magic == le16(s, base + 0)
    &&& h.e_cblp == le16(s, base + 2)
    &&& h.e_cp == le16(s, base + 4)
    &&& h.e_crlc == le16(s, base + 6)
    &&& h.e_cparhdr == le16(s, base + 8)
    &&& h.e_minalloc == le16(s, base + 10)
    &&& h.e_maxalloc == le16(s, base + 12)
    &&& h.e_ss == le16(s, base + 14)
    &&& h.e_sp == le16(s, base + 16)
    &&& h.e_csum == le16(s, base + 18)
    &&& h.e_ip == le16(s, base + 20)
    &&& h.e_cs == le16(s, base + 22)
    &&& h.e_lfarlc == le16(s, base + 24)
    &&& h.e_ovno == le16(s, base + 26)
    &&& forall|i: int| 0 <= i < 4 ==> #[trigger] h.e_res[i] == le16(s, base + 28 + 2 * i)
    &&& h.e_oemid == le16(s, base + 36)
    &&& h.e_oeminfo == le16(s, base + 38)
    &&& forall|i: int| 0 <= i < 10 ==> #[trigger] h.e_res2[i] == le16(s, base + 40 + 2 * i)
    &&& h.e_lfanew == le32(s, base + 60)
}

impl DosHeader {
    /// Decodes the structure stored at offset `base` of `s`.
    pub fn read(s: &[u8], base: usize) -> (h: DosHeader)
        requires
            base + 64 <= s@.len(),
        ensures
            dos_header_at(h, s@, base as int),
    {
        let _n = s.len();
        let h = DosHeader {
            e_magic: read_le16(s, base + 0),
            e_cblp: read_le16(s, base + 2),
            e_cp: read_le16(s, base + 4),
            e_crlc: read_le16(s, base + 6),
            e_cparhdr: read_le16(s, base + 8),
            e_minalloc: read_le16(s, base + 10),
            e_maxalloc: read_le16(s, base + 12),
            e_ss: read_le16(s, base + 14),
            e_sp: read_le16(s, base + 16),
            e_csum: read_le16(s, base + 18),
            e_ip: read_le16(s, base + 20),
            e_cs: read_le16(s, base + 22),
            e_lfarlc: read_le16(s, base + 24),
            e_ovno: read_le16(s, base + 26),
            e_res: [read_le16(s, base + 28), read_le16(s, base + 30), read_le16(s, base + 32), read_le16(s, base + 34)],
            e_oemid: read_le16(s, base + 36),
            e_oeminfo: read_le16(s, base + 38),
            e_res2: [read_le16(s, base + 40), read_le16(s, base + 42), read_le16(s, base + 44), read_le16(s, base + 46), read_le16(s, base + 48), read_le16(s, base + 50), read_le16(s, base + 52), read_le16(s, base + 54), read_le16(s, base + 56), read_le16(s, base + 58)],
            e_lfanew: read_le32(s, base + 60),
        };
        h
    }
}

/// The COFF file header (20 bytes).
#[derive(Clone, Copy, Debug)]
pub struct FileHeader {
    pub machine: u16,
    pub number_of_sections: u16,
    pub time_date_stamp: u32,
    pub pointer_to_symbol_table: u32,
    pub number_of_symbols: u32,
    pub size_of_optional_header: u16,
    pub characteristics: u16,
}

/// `h` is the FileHeader stored at offset `base` of `s`.
pub open spec fn file_header_at(h: FileHeader, s: Seq<u8>, base: int) -> bool {
    &&& h.machine == le16(s, base + 0)
    &&& h.number_of_sections == le16(s, base + 2)
    &&& h.time_date_stamp == le32(s, base + 4)
    &&& h.pointer_to_symbol_table == le32(s, base + 8)
    &&& h.number_of_symbols == le32(s, base + 12)
    &&& h.size_of_optional_header == le16(s, base + 16)
    &&& h.characteristics == le16(s, base + 18)
}

impl FileHeader {
    /// Decodes the structure stored at offset `base` of `s`.
    pub fn read(s: &[u8], base: usize) -> (h: FileHeader)
        requires
            base + 20 <= s@.len(),
        ensures
            file_header_at(h, s@, base as int),
    {
        let _n = s.len();
        let h = FileHeader {
            machine: read_le16(s, base + 0),
            number_of_sections: read_le16(s, base + 2),
            time_date_stamp: read_le32(s, base + 4),
            pointer_to_symbol_table: read_le32(s, base + 8),
            number_of_symbols: read_le32(s, base + 12),
            size_of_optional_header: read_le16(s, base + 16),
            characteristics: read_le16(s, base + 18),
        };
        h
    }
}

/// A data directory entry (8 bytes).
#[derive(Clone, Copy, Debug)]
pub struct DataDirectory {
    pub virtual_address: u32,
    pub size: u32,
}

/// `h` is the DataDirectory stored at offset `base` of `s`.
pub open spec fn data_directory_at(h: DataDirectory, s: Seq<u8>, base: int) -> bool {
    &&& h.virtual_address == le32(s, base + 0)
    &&& h.size == le32(s, base + 4)
}

impl DataDirectory {
    /// Decodes the structure stored at offset `base` of `s`.
    pub fn read(s: &[u8], base: usize) -> (h: DataDirectory)
        requires
            base + 8 <= s@.len(),
        ensures
            data_directory_at(h, s@, base as int),
    {
        let _n = s.len();
        let h = DataDirectory {
            virtual_address: read_le32(s, base + 0),
            size: read_le32(s, base + 4),
        };
        h
    }
}

/// The PE32+ optional header without its data directories (112 bytes).
#[derive(Clone, Copy, Debug)]
pub struct OptionalHeader64 {
    pub magic: u16,
    pub major_linker_version: u8,
    pub minor_linker_version: u8,
    pub size_of_code: u32,
    pub size_of_initialized_data: u32,
    pub size_of_uninitialized_data: u32,
    pub address_of_entry_point: u32,
    pub base_of_code: u32,
    pub image_base: u64,
    pub section_alignment: u32,
    pub file_alignment: u32,
    pub major_operating_system_version: u16,
    pub minor_operating_system_version: u16,
    pub major_image_version: u16,
    pub minor_image_version: u16,
    pub major_subsystem_version: u16,
    pub minor_subsystem_version: u16,
    pub win32_version_value: u32,
    pub size_of_image: u32,
    pub size_of_headers: u32,
    pub check_sum: u32,
    pub subsystem: u16,
    pub dll_characteristics: u16,
    pub size_of_stack_reserve: u64,
    pub size_of_stack_commit: u64,
    pub size_of_heap_reserve: u64,
    pub size_of_heap_commit: u64,
    pub loader_flags: u32,
    pub number_of_rva_and_sizes: u32,
}

/// `h` is the OptionalHeader64 stored at offset `base` of `s`.
pub open spec fn optional_header64_at(h: OptionalHeader64, s: Seq<u8>, base: int) -> bool {
    &&& h.magic == le16(s, base + 0)
    &&& h.major_linker_version == s[base + 2]
    &&& h.minor_linker_version == s[base + 3]
    &&& h.size_of_code == le32(s, base + 4)
    &&& h.size_of_initialized_data == le32(s, base + 8)
    &&& h.size_of_uninitialized_data == le32(s, base + 12)
    &&& h.address_of_entry_point == le32(s, base + 16)
    &&& h.base_of_code == le32(s, base + 20)
    &&& h.image_base == le64(s, base + 24)
    &&& h.section_alignment == le32(s, base + 32)
    &&& h.file_alignment == le32(s, base + 36)
    &&& h.major_operating_system_version == le16(s, base + 40)
    &&& h.minor_operating_system_version == le16(s, base + 42)
    &&& h.major_image_version == le16(s, base + 44)
    &&& h.minor_image_version == le16(s, base + 46)
    &&& h.major_subsystem_version == le16(s, base + 48)
    &&& h.minor_subsystem_version == le16(s, base + 50)
    &&& h.win32_version_value == le32(s, base + 52)
    &&& h.size_of_image == le32(s, base + 56)
    &&& h.size_of_headers == le32(s, base + 60)
    &&& h.check_sum == le32(s, base + 64)
    &&& h.subsystem == le16(s, base + 68)
    &&& h.dll_characteristics == le16(s, base + 70)
    &&& h.size_of_stack_reserve == le64(s, base + 72)
    &&& h.size_of_stack_commit == le64(s, base + 80)
    &&& h.size_of_heap_reserve == le64(s, base + 88)
    &&& h.size_of_heap_commit == le64(s, base + 96)
    &&& h.loader_flags == le32(s, base + 104)
    &&& h.number_of_rva_and_sizes == le32(s, base + 108)
}

impl OptionalHeader64 {
    /// Decodes the structure stored at offset `base` of `s`.
    pub fn read(s: &[u8], base: usize) -> (h: OptionalHeader64)
        requires
            base + 112 <= s@.len(),
        ensures
            optional_header64_at(h, s@, base as int),
    {
        let _n = s.len();
        let h = OptionalHeader64 {
            magic: read_le16(s, base + 0),
            major_linker_version: s[base + 2],
            minor_linker_version: s[base + 3],
            size_of_code: read_le32(s, base + 4),
            size_of_initialized_data: read_le32(s, base + 8),
            size_of_uninitialized_data: read_le32(s, base + 12),
            address_of_entry_point: read_le32(s, base + 16),
            base_of_code: read_le32(s, base + 20),
            image_base: read_le64(s, base + 24),
            section_alignment: read_le32(s, base + 32),
            file_alignment: read_le32(s, base + 36),
            major_operating_system_version: read_le16(s, base + 40),
            minor_operating_system_version: read_le16(s, base + 42),
            major_image_version: read_le16(s, base + 44),
            minor_image_version: read_le16(s, base + 46),
            major_subsystem_version: read_le16(s, base + 48),
            minor_subsystem_version: read_le16(s, base + 50),
            win32_version_value: read_le32(s, base + 52),
            size_of_image: read_le32(s, base + 56),
            size_of_headers: read_le32(s, base + 60),
            check_sum: read_le32(s, base + 64),
            subsystem: read_le16(s, base + 68),
            dll_characteristics: read_le16(s, base + 70),
            size_of_stack_reserve: read_le64(s, base + 72),
            size_of_stack_commit: read_le64(s, base + 80),
            size_of_heap_reserve: read_le64(s, base + 88),
            size_of_heap_commit: read_le64(s, base + 96),
            loader_flags: read_le32(s, base + 104),
            number_of_rva_and_sizes: read_le32(s, base + 108),
        };
        h
    }
}

/// A section header (40 bytes).
#[derive(Clone, Copy, Debug)]
pub struct SectionHeader {
    pub name: [u8; 8],
    pub virtual_size: u32,
    pub virtual_address: u32,
    pub size_of_raw_data: u32,
    pub pointer_to_raw_data: u32,
    pub pointer_to_relocations: u32,
    pub pointer_to_linenumbers: u32,
    pub number_of_relocations: u16,
    pub number_of_linenumbers: u16,
    pub characteristics: u32,
}

/// `h` is the SectionHeader stored at offset `base` of `s`.
pub open spec fn section_header_at(h: SectionHeader, s: Seq<u8>, base: int) -> bool {
    &&& h.name@ == s.subrange(base + 0, base + 8)
    &&& h.virtual_size == le32(s, base + 8)
    &&& h.virtual_address == le32(s, base + 12)
    &&& h.size_of_raw_data == le32(s, base + 16)
    &&& h.pointer_to_raw_data == le32(s, base + 20)
    &&& h.pointer_to_relocations == le32(s, base + 24)
    &&& h.pointer_to_linenumbers == le32(s, base + 28)
    &&& h.number_of_relocations == le16(s, base + 32)
    &&& h.number_of_linenumbers == le16(s, base + 34)
    &&& h.characteristics == le32(s, base + 36)
}

impl SectionHeader {
    /// Decodes the structure stored at offset `base` of `s`.
    pub fn read(s: &[u8], base: usize) -> (h: SectionHeader)
        requires
            base + 40 <= s@.len(),
        ensures
            section_header_at(h, s@, base as int),
    {
        let _n = s.len();
        let h = SectionHeader {
            name: [s[base + 0], s[base + 1], s[base + 2], s[base + 3], s[base + 4], s[base + 5], s[base + 6], s[base + 7]],
            virtual_size: read_le32(s, base + 8),
            virtual_address: read_le32(s, base + 12),
            size_of_raw_data: read_le32(s, base + 16),
            pointer_to_raw_data: read_le32(s, base + 20),
            pointer_to_relocations: read_le32(s, base + 24),
            pointer_to_linenumbers: read_le32(s, base + 28),
            number_of_relocations: read_le16(s, base + 32),
            number_of_linenumbers: read_le16(s, base + 34),
            characteristics: read_le32(s, base + 36),
        };
        assert(h.name@ =~= s@.subrange(base + 0, base + 8));
        h
    }
}

/// The NT headers: signature, file header and optional header (136 bytes).
#[derive(Clone, Copy, Debug)]
pub struct NtHeaders64 {
    pub signature: u32,
    pub file_header: FileHeader,
    pub optional_header: OptionalHeader64,
}

/// `h` is the NtHeaders64 stored at offset `base` of `s`.
pub open spec fn nt_headers64_at(h: NtHeaders64, s: Seq<u8>, base: int) -> bool {
    &&& h.signature == le32(s, base)
    &&& file_header_at(h.file_header, s, base + 4)
    &&& optional_header64_at(h.optional_header, s, base + 24)
}

impl NtHeaders64 {
    /// Decodes the structure stored at offset `base` of `s`.
    pub fn read(s: &[u8], base: usize) -> (h: NtHeaders64)
        requires
            base + 136 <= s@.len(),
        ensures
            nt_headers64_at(h, s@, base as int),
    {
        let _n = s.len();
        NtHeaders64 {
            signature: read_le32(s, base),
            file_header: FileHeader::read(s, base + 4),
            optional_header: OptionalHeader64::read(s, base + 24),
        }
    }
}

impl SectionHeader {
    /// The section name: the name bytes up to the first NUL.
    pub fn name(&self) -> (r: &[u8])
        ensures
            r@ == name_prefix(self.name@),
    {
        let mut end_i: usize = 0;
        while end_i < 8 && self.name[end_i] != 0
            invariant
                end_i <= 8,
                forall|j: int| 0 <= j < end_i ==> self.name@[j] != 0,
            decreases 8 - end_i,
        {
            end_i += 1;
        }
        proof {
            lemma_name_prefix(self.name@, end_i as int);
        }
        let all = self.name.as_slice();
        &all[0..end_i]
    }
}

/// The bytes of `n` before its first NUL.
pub open spec fn name_prefix(n: Seq<u8>) -> Seq<u8>
    decreases n.len(),
{
    if n.len() == 0 || n[0] == 0 {
        Seq::empty()
    } else {
        seq![n[0]] + name_prefix(n.drop_first())
    }
}

proof fn lemma_name_prefix(n: Seq<u8>, k: int)
    requires
        0 <= k <= n.len(),
        forall|j: int| 0 <= j < k ==> n[j] != 0,
        k == n.len() || n[k] == 0,
    ensures
        name_prefix(n) == n.subrange(0, k),
    decreases k,
{
    if k > 0 {
        lemma_name_prefix(n.drop_first(), k - 1);
        assert(n.subrange(0, k) =~= seq![n[0]] + n.drop_first().subrange(0, k - 1));
    } else {
        assert(n.subrange(0, 0) =~= Seq::<u8>::empty());
    }
}

/// Errors from PE parsing and loading.
#[derive(Clone, Copy, Debug, PartialEq, Eq, Structural)]
pub enum PeError {
    Truncated,
    BadHeader,
    RelocationsNotYetSupported,
}

/// The description of a PE error.
pub open spec fn pe_error_text(e: PeError) -> Seq<char> {
    match e {
        PeError::Truncated => "image truncated"@,
        PeError::BadHeader => "image has bad header"@,
        PeError::RelocationsNotYetSupported => "image has relocations, which are not yet supported"@,
    }
}

impl PeError {
    /// Human-readable description of the error.
    pub fn to_string(&self) -> (s: String)
        ensures
            s@ == pe_error_text(*self),
    {
        match self {
            PeError::Truncated => String::from_str("image truncated"),
            PeError::BadHeader => String::from_str("image has bad header"),
            PeError::RelocationsNotYetSupported => String::from_str(
                "image has relocations, which are not yet supported",
            ),
        }
    }
}

/// A parsed PE image referring to its bytes.
#[derive(Clone, Copy, Debug)]
pub struct PeRef<'a> {
    pub data: &'a [u8],
    pub dos_hdr: DosHeader,
    /// The DOS stub between the DOS header and the NT headers.
    pub dos_data: &'a [u8],
    pub nt_hdrs: NtHeaders64,
    /// The part of the optional header past the fixed fields (the data
    /// directories).
    pub nt_data: &'a [u8],
    /// The section header table.
    pub sect_hdrs: &'a [u8],
}

/// The checks `parse_pe` makes, in order, and the location of the section
/// header table when they pass.
pub open spec fn pe_layout(s: Seq<u8>) -> Result<(int, int), PeError> {
    if s.len() < 64 {
        Err(PeError::Truncated)
    } else if le16(s, 0) != 0x5a4d {
        Err(PeError::BadHeader)
    } else {
        let lfanew = le32(s, 60);
        if lfanew > s.len() || s.len() - lfanew < 136 {
            Err(PeError::Truncated)
        } else if le32(s, lfanew) != 0x4550 {
            Err(PeError::BadHeader)
        } else if le16(s, lfanew + 20) < 112 {
            Err(PeError::Truncated)
        } else if le16(s, lfanew + 24) != 0x20b {
            Err(PeError::BadHeader)
        } else {
            let start = lfanew + 24 + le16(s, lfanew + 20);
            let end = start + le16(s, lfanew + 6) * 40;
            if end > s.len() {
                Err(PeError::Truncated)
            } else {
                Ok((start, end))
            }
        }
    }
}

/// `pe` is the image that parsing `s` gives.
pub open spec fn pe_of(pe: PeRef, s: Seq<u8>) -> bool {
    match pe_layout(s) {
        Ok((start, end)) => {
            let lfanew = le32(s, 60);
            &&& pe.data@ == s
            &&& dos_header_at(pe.dos_hdr, s, 0)
            &&& pe.dos_data@ == s.subrange(64, lfanew)
            &&& nt_headers64_at(pe.nt_hdrs, s, lfanew)
            &&& pe.nt_data@ == s.subrange(lfanew + 136, start)
            &&& pe.sect_hdrs@ == s.subrange(start, end)
        },
        Err(_) => false,
    }
}

/// Checks the DOS and NT headers of a PE32+ image and locates its section
/// header table: its start and end offsets.
pub fn pe_header_layout(s: &[u8]) -> (r: Result<(usize, usize), PeError>)
    ensures
        match pe_layout(s@) {
            Ok((start, end)) => r == Ok::<(usize, usize), PeError>((start as usize, end as usize)),
            Err(e) => r == Err::<(usize, usize), PeError>(e),
        },
{
    let n = s.len();
    if n < DOS_HEADER_SIZE {
        return Err(PeError::Truncated);
    }
    let dos_hdr = DosHeader::read(s, 0);
    if dos_hdr.e_magic != DOS_SIGNATURE {
        return Err(PeError::BadHeader);
    }
    let lfanew = dos_hdr.e_lfanew as usize;
    if lfanew > n || n - lfanew < NT_HEADERS_SIZE {
        return Err(PeError::Truncated);
    }
    let nt_hdrs = NtHeaders64::read(s, lfanew);
    if nt_hdrs.signature != NT_SIGNATURE {
        return Err(PeError::BadHeader);
    }
    let size_opt = nt_hdrs.file_header.size_of_optional_header as usize;
    if size_opt < OPTIONAL_HEADER_SIZE {
        return Err(PeError::Truncated);
    }
    if nt_hdrs.optional_header.magic != NT_OPTIONAL_HDR64_MAGIC {
        return Err(PeError::BadHeader);
    }
    if n - lfanew - 24 < size_opt {
        return Err(PeError::Truncated);
    }
    let start = lfanew + 24 + size_opt;
    let nsect = nt_hdrs.file_header.number_of_sections as usize;
    if (n - start) / SECTION_HEADER_SIZE < nsect {
        return Err(PeError::Truncated);
    }
    Ok((start, start + nsect * SECTION_HEADER_SIZE))
}

/// Parses the headers of a PE32+ image.
pub fn parse_pe<'a>(s: &'a [u8]) -> (r: Result<PeRef<'a>, PeError>)
    requires
        pe_layout(s@) is Ok ==> le32(s@, 60) >= 64,
    ensures
        match pe_layout(s@) {
            Ok(_) => r matches Ok(pe) && pe_of(pe, s@) && pe.wf(),
            Err(e) => r == Err::<PeRef, PeError>(e),
        },
{
    let _n = s.len();
    let layout = pe_header_layout(s);
    let (start, end) = match layout {
        Ok(x) => x,
        Err(e) => {
            return Err(e);
        },
    };
    let dos_hdr = DosHeader::read(s, 0);
    let lfanew = dos_hdr.e_lfanew as usize;
    proof {
        let (a, b) = pe_layout(s@)->Ok_0;
        assert(le32(s@, 60) >= 0);
        assert(le16(s@, le32(s@, 60) + 20) >= 0);
        assert(le16(s@, le32(s@, 60) + 6) >= 0);
        assert(0 <= a <= b <= s@.len());
        assert(start == a && end == b);
        assert(lfanew as int == le32(s@, 60));
        assert(le16(s@, lfanew + 20) >= 112);
        assert(lfanew + 136 <= start <= end <= s@.len());
    }
    let nt_hdrs = NtHeaders64::read(s, lfanew);
    let pe = PeRef {
        data: s,
        dos_hdr,
        dos_data: &s[DOS_HEADER_SIZE..lfanew],
        nt_hdrs,
        nt_data: &s[lfanew + NT_HEADERS_SIZE..start],
        sect_hdrs: &s[start..end],
    };
    Ok(pe)
}

impl<'a> PeRef<'a> {
    /// The section header table holds `num_sections` headers.
    pub open spec fn wf(&self) -> bool {
        self.sect_hdrs@.len() == self.nt_hdrs.file_header.number_of_sections * 40
    }

    /// The number of sections.
    pub fn num_sections(&self) -> (n: usize)
        ensures
            n == self.nt_hdrs.file_header.number_of_sections,
    {
        self.nt_hdrs.file_header.number_of_sections as usize
    }

    /// The `n`-th section header, if there is one.
    pub fn nth_section(&self, n: usize) -> (r: Option<SectionHeader>)
        requires
            self.wf(),
        ensures
            n >= self.nt_hdrs.file_header.number_of_sections ==> r is None,
            n < self.nt_hdrs.file_header.number_of_sections ==> (r matches Some(h)
                && section_header_at(h, self.sect_hdrs@, n * 40)),
    {
        if n >= self.num_sections() {
            return None;
        }
        Some(SectionHeader::read(self.sect_hdrs, n * SECTION_HEADER_SIZE))
    }

    /// Iterates over the sections with their bytes in the file.
    pub fn raw_sections(&self) -> (it: RawSectionIterator<'a>)
        ensures
            it.pe == *self,
            it.index == 0,
    {
        RawSectionIterator { pe: *self, index: 0 }
    }

    /// Iterates over the sections with the bytes at their virtual addresses
    /// taken as file offsets.
    pub fn virtual_sections(&self) -> (it: VirtualSectionIterator<'a>)
        ensures
            it.pe == *self,
            it.index == 0,
    {
        VirtualSectionIterator { pe: *self, index: 0 }
    }
}

/// Iterator over the sections of an image and their raw data.
pub struct RawSectionIterator<'a> {
    pub pe: PeRef<'a>,
    pub index: usize,
}

/// Iterator over the sections of an image and their virtual extent.
pub struct VirtualSectionIterator<'a> {
    pub pe: PeRef<'a>,
    pub index: usize,
}

/// What a section iterator yields for a section whose data spans `len`
/// bytes from `off` of the image `data`: `None` when the end overflows,
/// the bytes when they are inside the image, else a truncation error.
pub open spec fn section_item_ok(
    r: Option<Result<(SectionHeader, &[u8]), PeError>>,
    h: SectionHeader,
    data: Seq<u8>,
    off: int,
    len: int,
) -> bool {
    if off + len > usize::MAX {
        r is None
    } else if off + len > data.len() {
        r == Some(Err::<(SectionHeader, &[u8]), PeError>(PeError::Truncated))
    } else {
        r matches Some(Ok((h2, b))) && h2 == h && b@ == data.subrange(off, off + len)
    }
}

impl<'a> RawSectionIterator<'a> {
    /// The next section and its raw data.
    pub fn next(&mut self) -> (r: Option<Result<(SectionHeader, &'a [u8]), PeError>>)
        requires
            old(self).pe.wf(),
        ensures
            final(self).pe == old(self).pe,
            old(self).index >= old(self).pe.nt_hdrs.file_header.number_of_sections ==> r is None
                && final(self).index == old(self).index,
            old(self).index < old(self).pe.nt_hdrs.file_header.number_of_sections ==> ({
                &&& final(self).index == old(self).index + 1
                &&& exists|h: SectionHeader| #[trigger] section_header_at(h, old(self).pe.sect_hdrs@, old(self).index * 40)
                    && section_item_ok(r, h, old(self).pe.data@, h.pointer_to_raw_data as int, h.size_of_raw_data as int)
            }),
    {
        let shdr = match self.pe.nth_section(self.index) {
            Some(h) => h,
            None => {
                return None;
            },
        };
        self.index = self.index + 1;
        let off = shdr.pointer_to_raw_data as usize;
        let len = shdr.size_of_raw_data as usize;
        if off > usize::MAX - len {
            return None;
        }
        if off + len > self.pe.data.len() {
            return Some(Err(PeError::Truncated));
        }
        Some(Ok((shdr, &self.pe.data[off..off + len])))
    }
}

impl<'a> VirtualSectionIterator<'a> {
    /// The next section and the bytes of the image over its virtual extent.
    pub fn next(&mut self) -> (r: Option<Result<(SectionHeader, &'a [u8]), PeError>>)
        requires
            old(self).pe.wf(),
        ensures
            final(self).pe == old(self).pe,
            old(self).index >= old(self).pe.nt_hdrs.file_header.number_of_sections ==> r is None
                && final(self).index == old(self).index,
            old(self).index < old(self).pe.nt_hdrs.file_header.number_of_sections ==> ({
                &&& final(self).index == old(self).index + 1
                &&& exists|h: SectionHeader| #[trigger] section_header_at(h, old(self).pe.sect_hdrs@, old(self).index * 40)
                    && section_item_ok(r, h, old(self).pe.data@, h.virtual_address as int, h.virtual_size as int)
            }),
    {
        let shdr = match self.pe.nth_section(self.index) {
            Some(h) => h,
            None => {
                return None;
            },
        };
        self.index = self.index + 1;
        let off = shdr.virtual_address as usize;
        let len = shdr.virtual_size as usize;
        if off > usize::MAX - len {
            return None;
        }
        if off + len > self.pe.data.len() {
            return Some(Err(PeError::Truncated));
        }
        Some(Ok((shdr, &self.pe.data[off..off + len])))
    }
}

/// `v` rounded up to a multiple of `a` as 32-bit arithmetic computes it;
/// `None` where that computation fails (zero alignment or overflow).
pub open spec fn align_up32(v: int, a: int) -> Option<int> {
    if a == 0 {
        None
    } else if (v + a - 1) / a * a > u32::MAX {
        None
    } else {
        Some((v + a - 1) / a * a)
    }
}

/// Loading the sections from the `i`-th on into `pages`: the final pages
/// and the outcome, or `None` where loading would fail to compute the
/// aligned size of a section.
pub open spec fn load_sections(pe: PeRef, pages: Seq<u8>, i: int) -> Option<(Seq<u8>, Result<(), PeError>)>
    decreases pe.nt_hdrs.file_header.number_of_sections - i,
{
    if i < 0 || i >= pe.nt_hdrs.file_header.number_of_sections {
        Some((pages, Ok(())))
    } else {
        let sh = pe.sect_hdrs@;
        let b = i * 40;
        let data = pe.data@;
        let ptr = le32(sh, b + 20);
        let sz = le32(sh, b + 16);
        if ptr + sz > usize::MAX {
            Some((pages, Ok(())))
        } else if ptr + sz > data.len() {
            Some((pages, Err(PeError::Truncated)))
        } else if le32(sh, b + 24) != 0 {
            Some((pages, Err(PeError::RelocationsNotYetSupported)))
        } else {
            match align_up32(le32(sh, b + 8), pe.nt_hdrs.optional_header.section_alignment as int) {
                None => None,
                Some(vsz) => {
                    let va = le32(sh, b + 12);
                    if sz > vsz || va + vsz > usize::MAX || va + sz > pages.len() {
                        Some((pages, Err(PeError::Truncated)))
                    } else {
                        let p1 = write_at(pages, va, data.subrange(ptr, ptr + sz));
                        if sz < vsz {
                            if va + vsz > pages.len() {
                                Some((p1, Err(PeError::Truncated)))
                            } else {
                                load_sections(
                                    pe,
                                    write_at(p1, va + sz, Seq::new((vsz - sz) as nat, |_j: int| 0u8)),
                                    i + 1,
                                )
                            }
                        } else {
                            load_sections(pe, p1, i + 1)
                        }
                    }
                },
            }
        }
    }
}

/// Loading the image into `pages`: the headers, then each section's raw
/// data at its virtual address, zero-filled up to its aligned virtual size.
pub open spec fn load_image(pe: PeRef, pages: Seq<u8>) -> Option<(Seq<u8>, Result<(), PeError>)> {
    let hs = pe.nt_hdrs.optional_header.size_of_headers as int;
    if hs > pe.data@.len() || hs > pages.len() {
        Some((pages, Err(PeError::Truncated)))
    } else {
        load_sections(pe, write_at(pages, 0, pe.data@.subrange(0, hs)), 0)
    }
}

impl<'a> PeRef<'a> {
    /// Loads the image into `pages` (the memory of the image, from its base
    /// address): the headers, then each section's raw data at its virtual
    /// address, zero-filled up to its virtual size aligned to the section
    /// alignment. Relocations are not supported. On an error the pages hold
    /// what was written before it.
    pub fn relocate_into(&self, pages: &mut [u8]) -> (r: Result<(), PeError>)
        requires
            self.wf(),
            load_image(*self, old(pages)@) is Some,
        ensures
            (final(pages)@, r) == load_image(*self, old(pages)@)->0,
    {
        let hs = self.nt_hdrs.optional_header.size_of_headers as usize;
        if hs > self.data.len() || hs > pages.len() {
            return Err(PeError::Truncated);
        }
        copy_into(pages, 0, &self.data[0..hs]);
        let n = self.num_sections();
        let align = self.nt_hdrs.optional_header.section_alignment;
        let mut i: usize = 0;
        while i < n
            invariant
                self.wf(),
                n == self.nt_hdrs.file_header.number_of_sections,
                align == self.nt_hdrs.optional_header.section_alignment,
                i <= n,
                load_sections(*self, pages@, i as int) == load_image(*self, old(pages)@),
                load_image(*self, old(pages)@) is Some,
            decreases n - i,
        {
            let ghost p0 = pages@;
            let shdr = SectionHeader::read(self.sect_hdrs, i * SECTION_HEADER_SIZE);
            let ptr = shdr.pointer_to_raw_data as usize;
            let sz = shdr.size_of_raw_data as usize;
            if ptr > usize::MAX - sz {
                return Ok(());
            }
            if ptr + sz > self.data.len() {
                return Err(PeError::Truncated);
            }
            if shdr.pointer_to_relocations != 0 {
                return Err(PeError::RelocationsNotYetSupported);
            }
            let vs = shdr.virtual_size as u64;
            let a = align as u64;
            let q = (vs + a - 1) / a;
            proof {
                assert(q * a <= u32::MAX);
            }
            let vsz = (q * a) as usize;
            if sz > vsz {
                return Err(PeError::Truncated);
            }
            let va = shdr.virtual_address as usize;
            if va > usize::MAX - vsz {
                return Err(PeError::Truncated);
            }
            if va + sz > pages.len() {
                return Err(PeError::Truncated);
            }
            copy_into(pages, va, &self.data[ptr..ptr + sz]);
            if sz < vsz {
                if va + vsz > pages.len() {
                    return Err(PeError::Truncated);
                }
                fill_range(pages, va + sz, va + vsz, 0);
            }
            i += 1;
        }
        Ok(())
    }
}

/// The virtual address of section `k` of `pe`.
pub open spec fn section_va(pe: PeRef, k: int) -> int {
    le32(pe.sect_hdrs@, k * 40 + 12)
}

/// The raw data size of section `k` of `pe`.
pub open spec fn section_raw_size(pe: PeRef, k: int) -> int {
    le32(pe.sect_hdrs@, k * 40 + 16)
}

/// The file offset of the raw data of section `k` of `pe`.
pub open spec fn section_raw_offset(pe: PeRef, k: int) -> int {
    le32(pe.sect_hdrs@, k * 40 + 20)
}

/// The virtual size of section `k` of `pe`, aligned to the section
/// alignment.
pub open spec fn section_span(pe: PeRef, k: int) -> int {
    align_up32(le32(pe.sect_hdrs@, k * 40 + 8), pe.nt_hdrs.optional_header.section_alignment as int)->0
}

/// Whether `x` lies in the virtual extent of section `k`.
pub open spec fn in_section(pe: PeRef, k: int, x: int) -> bool {
    section_va(pe, k) <= x < section_va(pe, k) + section_span(pe, k)
}

/// Whether section `k` is in place in `p`: its raw data at its virtual
/// address, then zeros up to its aligned virtual size.
pub open spec fn section_placed(pe: PeRef, p: Seq<u8>, k: int) -> bool {
    let va = section_va(pe, k);
    let sz = section_raw_size(pe, k);
    let ptr = section_raw_offset(pe, k);
    &&& va + section_span(pe, k) <= p.len()
    &&& p.subrange(va, va + sz) == pe.data@.subrange(ptr, ptr + sz)
    &&& forall|x: int| va + sz <= x < va + section_span(pe, k) ==> p[x] == 0
}

proof fn lemma_load_sections_places(pe: PeRef, pages: Seq<u8>, i: int)
    requires
        0 <= i,
        load_sections(pe, pages, i) matches Some((p, r)) && r is Ok,
        forall|k: int|
            i <= k < pe.nt_hdrs.file_header.number_of_sections ==> section_raw_offset(pe, k)
                + section_raw_size(pe, k) <= usize::MAX,
        forall|k: int, j: int|
            i <= k < j < pe.nt_hdrs.file_header.number_of_sections ==> section_va(pe, k) + section_span(
                pe,
                k,
            ) <= section_va(pe, j) || section_va(pe, j) + section_span(pe, j) <= section_va(pe, k),
    ensures
        ({
            let p = (load_sections(pe, pages, i)->0).0;
            &&& p.len() == pages.len()
            &&& forall|k: int|
                i <= k < pe.nt_hdrs.file_header.number_of_sections ==> #[trigger] section_placed(pe, p, k)
            &&& forall|x: int|
                0 <= x < p.len() && (forall|k: int|
                    i <= k < pe.nt_hdrs.file_header.number_of_sections ==> !#[trigger] in_section(pe, k, x))
                    ==> p[x] == pages[x]
        }),
    decreases pe.nt_hdrs.file_header.number_of_sections - i,
{
    let n = pe.nt_hdrs.file_header.number_of_sections as int;
    if i < n {
        let data = pe.data@;
        let va = section_va(pe, i);
        let sz = section_raw_size(pe, i);
        let ptr = section_raw_offset(pe, i);
        let vsz = section_span(pe, i);
        let p1 = write_at(pages, va, data.subrange(ptr, ptr + sz));
        let p2 = if sz < vsz {
            write_at(p1, va + sz, Seq::new((vsz - sz) as nat, |_j: int| 0u8))
        } else {
            p1
        };
        assert(load_sections(pe, pages, i) == load_sections(pe, p2, i + 1));
        assert(0 <= va && 0 <= sz && 0 <= ptr);
        lemma_load_sections_places(pe, p2, i + 1);
        let p = (load_sections(pe, pages, i)->0).0;
        assert(p2.len() == pages.len());
        assert forall|x: int| va <= x < va + vsz implies p[x] == p2[x] by {
            assert forall|k: int| i + 1 <= k < n implies !#[trigger] in_section(pe, k, x) by {}
        }
        assert(p.subrange(va, va + sz) =~= data.subrange(ptr, ptr + sz)) by {
            assert forall|t: int| 0 <= t < sz implies #[trigger] p.subrange(va, va + sz)[t] == data.subrange(
                ptr,
                ptr + sz,
            )[t] by {
                assert(p[va + t] == p2[va + t]);
                assert(p2[va + t] == p1[va + t]);
            }
        }
        assert(section_placed(pe, p, i));
        assert forall|x: int|
            0 <= x < p.len() && (forall|k: int| i <= k < n ==> !#[trigger] in_section(pe, k, x))
                implies p[x] == pages[x] by {
            assert(!in_section(pe, i, x));
            assert forall|k: int| i + 1 <= k < n implies !#[trigger] in_section(pe, k, x) by {
                assert(!in_section(pe, k, x));
            }
        }
    }
}

/// Loading places every section: after a successful load, each section's
/// raw data lies at its virtual address, followed by zeros up to its
/// virtual size aligned to the section alignment. This holds when the
/// sections' virtual extents do not overlap (a later section would write
/// over an earlier one) and each section's raw extent is addressable.
pub proof fn lemma_load_places_sections(pe: PeRef, pages: Seq<u8>)
    requires
        load_image(pe, pages) matches Some((p, r)) && r is Ok,
        forall|k: int|
            0 <= k < pe.nt_hdrs.file_header.number_of_sections ==> section_raw_offset(pe, k)
                + section_raw_size(pe, k) <= usize::MAX,
        forall|k: int, j: int|
            0 <= k < j < pe.nt_hdrs.file_header.number_of_sections ==> section_va(pe, k) + section_span(
                pe,
                k,
            ) <= section_va(pe, j) || section_va(pe, j) + section_span(pe, j) <= section_va(pe, k),
    ensures
        forall|k: int|
            #![trigger section_va(pe, k)]
            0 <= k < pe.nt_hdrs.file_header.number_of_sections ==> {
                let p = (load_image(pe, pages)->0).0;
                let va = section_va(pe, k);
                let sz = section_raw_size(pe, k);
                let ptr = section_raw_offset(pe, k);
                &&& p.subrange(va, va + sz) == pe.data@.subrange(ptr, ptr + sz)
                &&& forall|x: int| va + sz <= x < va + section_span(pe, k) ==> p[x] == 0
            },
        ({
            let p = (load_image(pe, pages)->0).0;
            let hs = pe.nt_hdrs.optional_header.size_of_headers as int;
            &&& p.len() == pages.len()
            &&& forall|x: int|
                0 <= x < p.len() && (forall|k: int|
                    0 <= k < pe.nt_hdrs.file_header.number_of_sections ==> !#[trigger] in_section(pe, k, x))
                    ==> p[x] == if x < hs {
                    pe.data@[x]
                } else {
                    pages[x]
                }
        }),
{
    let hs = pe.nt_hdrs.optional_header.size_of_headers as int;
    let pages0 = write_at(pages, 0, pe.data@.subrange(0, hs));
    lemma_load_sections_places(pe, pages0, 0);
    let p = (load_image(pe, pages)->0).0;
    assert forall|k: int|
        #![trigger section_va(pe, k)]
        0 <= k < pe.nt_hdrs.file_header.number_of_sections implies {
        let va = section_va(pe, k);
        let sz = section_raw_size(pe, k);
        let ptr = section_raw_offset(pe, k);
        &&& p.subrange(va, va + sz) == pe.data@.subrange(ptr, ptr + sz)
        &&& forall|x: int| va + sz <= x < va + section_span(pe, k) ==> p[x] == 0
    } by {
        assert(section_placed(pe, p, k));
    }
}

} // verus!
