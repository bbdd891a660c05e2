//! The coreboot file system (CBFS): a ROM image holding a chain of entries
//! (a header, a NUL-terminated name and data, each entry aligned), found
//! through a master header whose address is stored in the last four bytes
//! of the ROM. Multi-byte fields are big-endian, except that address.
use vstd::prelude::*;
use vstd::string::StringExecFns;
use crate::bytes::{be32, be32_bytes, bytes_eq, copy_into, fill_range, le32, le32_bytes, read_be32, read_le32, write_at};

verus! {

/// Magic of the master header (`ORBC`).
pub const CBFS_HEADER_MAGIC: u32 = 0x4F524243;
/// Version 2 of the master header.
pub const CBFS_HEADER_VERSION2: u32 = 0x31313132;
/// Magic of an entry header (`LARCHIVE`).
pub const CBFS_FILE_MAGIC: [u8; 8] = [0x4c, 0x41, 0x52, 0x43, 0x48, 0x49, 0x56, 0x45];
/// Default entry alignment.
pub const CBFS_DEFAULT_ALIGNMENT: u32 = 64;
/// Architecture value for x86.
pub const CBFS_ARCHITECTURE_X86: u32 = 0x00000001;
/// Type of a deleted entry.
pub const CBFS_TYPE_DELETED: u32 = 0x00000000;
/// Type of free space.
pub const CBFS_TYPE_NULL: u32 = 0xFFFFFFFF;
/// Type of the boot block.
pub const CBFS_TYPE_BOOTBLOCK: u32 = 0x01;
/// Type of raw data.
pub const CBFS_TYPE_RAW: u32 = 0x50;
/// Size of the master header.
pub const CBFS_HEADER_SIZE: u32 = 32;
/// Size of an entry header.
pub const CBFS_FILE_HEADER_SIZE: u32 = 24;
/// Smallest entry: a header and an empty name.
pub const MIN_ENTRY_METADATA: u32 = 25;

/// Errors from CBFS parsing and editing.
#[derive(Clone, Copy, Debug, PartialEq, Eq, Structural)]
pub enum CbfsError {
    InvalidRomSize,
    InvalidRomBase,
    InvalidHeaderPointer,
    InvalidHeader,
    InvalidAlignment,
    CorruptEntry,
    NulInName,
    TooLarge,
    NoSpace,
}

/// The description of a CBFS error.
pub open spec fn cbfs_error_text(e: CbfsError) -> Seq<char> {
    match e {
        CbfsError::InvalidRomSize => "ROM size must be a power of two between 4 and 2 GiB"@,
        CbfsError::InvalidRomBase => "ROM base address must be a multiple of ROM size"@,
        CbfsError::InvalidHeaderPointer => "header pointer at end of ROM does not resolve to a valid offset"@,
        CbfsError::InvalidHeader => "master header has invalid magic, version, size, alignment, or offset"@,
        CbfsError::InvalidAlignment => "alignment must be a power of two"@,
        CbfsError::CorruptEntry => "entry has valid magic but invalid offset, length, or name"@,
        CbfsError::NulInName => "file name contains a NUL byte"@,
        CbfsError::TooLarge => "data or name length exceeds u32::MAX"@,
        CbfsError::NoSpace => "no NULL entry large enough for the requested file"@,
    }
}

impl CbfsError {
    /// Human-readable description of the error.
    pub fn to_string(&self) -> (s: String)
        ensures
            s@ == cbfs_error_text(*self),
    {
        match self {
            CbfsError::InvalidRomSize => String::from_str(
                "ROM size must be a power of two between 4 and 2 GiB",
            ),
            CbfsError::InvalidRomBase => String::from_str(
                "ROM base address must be a multiple of ROM size",
            ),
            CbfsError::InvalidHeaderPointer => String::from_str(
                "header pointer at end of ROM does not resolve to a valid offset",
            ),
            CbfsError::InvalidHeader => String::from_str(
                "master header has invalid magic, version, size, alignment, or offset",
            ),
            CbfsError::InvalidAlignment => String::from_str("alignment must be a power of two"),
            CbfsError::CorruptEntry => String::from_str(
                "entry has valid magic but invalid offset, length, or name",
            ),
            CbfsError::NulInName => String::from_str("file name contains a NUL byte"),
            CbfsError::TooLarge => String::from_str("data or name length exceeds u32::MAX"),
            CbfsError::NoSpace => String::from_str(
                "no NULL entry large enough for the requested file",
            ),
        }
    }
}

/// The master header.
#[derive(Clone, Copy, Debug)]
pub struct CbfsHeader {
    pub magic: u32,
    pub version: u32,
    pub romsize: u32,
    pub bootblocksize: u32,
    pub align: u32,
    pub offset: u32,
    pub architecture: u32,
    pub _pad: u32,
}

/// The header of an entry.
#[derive(Clone, Copy, Debug)]
pub struct CbfsFileHeader {
    pub magic: [u8; 8],
    pub len: u32,
    pub type_: u32,
    pub attributes_offset: u32,
    pub offset: u32,
}

/// `h` is the master header stored (big-endian) at `off` of `s`.
pub open spec fn cbfs_header_at(h: CbfsHeader, s: Seq<u8>, off: int) -> bool {
    &&& h.magic == be32(s, off)
    &&& h.version == be32(s, off + 4)
    &&& h.romsize == be32(s, off + 8)
    &&& h.bootblocksize == be32(s, off + 12)
    &&& h.align == be32(s, off + 16)
    &&& h.offset == be32(s, off + 20)
    &&& h.architecture == be32(s, off + 24)
    &&& h._pad == be32(s, off + 28)
}

impl CbfsHeader {
    /// Decodes the master header at `off` of `s`.
    pub fn read(s: &[u8], off: usize) -> (h: CbfsHeader)
        requires
            off + 32 <= s@.len(),
        ensures
            cbfs_header_at(h, s@, off as int),
    {
        let _n = s.len();
        CbfsHeader {
            magic: read_be32(s, off),
            version: read_be32(s, off + 4),
            romsize: read_be32(s, off + 8),
            bootblocksize: read_be32(s, off + 12),
            align: read_be32(s, off + 16),
            offset: read_be32(s, off + 20),
            architecture: read_be32(s, off + 24),
            _pad: read_be32(s, off + 28),
        }
    }
}

/// The big-endian bytes of a master header.
pub open spec fn cbfs_header_bytes(h: CbfsHeader) -> Seq<u8> {
    be32_bytes(h.magic as int) + be32_bytes(h.version as int) + be32_bytes(h.romsize as int)
        + be32_bytes(h.bootblocksize as int) + be32_bytes(h.align as int) + be32_bytes(
        h.offset as int,
    ) + be32_bytes(h.architecture as int) + be32_bytes(h._pad as int)
}

/// Whether `x` is a power of two.
pub open spec fn is_pow2(x: u32) -> bool {
    x != 0 && x & ((x - 1) as u32) == 0
}

fn pow2(x: u32) -> (r: bool)
    ensures
        r == is_pow2(x),
{
    x != 0 && x & (x - 1) == 0
}

/// `v` rounded up to a multiple of `a` (`a > 0`), if that fits in 32 bits.
pub open spec fn align_up_opt(v: int, a: int) -> Option<int> {
    if (v + a - 1) / a * a > u32::MAX {
        None
    } else {
        Some((v + a - 1) / a * a)
    }
}

fn align_up_u32(v: u32, a: u32) -> (r: Option<u32>)
    requires
        a > 0,
    ensures
        r == match align_up_opt(v as int, a as int) {
            Some(x) => Some(x as u32),
            None => None::<u32>,
        },
{
    let q = (v as u64 + a as u64 - 1) / a as u64;
    proof {
        let vi = v as int;
        let ai = a as int;
        let qi = q as int;
        assert(qi * ai <= vi + ai) by (nonlinear_arith)
            requires
                ai > 0,
                qi == (vi + ai - 1) / ai,
                vi >= 0,
        ;
    }
    let x = q * a as u64;
    if x > 0xffff_ffff {
        None
    } else {
        Some(x as u32)
    }
}

/// The outcome of the master header checks on `rom` mapped at `rom_base`:
/// the header's offset when they pass.
pub open spec fn header_check(rom: Seq<u8>, rom_base: u32) -> Result<int, CbfsError> {
    let n = rom.len();
    if n > u32::MAX || !is_pow2(n as u32) {
        Err(CbfsError::InvalidRomSize)
    } else if rom_base % (n as u32) != 0 {
        Err(CbfsError::InvalidRomBase)
    } else if n < 4 {
        Err(CbfsError::InvalidRomSize)
    } else {
        let ptr = le32(rom, n - 4);
        if ptr < rom_base {
            Err(CbfsError::InvalidHeaderPointer)
        } else {
            let off = ptr - rom_base;
            if off > n || n - off < 32 {
                Err(CbfsError::InvalidHeaderPointer)
            } else if be32(rom, off) != CBFS_HEADER_MAGIC || be32(rom, off + 4)
                != CBFS_HEADER_VERSION2 || be32(rom, off + 8) != n || !is_pow2(
                be32(rom, off + 16) as u32,
            ) || be32(rom, off + 16) > n || be32(rom, off + 20) > n {
                Err(CbfsError::InvalidHeader)
            } else {
                Ok(off)
            }
        }
    }
}

/// Finds and checks the master header of `rom` mapped at `rom_base`;
/// returns it with its alignment and first entry offset.
pub fn parse_header(rom: &[u8], rom_base: u32) -> (r: Result<(CbfsHeader, u32, u32), CbfsError>)
    ensures
        match header_check(rom@, rom_base) {
            Ok(off) => r matches Ok((h, align, offset)) && cbfs_header_at(h, rom@, off) && align
                == h.align && offset == h.offset && is_pow2(align),
            Err(e) => r == Err::<(CbfsHeader, u32, u32), CbfsError>(e),
        },
{
    let n = rom.len();
    if n > 0xffff_ffff || !pow2(n as u32) {
        return Err(CbfsError::InvalidRomSize);
    }
    let rom_size = n as u32;
    if rom_base % rom_size != 0 {
        return Err(CbfsError::InvalidRomBase);
    }
    if n < 4 {
        return Err(CbfsError::InvalidRomSize);
    }
    let ptr = read_le32(rom, n - 4);
    if ptr < rom_base {
        return Err(CbfsError::InvalidHeaderPointer);
    }
    let off = (ptr - rom_base) as usize;
    if off > n || n - off < 32 {
        return Err(CbfsError::InvalidHeaderPointer);
    }
    let header = CbfsHeader::read(rom, off);
    if header.magic != CBFS_HEADER_MAGIC || header.version != CBFS_HEADER_VERSION2
        || header.romsize != rom_size || !pow2(header.align) || header.align > rom_size
        || header.offset > rom_size {
        return Err(CbfsError::InvalidHeader);
    }
    Ok((header, header.align, header.offset))
}

/// Where an entry and its parts lie in the ROM.
#[derive(Clone, Copy, Debug)]
pub struct CbfsEntryInfo {
    pub entry_start: u32,
    pub entry_end: u32,
    pub entry_type: u32,
    pub data_start: u32,
    pub data_len: u32,
    pub name_start: u32,
    pub name_len: u32,
}

/// The index of the first NUL in `s` from `from` up to `to`, if any.
pub open spec fn first_nul(s: Seq<u8>, from: int, to: int) -> Option<int>
    decreases to - from,
{
    if from >= to {
        None
    } else if s[from] == 0 {
        Some(from)
    } else {
        first_nul(s, from + 1, to)
    }
}

/// What the ROM holds at an entry position.
pub enum CbfsStep {
    /// No entry there (no room for a header, or no entry magic).
    Stop,
    /// An entry with an inconsistent header or an unterminated name.
    Corrupt,
    /// A well-formed entry.
    Entry(CbfsEntryInfo),
}

/// The entry at `cursor` of `rom`.
pub open spec fn entry_step(rom: Seq<u8>, cursor: int) -> CbfsStep {
    let n = rom.len();
    if n > u32::MAX || cursor > n || n - cursor < 24 || rom.subrange(cursor, cursor + 8)
        != CBFS_FILE_MAGIC@ {
        CbfsStep::Stop
    } else {
        let data_offset = be32(rom, cursor + 20);
        let data_len = be32(rom, cursor + 8);
        if data_offset < 24 || data_offset > n - cursor || data_len > n - cursor - data_offset {
            CbfsStep::Corrupt
        } else {
            match first_nul(rom, cursor + 24, cursor + data_offset) {
                None => CbfsStep::Corrupt,
                Some(z) => CbfsStep::Entry(
                    CbfsEntryInfo {
                        entry_start: cursor as u32,
                        entry_end: (cursor + data_offset + data_len) as u32,
                        entry_type: be32(rom, cursor + 12) as u32,
                        data_start: (cursor + data_offset) as u32,
                        data_len: data_len as u32,
                        name_start: (cursor + 24) as u32,
                        name_len: (z - cursor - 24) as u32,
                    },
                ),
            }
        }
    }
}

/// Walks the entries of a ROM one by one.
pub struct CbfsEntryWalker {
    pub align: u32,
    pub cursor: Option<u32>,
}

impl CbfsEntryWalker {
    /// A walker starting at the entry at `offset`.
    pub fn new(align: u32, offset: u32) -> (w: Self)
        ensures
            w.align == align,
            w.cursor == Some(offset),
    {
        CbfsEntryWalker { align, cursor: Some(offset) }
    }

    /// The next entry: `None` when the walk has ended or no entry follows,
    /// an error for a corrupt entry (which ends the walk). After an entry the
    /// walk goes on at its end rounded up to the alignment.
    pub fn next(&mut self, rom: &[u8]) -> (r: Option<Result<CbfsEntryInfo, CbfsError>>)
        requires
            old(self).align > 0,
        ensures
            final(self).align == old(self).align,
            match old(self).cursor {
                None => r is None && final(self).cursor is None,
                Some(c) => match entry_step(rom@, c as int) {
                    CbfsStep::Stop => r is None && final(self).cursor == old(self).cursor,
                    CbfsStep::Corrupt => r == Some(
                        Err::<CbfsEntryInfo, CbfsError>(CbfsError::CorruptEntry),
                    ) && final(self).cursor is None,
                    CbfsStep::Entry(info) => r == Some(Ok::<CbfsEntryInfo, CbfsError>(info))
                        && final(self).cursor == match align_up_opt(
                        info.entry_end as int,
                        old(self).align as int,
                    ) {
                        Some(x) => Some(x as u32),
                        None => None::<u32>,
                    },
                },
            },
    {
        let cursor = match self.cursor {
            Some(c) => c,
            None => {
                return None;
            },
        };
        let n = rom.len();
        if n > 0xffff_ffff {
            return None;
        }
        let cur = cursor as usize;
        if cur > n || n - cur < 24 {
            return None;
        }
        let magic_ok = bytes_eq(&rom[cur..cur + 8], &CBFS_FILE_MAGIC);
        if !magic_ok {
            return None;
        }
        let data_offset = read_be32(rom, cur + 20) as usize;
        let data_len = read_be32(rom, cur + 8) as usize;
        if data_offset < 24 || data_offset > n - cur || data_len > n - cur - data_offset {
            self.cursor = None;
            return Some(Err(CbfsError::CorruptEntry));
        }
        let mut z = cur + 24;
        while z < cur + data_offset && rom[z] != 0
            invariant
                cur + 24 <= z <= cur + data_offset <= n == rom@.len(),
                first_nul(rom@, cur + 24, cur + data_offset) == first_nul(
                    rom@,
                    z as int,
                    cur + data_offset,
                ),
            decreases cur + data_offset - z,
        {
            z += 1;
        }
        if z >= cur + data_offset {
            self.cursor = None;
            return Some(Err(CbfsError::CorruptEntry));
        }
        let info = CbfsEntryInfo {
            entry_start: cursor,
            entry_end: (cur + data_offset + data_len) as u32,
            entry_type: read_be32(rom, cur + 12),
            data_start: (cur + data_offset) as u32,
            data_len: data_len as u32,
            name_start: (cur + 24) as u32,
            name_len: (z - cur - 24) as u32,
        };
        self.cursor = align_up_u32(info.entry_end, self.align);
        Some(Ok(info))
    }
}

proof fn lemma_entry_step(rom: Seq<u8>, cursor: int)
    requires
        entry_step(rom, cursor) is Entry,
        0 <= cursor,
    ensures
        ({
            let info = entry_step(rom, cursor)->Entry_0;
            &&& info.entry_start == cursor
            &&& cursor + 24 <= info.entry_end <= rom.len()
            &&& info.name_start == cursor + 24
            &&& info.name_start + info.name_len <= info.data_start
            &&& info.data_start + info.data_len == info.entry_end
        }),
{
    let data_offset = be32(rom, cursor + 20);
    let z = first_nul(rom, cursor + 24, cursor + data_offset)->0;
    lemma_first_nul(rom, cursor + 24, cursor + data_offset);
}

/// The index `first_nul` finds holds a NUL within the range.
pub proof fn lemma_first_nul(s: Seq<u8>, from: int, to: int)
    ensures
        first_nul(s, from, to) matches Some(z) ==> from <= z < to && s[z] == 0,
    decreases to - from,
{
    if from < to && s[from] != 0 {
        lemma_first_nul(s, from + 1, to);
    }
}

/// The entries met walking from `cursor` (with alignment `align`), and
/// whether the walk ended on a corrupt entry.
pub open spec fn walk(rom: Seq<u8>, align: int, cursor: Option<int>) -> (Seq<CbfsEntryInfo>, bool)
    decreases (match cursor {
        Some(c) => 0x1_0000_0001 - c,
        None => 0,
    }),
{
    match cursor {
        None => (Seq::empty(), false),
        Some(c) => if c < 0 || c > u32::MAX {
            (Seq::empty(), false)
        } else {
            match entry_step(rom, c) {
                CbfsStep::Stop => (Seq::empty(), false),
                CbfsStep::Corrupt => (Seq::empty(), true),
                CbfsStep::Entry(info) => match align_up_opt(info.entry_end as int, align) {
                    None => (seq![info], false),
                    Some(nx) => if nx <= c {
                        (seq![info], false)
                    } else {
                        let rest = walk(rom, align, Some(nx));
                        (seq![info] + rest.0, rest.1)
                    },
                },
            }
        },
    }
}

/// A file found in a ROM.
#[derive(Clone, Copy, PartialEq, Eq)]
pub struct CbfsFile<'a> {
    pub name: &'a [u8],
    pub data: &'a [u8],
    pub type_: u32,
    pub offset: u32,
}

/// `f` is the file of the entry `info` of `rom`.
pub open spec fn file_of(f: CbfsFile, info: CbfsEntryInfo, rom: Seq<u8>) -> bool {
    &&& f.name@ == rom.subrange(info.name_start as int, info.name_start + info.name_len)
    &&& f.data@ == rom.subrange(info.data_start as int, info.data_start + info.data_len)
    &&& f.type_ == info.entry_type
    &&& f.offset == info.data_start
}

/// A read-only view of a CBFS ROM.
#[derive(Clone, Copy, PartialEq, Eq)]
pub struct CbfsReader<'a> {
    rom: &'a [u8],
    align: u32,
    offset: u32,
}

/// Iterator over the files of a ROM.
pub struct CbfsFiles<'a> {
    rom: &'a [u8],
    walker: CbfsEntryWalker,
}

impl<'a> CbfsFiles<'a> {
    /// The ROM walked.
    pub closed spec fn rom(&self) -> Seq<u8> {
        self.rom@
    }

    /// The files still to come and whether a corrupt entry ends them.
    pub closed spec fn rest(&self) -> (Seq<CbfsEntryInfo>, bool) {
        walk(
            self.rom@,
            self.walker.align as int,
            match self.walker.cursor {
                Some(c) => Some(c as int),
                None => None,
            },
        )
    }

    /// Whether the walk is still well-formed.
    pub closed spec fn wf(&self) -> bool {
        self.walker.align > 0
    }

    /// The next file, or the error of a corrupt entry, or `None` at the end.
    pub fn next(&mut self) -> (r: Option<Result<CbfsFile<'a>, CbfsError>>)
        requires
            old(self).wf(),
        ensures
            final(self).wf(),
            final(self).rom() == old(self).rom(),
            old(self).rest().0.len() == 0 ==> final(self).rest() == (
                Seq::<CbfsEntryInfo>::empty(),
                false,
            ) && (if old(self).rest().1 {
                r == Some(Err::<CbfsFile, CbfsError>(CbfsError::CorruptEntry))
            } else {
                r is None
            }),
            old(self).rest().0.len() > 0 ==> (r matches Some(Ok(f)) && file_of(
                f,
                old(self).rest().0[0],
                old(self).rom(),
            ) && final(self).rest() == (old(self).rest().0.drop_first(), old(self).rest().1)),
    {
        let ghost c0 = self.walker.cursor;
        let entry = match self.walker.next(self.rom) {
            None => {
                return None;
            },
            Some(Err(e)) => {
                return Some(Err(e));
            },
            Some(Ok(e)) => e,
        };
        proof {
            lemma_entry_step(self.rom@, c0->0 as int);
            let nx = align_up_opt(entry.entry_end as int, self.walker.align as int);
            if let Some(x) = nx {
                assert(x >= entry.entry_end) by (nonlinear_arith)
                    requires
                        x == (entry.entry_end + self.walker.align - 1) / (self.walker.align as int)
                            * self.walker.align,
                        self.walker.align > 0,
                ;
            }
        }
        let ns = entry.name_start as usize;
        let ds = entry.data_start as usize;
        Some(
            Ok(
                CbfsFile {
                    name: &self.rom[ns..ns + entry.name_len as usize],
                    data: &self.rom[ds..ds + entry.data_len as usize],
                    type_: entry.entry_type,
                    offset: entry.data_start,
                },
            ),
        )
    }
}

/// The first of `es` that is a live file named `name`; else an error if
/// the walk ended on a corrupt entry, or `None`.
pub open spec fn find_in(es: Seq<CbfsEntryInfo>, bad: bool, rom: Seq<u8>, name: Seq<u8>) -> Result<
    Option<CbfsEntryInfo>,
    CbfsError,
>
    decreases es.len(),
{
    if es.len() == 0 {
        if bad {
            Err(CbfsError::CorruptEntry)
        } else {
            Ok(None)
        }
    } else if es[0].entry_type != CBFS_TYPE_NULL && es[0].entry_type != CBFS_TYPE_DELETED
        && rom.subrange(es[0].name_start as int, es[0].name_start + es[0].name_len) == name {
        Ok(Some(es[0]))
    } else {
        find_in(es.drop_first(), bad, rom, name)
    }
}

impl<'a> CbfsReader<'a> {
    /// The ROM read.
    pub closed spec fn rom(&self) -> Seq<u8> {
        self.rom@
    }

    /// The entries of the ROM and whether a corrupt entry ends them.
    pub closed spec fn entries(&self) -> (Seq<CbfsEntryInfo>, bool) {
        walk(self.rom@, self.align as int, Some(self.offset as int))
    }

    /// Opens the CBFS of `rom`, mapped at address `rom_base`.
    pub fn open(rom: &'a [u8], rom_base: u32) -> (r: Result<Self, CbfsError>)
        ensures
            match header_check(rom@, rom_base) {
                Ok(off) => r matches Ok(c) && c.rom() == rom@ && c.entries() == walk(
                    rom@,
                    be32(rom@, off + 16),
                    Some(be32(rom@, off + 20)),
                ) && c.wf(),
                Err(e) => r == Err::<CbfsReader, CbfsError>(e),
            },
    {
        let (_, align, offset) = parse_header(rom, rom_base)?;
        Ok(CbfsReader { rom, align, offset })
    }

    /// The alignment is usable.
    pub closed spec fn wf(&self) -> bool {
        self.align > 0
    }

    /// Iterates over the files of the ROM.
    pub fn files(&self) -> (it: CbfsFiles<'a>)
        requires
            self.wf(),
        ensures
            it.wf(),
            it.rom() == self.rom(),
            it.rest() == self.entries(),
    {
        CbfsFiles { rom: self.rom, walker: CbfsEntryWalker::new(self.align, self.offset) }
    }

    /// The first live (not free, not deleted) file named `name`.
    pub fn find_file(&self, name: &[u8]) -> (r: Result<Option<CbfsFile<'a>>, CbfsError>)
        requires
            self.wf(),
        ensures
            match find_in(self.entries().0, self.entries().1, self.rom(), name@) {
                Ok(Some(info)) => r matches Ok(Some(f)) && file_of(f, info, self.rom()),
                Ok(None) => r matches Ok(None),
                Err(e) => r == Err::<Option<CbfsFile>, CbfsError>(e),
            },
    {
        let mut it = self.files();
        loop
            invariant
                it.wf(),
                it.rom() == self.rom(),
                find_in(self.entries().0, self.entries().1, self.rom(), name@) == find_in(
                    it.rest().0,
                    it.rest().1,
                    self.rom(),
                    name@,
                ),
            decreases it.rest().0.len(), (if it.rest().1 { 1int } else { 0int }),
        {
            let ghost r0 = it.rest();
            match it.next() {
                None => {
                    return Ok(None);
                },
                Some(Err(e)) => {
                    return Err(e);
                },
                Some(Ok(f)) => {
                    if f.type_ != CBFS_TYPE_NULL && f.type_ != CBFS_TYPE_DELETED && bytes_eq(
                        f.name,
                        name,
                    ) {
                        return Ok(Some(f));
                    }
                },
            }
        }
    }
}

/// The header bytes of an entry.
pub open spec fn file_header_bytes(len: u32, type_: u32, offset: u32) -> Seq<u8> {
    CBFS_FILE_MAGIC@ + be32_bytes(len as int) + be32_bytes(type_ as int) + be32_bytes(0) + be32_bytes(
        offset as int,
    )
}

/// `rom` with an entry written at `start`: its header, its name and a NUL,
/// and its data at `start + data_offset`.
#[verifier::opaque]
pub open spec fn entry_written(
    rom: Seq<u8>,
    start: int,
    name: Seq<u8>,
    type_: u32,
    data: Seq<u8>,
    data_len: u32,
    data_offset: u32,
) -> Seq<u8> {
    let r1 = write_at(rom, start, file_header_bytes(data_len, type_, data_offset));
    let r2 = write_at(r1, start + 24, name);
    let r3 = write_at(r2, start + 24 + name.len(), seq![0u8]);
    write_at(r3, start + data_offset, data)
}

fn push_be32(v: &mut Vec<u8>, x: u32)
    ensures
        final(v)@ == old(v)@ + be32_bytes(x as int),
{
    crate::bytes::push_be32(v, x);
}

fn write_entry_bytes(
    rom: &mut [u8],
    start: u32,
    name: &[u8],
    type_: u32,
    data: &[u8],
    data_len: u32,
    data_offset: u32,
)
    requires
        start + 24 + name@.len() + 1 <= old(rom)@.len(),
        start + data_offset + data@.len() <= old(rom)@.len(),
    ensures
        final(rom)@ == entry_written(
            old(rom)@,
            start as int,
            name@,
            type_,
            data@,
            data_len,
            data_offset,
        ),
        final(rom)@.len() == old(rom)@.len(),
{
    let _n = rom.len();
    let mut hdr: Vec<u8> = Vec::new();
    crate::bytes::push_all(&mut hdr, &CBFS_FILE_MAGIC);
    push_be32(&mut hdr, data_len);
    push_be32(&mut hdr, type_);
    push_be32(&mut hdr, 0);
    push_be32(&mut hdr, data_offset);
    let st = start as usize;
    copy_into(rom, st, hdr.as_slice());
    copy_into(rom, st + 24, name);
    copy_into(rom, st + 24 + name.len(), &[0u8]);
    copy_into(rom, st + data_offset as usize, data);
    proof {
        assert(hdr@ =~= file_header_bytes(data_len, type_, data_offset));
        reveal(entry_written);
    }
}

/// `rom` with a free-space entry of `len` data bytes written at `start`.
pub open spec fn null_entry_written(rom: Seq<u8>, start: int, len: u32) -> Seq<u8> {
    entry_written(rom, start, Seq::empty(), CBFS_TYPE_NULL, Seq::empty(), len, 25)
}

/// The ROM `create` builds: all `0xFF`, the master header as the file
/// `cbfs_master_header` at offset 0, the header's address in the last four
/// bytes, and free space from the next aligned offset to the address. None
/// for a ROM too small to hold the master header and the address.
#[verifier::opaque]
pub open spec fn created_rom(n: int, rom_base: u32, align: u32) -> Option<Seq<u8>> {
    if n < 75 {
        None
    } else {
        created_rom_fitting(n, rom_base, align)
    }
}

/// The ROM `create` builds when the master header and the address fit.
pub open spec fn created_rom_fitting(n: int, rom_base: u32, align: u32) -> Option<Seq<u8>> {
    let r1 = entry_written(
        Seq::new(n as nat, |_i: int| 0xFFu8),
        0,
        "cbfs_master_header"@.map_values(|c: char| c as u8),
        CBFS_TYPE_RAW,
        master_header_bytes(n as u32, align),
        32,
        43,
    );
    if rom_base + 43 > u32::MAX {
        None
    } else {
        let r2 = write_at(r1, n - 4, le32_bytes(rom_base + 43));
        match align_up_opt(75, align as int) {
            None => None,
            Some(ns) => if n - 4 > ns + 25 {
                Some(null_entry_written(r2, ns, (n - 4 - ns - 25) as u32))
            } else {
                Some(r2)
            },
        }
    }
}

/// The error `create` fails with when its checks pass but no image can be
/// built: a ROM too small for the master header and its address, the
/// header's address past 32 bits, or else no aligned offset for the free
/// space.
pub open spec fn create_failure(n: int, rom_base: u32) -> CbfsError {
    if n < 75 {
        CbfsError::InvalidRomSize
    } else if rom_base + 43 > u32::MAX {
        CbfsError::InvalidRomBase
    } else {
        CbfsError::InvalidRomSize
    }
}

/// The bytes of the master header `create` writes.
pub open spec fn master_header_bytes(n: u32, align: u32) -> Seq<u8> {
    be32_bytes(CBFS_HEADER_MAGIC as int) + be32_bytes(CBFS_HEADER_VERSION2 as int) + be32_bytes(
        n as int,
    ) + be32_bytes(4) + be32_bytes(align as int) + be32_bytes(0) + be32_bytes(
        CBFS_ARCHITECTURE_X86 as int,
    ) + be32_bytes(0)
}

/// The checks `create` makes before writing.
pub open spec fn create_check(n: int, rom_base: u32, align: u32) -> Result<(), CbfsError> {
    if n > u32::MAX || n < 4 || !is_pow2(n as u32) {
        Err(CbfsError::InvalidRomSize)
    } else if rom_base % (n as u32) != 0 {
        Err(CbfsError::InvalidRomBase)
    } else if !is_pow2(align) || align > n {
        Err(CbfsError::InvalidAlignment)
    } else {
        Ok(())
    }
}

/// An editable CBFS ROM.
pub struct CbfsWriter<'a> {
    pub rom: &'a mut [u8],
    pub align: u32,
    pub offset: u32,
}

/// The first entry of `es` whose name is `name`, whatever its type; an
/// error if the walk ended on a corrupt entry first.
pub open spec fn find_name(es: Seq<CbfsEntryInfo>, bad: bool, rom: Seq<u8>, name: Seq<u8>) -> Result<
    Option<CbfsEntryInfo>,
    CbfsError,
>
    decreases es.len(),
{
    if es.len() == 0 {
        if bad {
            Err(CbfsError::CorruptEntry)
        } else {
            Ok(None)
        }
    } else if rom.subrange(es[0].name_start as int, es[0].name_start + es[0].name_len) == name {
        Ok(Some(es[0]))
    } else {
        find_name(es.drop_first(), bad, rom, name)
    }
}

/// `rom` holds at `h` an entry of type `type_` named `name` whose data is
/// `data`.
pub open spec fn holds_file(rom: Seq<u8>, h: int, name: Seq<u8>, type_: u32, data: Seq<u8>) -> bool {
    let off = be32(rom, h + 20);
    &&& 0 <= h
    &&& h + 24 + name.len() + 1 <= rom.len()
    &&& h + off + data.len() <= rom.len()
    &&& rom.subrange(h, h + 8) == CBFS_FILE_MAGIC@
    &&& be32(rom, h + 8) == data.len()
    &&& be32(rom, h + 12) == type_
    &&& rom.subrange(h + 24, h + 24 + name.len()) == name
    &&& rom[h + 24 + name.len()] == 0
    &&& rom.subrange(h + off, h + off + data.len()) == data
}

/// The entries that a walk meets lie inside the ROM: the name before the
/// data, the data before the end.
pub proof fn lemma_walk_in_rom(rom: Seq<u8>, align: int, cursor: Option<int>)
    ensures
        forall|i: int|
            0 <= i < walk(rom, align, cursor).0.len() ==> {
                let e = #[trigger] walk(rom, align, cursor).0[i];
                &&& e.name_start + e.name_len <= e.data_start
                &&& e.data_start + e.data_len <= rom.len()
            },
    decreases (match cursor {
        Some(c) => 0x1_0000_0001 - c,
        None => 0,
    }),
{
    if let Some(c) = cursor {
        if 0 <= c <= u32::MAX {
            if let CbfsStep::Entry(info) = entry_step(rom, c) {
                lemma_entry_step(rom, c);
                if let Some(nx) = align_up_opt(info.entry_end as int, align) {
                    if nx > c {
                        lemma_walk_in_rom(rom, align, Some(nx));
                        let w = walk(rom, align, cursor);
                        assert forall|i: int| 0 <= i < w.0.len() implies {
                            let e = #[trigger] w.0[i];
                            &&& e.name_start + e.name_len <= e.data_start
                            &&& e.data_start + e.data_len <= rom.len()
                        } by {
                            if i > 0 {
                                assert(w.0[i] == walk(rom, align, Some(nx)).0[i - 1]);
                            }
                        }
                    }
                }
            }
        }
    }
}

proof fn lemma_walk_progress(rom: Seq<u8>, align: int, c: int)
    requires
        entry_step(rom, c) is Entry,
        0 <= c,
        align > 0,
    ensures
        align_up_opt(entry_step(rom, c)->Entry_0.entry_end as int, align) matches Some(x) ==> x
            > c,
{
    lemma_entry_step(rom, c);
    let e = entry_step(rom, c)->Entry_0.entry_end as int;
    if let Some(x) = align_up_opt(e, align) {
        assert(x >= e) by (nonlinear_arith)
            requires
                x == (e + align - 1) / align * align,
                align > 0,
        ;
    }
}

impl<'a> CbfsWriter<'a> {
    /// The ROM being edited.
    pub open spec fn rom(&self) -> Seq<u8> {
        self.rom@
    }

    /// The alignment of entries.
    pub open spec fn align(&self) -> u32 {
        self.align
    }

    /// The offset of the first entry.
    pub open spec fn offset(&self) -> u32 {
        self.offset
    }

    /// The writer's alignment is usable.
    pub closed spec fn wf(&self) -> bool {
        self.align > 0 && self.rom@.len() <= u32::MAX
    }

    /// Formats `rom`, mapped at address `rom_base`, as an empty CBFS whose
    /// entries are aligned to `align`.
    pub fn create(rom: &'a mut [u8], rom_base: u32, align: u32) -> (r: Result<Self, CbfsError>)
        ensures
            match create_check(old(rom)@.len() as int, rom_base, align) {
                Err(e) => r == Err::<CbfsWriter, CbfsError>(e) && final(rom)@ == old(rom)@,
                Ok(()) => match created_rom(old(rom)@.len() as int, rom_base, align) {
                    Some(image) => r matches Ok(w) && w.rom() == image && w.align() == align
                        && w.offset() == 0 && w.wf() && image.len() == old(rom)@.len()
                        && final(rom)@ == final(w.rom)@,
                    None => r == Err::<CbfsWriter, CbfsError>(
                        create_failure(old(rom)@.len() as int, rom_base),
                    ) && (old(rom)@.len() < 75 ==> final(rom)@ == old(rom)@),
                },
            },
    {
        reveal(created_rom);
        let n = rom.len();
        if n > 0xffff_ffff || n < 4 || !pow2(n as u32) {
            return Err(CbfsError::InvalidRomSize);
        }
        let rom_size = n as u32;
        if rom_base % rom_size != 0 {
            return Err(CbfsError::InvalidRomBase);
        }
        if !pow2(align) || align > rom_size {
            return Err(CbfsError::InvalidAlignment);
        }
        if n < 75 {
            return Err(CbfsError::InvalidRomSize);
        }
        fill_range(rom, 0, n, 0xFF);
        let mut hdr: Vec<u8> = Vec::new();
        push_be32(&mut hdr, CBFS_HEADER_MAGIC);
        push_be32(&mut hdr, CBFS_HEADER_VERSION2);
        push_be32(&mut hdr, rom_size);
        push_be32(&mut hdr, 4);
        push_be32(&mut hdr, align);
        push_be32(&mut hdr, 0);
        push_be32(&mut hdr, CBFS_ARCHITECTURE_X86);
        push_be32(&mut hdr, 0);
        let name: [u8; 18] = [
            0x63, 0x62, 0x66, 0x73, 0x5f, 0x6d, 0x61, 0x73, 0x74, 0x65, 0x72, 0x5f, 0x68, 0x65,
            0x61, 0x64, 0x65, 0x72,
        ];
        proof {
            reveal_strlit("cbfs_master_header");
            assert(name@ =~= "cbfs_master_header"@.map_values(|c: char| c as u8));
            assert(hdr@ =~= master_header_bytes(rom_size, align));
        }
        write_entry_bytes(rom, 0, &name, CBFS_TYPE_RAW, hdr.as_slice(), 32, 43);
        if rom_base > 0xffff_ffff - 43 {
            return Err(CbfsError::InvalidRomBase);
        }
        let ptr = rom_base + 43;
        let mut pb: Vec<u8> = Vec::new();
        crate::bytes::push_le32(&mut pb, ptr);
        copy_into(rom, n - 4, pb.as_slice());
        let null_start = match align_up_u32(75, align) {
            Some(x) => x,
            None => {
                return Err(CbfsError::InvalidRomSize);
            },
        };
        let entries_end = rom_size - 4;
        if null_start < entries_end && entries_end - null_start > MIN_ENTRY_METADATA {
            let null_len = entries_end - null_start - MIN_ENTRY_METADATA;
            let empty: [u8; 0] = [];
            proof {
                assert(empty@ =~= Seq::<u8>::empty());
            }
            write_entry_bytes(
                rom,
                null_start,
                &empty,
                CBFS_TYPE_NULL,
                &empty,
                null_len,
                MIN_ENTRY_METADATA,
            );
        }
        Ok(CbfsWriter { rom, align, offset: 0 })
    }

    /// Opens the CBFS of `rom`, mapped at address `rom_base`, for editing.
    pub fn open(rom: &'a mut [u8], rom_base: u32) -> (r: Result<Self, CbfsError>)
        ensures
            match header_check(old(rom)@, rom_base) {
                Ok(off) => r matches Ok(w) && w.rom() == old(rom)@ && w.align() == be32(
                    old(rom)@,
                    off + 16,
                ) && w.offset() == be32(old(rom)@, off + 20) && w.wf(),
                Err(e) => r == Err::<CbfsWriter, CbfsError>(e),
            },
    {
        let (_, align, offset) = parse_header(rom, rom_base)?;
        Ok(CbfsWriter { rom, align, offset })
    }
}

/// Whether an entry type marks free space (empty or deleted).
pub open spec fn is_free_type(t: u32) -> bool {
    t == CBFS_TYPE_NULL || t == CBFS_TYPE_DELETED
}

/// The cursor of a walker as an integer.
pub open spec fn cursor_int(c: Option<u32>) -> Option<int> {
    match c {
        Some(x) => Some(x as int),
        None => None,
    }
}

/// Where the run of free entries walked from `cursor` ends: `end` if the
/// walk meets no free entry there, else the end of the last free entry of
/// the run; an error for a corrupt entry met on the way.
pub open spec fn free_run_end(rom: Seq<u8>, align: int, cursor: Option<int>, end: int) -> Result<
    int,
    CbfsError,
>
    decreases (match cursor {
        Some(c) => 0x1_0000_0001 - c,
        None => 0,
    }),
{
    match cursor {
        None => Ok(end),
        Some(c) => if c < 0 || c > u32::MAX {
            Ok(end)
        } else {
            match entry_step(rom, c) {
                CbfsStep::Stop => Ok(end),
                CbfsStep::Corrupt => Err(CbfsError::CorruptEntry),
                CbfsStep::Entry(n) => if !is_free_type(n.entry_type) {
                    Ok(end)
                } else {
                    match align_up_opt(n.entry_end as int, align) {
                        None => Ok(n.entry_end as int),
                        Some(nx) => if nx <= c {
                            Ok(n.entry_end as int)
                        } else {
                            free_run_end(rom, align, Some(nx), n.entry_end as int)
                        },
                    }
                },
            }
        },
    }
}

/// The outcome and the ROM after merging free space, walking from
/// `cursor`: at each free entry the run of free entries that follows it is
/// absorbed, the entry rewritten as one free entry spanning the run; the
/// walk then goes on after the entry as it was. A corrupt entry, or a free
/// entry whose aligned end does not fit in 32 bits, fails with
/// `CorruptEntry`, leaving what was merged before.
pub open spec fn merged(rom: Seq<u8>, align: int, cursor: Option<int>) -> (Result<(), CbfsError>, Seq<u8>)
    decreases (match cursor {
        Some(c) => 0x1_0000_0001 - c,
        None => 0,
    }),
{
    match cursor {
        None => (Ok(()), rom),
        Some(c) => if c < 0 || c > u32::MAX {
            (Ok(()), rom)
        } else {
            match entry_step(rom, c) {
                CbfsStep::Stop => (Ok(()), rom),
                CbfsStep::Corrupt => (Err(CbfsError::CorruptEntry), rom),
                CbfsStep::Entry(e) => match align_up_opt(e.entry_end as int, align) {
                    None => if is_free_type(e.entry_type) {
                        (Err(CbfsError::CorruptEntry), rom)
                    } else {
                        (Ok(()), rom)
                    },
                    Some(nx) => {
                        if !is_free_type(e.entry_type) {
                            if nx <= c {
                                (Ok(()), rom)
                            } else {
                                merged(rom, align, Some(nx))
                            }
                        } else {
                            match free_run_end(rom, align, Some(nx), e.entry_end as int) {
                                Err(x) => (Err(x), rom),
                                Ok(me) => {
                                    let rom2 = if me > e.entry_end {
                                        null_entry_written(
                                            rom,
                                            e.entry_start as int,
                                            (me - e.entry_start - 25) as u32,
                                        )
                                    } else {
                                        rom
                                    };
                                    if nx <= c {
                                        (Ok(()), rom2)
                                    } else {
                                        merged(rom2, align, Some(nx))
                                    }
                                },
                            }
                        }
                    },
                },
            }
        },
    }
}

/// The free entry a file of `data_len` bytes with a header of
/// `header_size` bytes goes into, walking from `cursor`, with the offset its
/// data starts at: the first empty entry large enough that (with
/// `content_offset`) also lets the data start exactly there; `NoSpace` when
/// the walk ends without one, `CorruptEntry` on a corrupt entry, and
/// `TooLarge` when a requested offset plus the data does not fit in 32 bits.
pub open spec fn slot_search(
    rom: Seq<u8>,
    align: int,
    cursor: Option<int>,
    content_offset: Option<u32>,
    header_size: u32,
    data_len: u32,
) -> Result<(CbfsEntryInfo, u32), CbfsError>
    decreases (match cursor {
        Some(c) => 0x1_0000_0001 - c,
        None => 0,
    }),
{
    match cursor {
        None => Err(CbfsError::NoSpace),
        Some(c) => if c < 0 || c > u32::MAX {
            Err(CbfsError::NoSpace)
        } else {
            match entry_step(rom, c) {
                CbfsStep::Stop => Err(CbfsError::NoSpace),
                CbfsStep::Corrupt => Err(CbfsError::CorruptEntry),
                CbfsStep::Entry(e) => {
                    let next = match align_up_opt(e.entry_end as int, align) {
                        Some(x) => if x > c {
                            Some(x)
                        } else {
                            None
                        },
                        None => None,
                    };
                    if e.entry_type != CBFS_TYPE_NULL || e.entry_end - e.entry_start < header_size
                        + data_len {
                        slot_search(rom, align, next, content_offset, header_size, data_len)
                    } else {
                        match content_offset {
                            Some(k) => if k > u32::MAX - data_len {
                                Err(CbfsError::TooLarge)
                            } else if k < e.entry_start + header_size || k + data_len > e.entry_end {
                                slot_search(rom, align, next, content_offset, header_size, data_len)
                            } else {
                                Ok((e, k))
                            },
                            None => if e.entry_start + header_size > u32::MAX - data_len {
                                Err(CbfsError::TooLarge)
                            } else {
                                Ok((e, (e.entry_start + header_size) as u32))
                            },
                        }
                    }
                },
            }
        },
    }
}

/// The outcome and the ROM once the slot search gave `found`: the file
/// placed in the slot found, or the search's error with the ROM unchanged.
pub open spec fn placed(
    rom: Seq<u8>,
    found: Result<(CbfsEntryInfo, u32), CbfsError>,
    header_size: u32,
    name: Seq<u8>,
    type_: u32,
    data: Seq<u8>,
    align: u32,
) -> (Result<(), CbfsError>, Seq<u8>) {
    match found {
        Err(x) => (Err(x), rom),
        Ok((e, k)) => slot_filled(rom, e, k, header_size, name, type_, data, align),
    }
}

/// The outcome and the ROM after adding a file named `name` of type
/// `type_` holding `data`: a name with a NUL and sizes beyond 32 bits are
/// refused with the ROM unchanged; otherwise free space is merged, the
/// header size is the name's entry header aligned up, the slot is searched
/// from the first entry, and the file is placed in it.
pub open spec fn added(
    rom: Seq<u8>,
    align: u32,
    offset: u32,
    content_offset: Option<u32>,
    name: Seq<u8>,
    type_: u32,
    data: Seq<u8>,
) -> (Result<(), CbfsError>, Seq<u8>) {
    if name.contains(0u8) {
        (Err(CbfsError::NulInName), rom)
    } else if data.len() > u32::MAX || name.len() > u32::MAX {
        (Err(CbfsError::TooLarge), rom)
    } else {
        let m = merged(rom, align as int, Some(offset as int));
        match m.0 {
            Err(x) => (Err(x), m.1),
            Ok(()) => {
                let rm = m.1;
                if name.len() > u32::MAX - 25 {
                    (Err(CbfsError::TooLarge), rm)
                } else {
                    match align_up_opt((name.len() + 25) as int, align as int) {
                        None => (Err(CbfsError::TooLarge), rm),
                        Some(hs) => if hs > u32::MAX - data.len() {
                            (Err(CbfsError::TooLarge), rm)
                        } else {
                            placed(
                                rm,
                                slot_search(
                                    rm,
                                    align as int,
                                    Some(offset as int),
                                    content_offset,
                                    hs as u32,
                                    data.len() as u32,
                                ),
                                hs as u32,
                                name,
                                type_,
                                data,
                                align,
                            )
                        },
                    }
                }
            },
        }
    }
}

/// How far a walk can still go from `c`.
pub open spec fn cursor_measure(c: Option<u32>) -> int {
    match c {
        Some(x) => 0x1_0000_0001 - x,
        None => 0,
    }
}

#[verifier::rlimit(50)]
proof fn lemma_entry_written_holds(
    rom: Seq<u8>,
    start: int,
    name: Seq<u8>,
    type_: u32,
    data: Seq<u8>,
    data_offset: u32,
)
    requires
        0 <= start,
        start + 24 + name.len() + 1 <= data_offset + start,
        start + data_offset + data.len() <= rom.len(),
        data.len() <= u32::MAX,
    ensures
        holds_file(
            entry_written(rom, start, name, type_, data, data.len() as u32, data_offset),
            start,
            name,
            type_,
            data,
        ),
        be32(entry_written(rom, start, name, type_, data, data.len() as u32, data_offset), start + 20)
            == data_offset,
        entry_written(rom, start, name, type_, data, data.len() as u32, data_offset).len()
            == rom.len(),
{
    reveal(entry_written);
    let hb = file_header_bytes(data.len() as u32, type_, data_offset);
    crate::bytes::lemma_be32_roundtrip(data.len() as int);
    crate::bytes::lemma_be32_roundtrip(type_ as int);
    crate::bytes::lemma_be32_roundtrip(data_offset as int);
    let r1 = write_at(rom, start, hb);
    let r2 = write_at(r1, start + 24, name);
    let r3 = write_at(r2, start + 24 + name.len(), seq![0u8]);
    let r4 = write_at(r3, start + data_offset, data);
    assert(r4.subrange(start, start + 8) =~= CBFS_FILE_MAGIC@);
    assert(r4.subrange(start + 8, start + 12) =~= hb.subrange(8, 12));
    assert(r4.subrange(start + 12, start + 16) =~= hb.subrange(12, 16));
    assert(r4.subrange(start + 20, start + 24) =~= hb.subrange(20, 24));
    assert(hb.subrange(8, 12) =~= be32_bytes(data.len() as int));
    assert(hb.subrange(12, 16) =~= be32_bytes(type_ as int));
    assert(hb.subrange(20, 24) =~= be32_bytes(data_offset as int));
    assert(be32(r4, start + 8) == be32(be32_bytes(data.len() as int), 0));
    assert(be32(r4, start + 12) == be32(be32_bytes(type_ as int), 0));
    assert(be32(r4, start + 20) == be32(be32_bytes(data_offset as int), 0));
    assert(r4.subrange(start + 24, start + 24 + name.len()) =~= name);
    assert(r4.subrange(start + data_offset, start + data_offset + data.len()) =~= data);
}

proof fn lemma_holds_file_kept(
    rom: Seq<u8>,
    h: int,
    name: Seq<u8>,
    type_: u32,
    data: Seq<u8>,
    at: int,
    src: Seq<u8>,
)
    requires
        holds_file(rom, h, name, type_, data),
        at >= h + be32(rom, h + 20) + data.len(),
        at >= h + 24 + name.len() + 1,
        at + src.len() <= rom.len(),
        0 <= at,
    ensures
        holds_file(write_at(rom, at, src), h, name, type_, data),
        be32(write_at(rom, at, src), h + 20) == be32(rom, h + 20),
        write_at(rom, at, src).len() == rom.len(),
{
    let w = write_at(rom, at, src);
    let off = be32(rom, h + 20);
    assert(w.subrange(h, h + 8) =~= rom.subrange(h, h + 8));
    assert(w.subrange(h + 24, h + 24 + name.len()) =~= rom.subrange(h + 24, h + 24 + name.len()));
    assert(w.subrange(h + off, h + off + data.len()) =~= rom.subrange(h + off, h + off + data.len()));
    assert(w[h + 8] == rom[h + 8] && w[h + 9] == rom[h + 9] && w[h + 10] == rom[h + 10] && w[h
        + 11] == rom[h + 11]);
    assert(w[h + 12] == rom[h + 12] && w[h + 13] == rom[h + 13] && w[h + 14] == rom[h + 14] && w[h
        + 15] == rom[h + 15]);
    assert(w[h + 20] == rom[h + 20] && w[h + 21] == rom[h + 21] && w[h + 22] == rom[h + 22] && w[h
        + 23] == rom[h + 23]);
}

proof fn lemma_holds_file_null(
    rom: Seq<u8>,
    h: int,
    name: Seq<u8>,
    type_: u32,
    data: Seq<u8>,
    at: int,
    len: u32,
)
    requires
        holds_file(rom, h, name, type_, data),
        at >= h + be32(rom, h + 20) + data.len(),
        at >= h + 24 + name.len() + 1,
        at + 25 <= rom.len(),
    ensures
        holds_file(null_entry_written(rom, at, len), h, name, type_, data),
        be32(null_entry_written(rom, at, len), h + 20) == be32(rom, h + 20),
        null_entry_written(rom, at, len).len() == rom.len(),
{
    reveal(entry_written);
    let hb = file_header_bytes(len, CBFS_TYPE_NULL, 25);
    lemma_holds_file_kept(rom, h, name, type_, data, at, hb);
    let r1 = write_at(rom, at, hb);
    lemma_holds_file_kept(r1, h, name, type_, data, at + 24, Seq::empty());
    let r2 = write_at(r1, at + 24, Seq::<u8>::empty());
    lemma_holds_file_kept(r2, h, name, type_, data, at + 24, seq![0u8]);
    let r3 = write_at(r2, at + 24, seq![0u8]);
    lemma_holds_file_kept(r3, h, name, type_, data, at + 25, Seq::empty());
}

fn write_null_bytes(rom: &mut [u8], start: u32, len: u32)
    requires
        start + 25 <= old(rom)@.len(),
    ensures
        final(rom)@ == null_entry_written(old(rom)@, start as int, len),
        final(rom)@.len() == old(rom)@.len(),
{
    let empty: [u8; 0] = [];
    proof {
        assert(empty@ =~= Seq::<u8>::empty());
    }
    write_entry_bytes(rom, start, &empty, CBFS_TYPE_NULL, &empty, len, MIN_ENTRY_METADATA);
}

impl<'a> CbfsWriter<'a> {
    fn write_null_entry(&mut self, start: u32, len: u32)
        requires
            start + 25 <= old(self).rom().len(),
        ensures
            final(final(self).rom)@ == final(old(self).rom)@,
            final(self).rom() == null_entry_written(old(self).rom(), start as int, len),
            final(self).rom().len() == old(self).rom().len(),
            final(self).align() == old(self).align(),
            final(self).offset() == old(self).offset(),
    {
        write_null_bytes(self.rom, start, len);
    }

    /// Coalesces every run of consecutive free or deleted entries into one
    /// free entry.
    fn merge_empty_entries(&mut self) -> (r: Result<(), CbfsError>)
        requires
            old(self).wf(),
        ensures
            final(final(self).rom)@ == final(old(self).rom)@,
            final(self).wf(),
            final(self).rom().len() == old(self).rom().len(),
            final(self).align() == old(self).align(),
            final(self).offset() == old(self).offset(),
            r is Err ==> r == Err::<(), CbfsError>(CbfsError::CorruptEntry),
            (r, final(self).rom()) == merged(
                old(self).rom(),
                old(self).align() as int,
                Some(old(self).offset() as int),
            ),
    {
        let ghost n0 = self.rom@.len();
        let ghost target = merged(self.rom@, self.align as int, Some(self.offset as int));
        let mut walker = CbfsEntryWalker::new(self.align, self.offset);
        loop
            invariant
                final(self.rom)@ == final(old(self).rom)@,
                self.wf(),
                self.rom@.len() == n0,
                n0 == old(self).rom@.len(),
                self.align == old(self).align,
                self.offset == old(self).offset,
                walker.align == self.align,
                target == merged(old(self).rom(), old(self).align() as int, Some(old(self).offset() as int)),
                target == merged(self.rom@, self.align as int, cursor_int(walker.cursor)),
            ensures
                target == (Ok::<(), CbfsError>(()), self.rom@),
            decreases cursor_measure(walker.cursor),
        {
            let ghost c0 = walker.cursor;
            let entry = match walker.next(self.rom) {
                None => {
                    proof {
                        assert(target == merged(self.rom@, self.align as int, cursor_int(c0)));
                    }
                    break;
                },
                Some(Err(e)) => {
                    return Err(e);
                },
                Some(Ok(e)) => e,
            };
            proof {
                lemma_walk_progress(self.rom@, self.align as int, c0->0 as int);
                lemma_entry_step(self.rom@, c0->0 as int);
                lemma_entry_step_nul(self.rom@, c0->0 as int);
            }
            if entry.entry_type != CBFS_TYPE_NULL && entry.entry_type != CBFS_TYPE_DELETED {
                continue;
            }
            let mut merge_end = entry.entry_end;
            let start_inner = match align_up_u32(merge_end, self.align) {
                Some(x) => x,
                None => {
                    return Err(CbfsError::CorruptEntry);
                },
            };
            proof {
                lemma_align_up_ge(merge_end as int, self.align as int);
            }
            let ghost run = free_run_end(self.rom@, self.align as int, Some(start_inner as int), entry.entry_end as int);
            let ghost c_entry = entry.entry_start as int;
            proof {
                assert(c0 == Some(entry.entry_start));
                assert(walker.cursor == Some(start_inner));
                assert(start_inner > entry.entry_start);
                assert(target == merged(self.rom@, self.align as int, Some(c_entry)));
            }
            let mut inner = CbfsEntryWalker::new(self.align, start_inner);
            loop
                invariant_except_break
                    run == free_run_end(self.rom@, self.align as int, cursor_int(inner.cursor), merge_end as int),
                invariant
                    final(self.rom)@ == final(old(self).rom)@,
                    self.wf(),
                    self.rom@.len() == n0,
                    n0 == old(self).rom@.len(),
                    self.align == old(self).align,
                    self.offset == old(self).offset,
                    inner.align == self.align,
                    entry.entry_end <= merge_end <= n0,
                    inner.cursor matches Some(c) ==> c >= merge_end,
                    target == merged(old(self).rom(), old(self).align() as int, Some(old(self).offset() as int)),
                    target == merged(self.rom@, self.align as int, Some(c_entry)),
                    c_entry == entry.entry_start,
                    entry_step(self.rom@, c_entry) == CbfsStep::Entry(entry),
                    is_free_type(entry.entry_type),
                    align_up_opt(entry.entry_end as int, self.align as int) == Some(start_inner as int),
                    start_inner > entry.entry_start,
                    walker.cursor == Some(start_inner),
                    walker.align == self.align,
                    run == free_run_end(self.rom@, self.align as int, Some(start_inner as int), entry.entry_end as int),
                ensures
                    run == Ok::<int, CbfsError>(merge_end as int),
                decreases cursor_measure(inner.cursor),
            {
                let ghost d0 = inner.cursor;
                let next = match inner.next(self.rom) {
                    None => {
                        break;
                    },
                    Some(Err(e)) => {
                        return Err(e);
                    },
                    Some(Ok(e)) => e,
                };
                proof {
                    lemma_walk_progress(self.rom@, self.align as int, d0->0 as int);
                    lemma_entry_step(self.rom@, d0->0 as int);
                    lemma_align_up_ge(next.entry_end as int, self.align as int);
                }
                if next.entry_type != CBFS_TYPE_NULL && next.entry_type != CBFS_TYPE_DELETED {
                    break;
                }
                merge_end = next.entry_end;
            }
            let ghost rom1 = self.rom@;
            if merge_end > entry.entry_end {
                let null_len = merge_end - entry.entry_start - MIN_ENTRY_METADATA;
                self.write_null_entry(entry.entry_start, null_len);
            }
            proof {
                assert(self.rom@ == if merge_end > entry.entry_end {
                    null_entry_written(
                        rom1,
                        entry.entry_start as int,
                        (merge_end - entry.entry_start - 25) as u32,
                    )
                } else {
                    rom1
                });
            }
        }
        Ok(())
    }
}

proof fn lemma_align_up_ge(v: int, a: int)
    requires
        a > 0,
        v >= 0,
    ensures
        align_up_opt(v, a) matches Some(x) ==> x >= v,
{
    if let Some(x) = align_up_opt(v, a) {
        assert(x >= v) by (nonlinear_arith)
            requires
                x == (v + a - 1) / a * a,
                a > 0,
        ;
    }
}

proof fn lemma_entry_step_nul(rom: Seq<u8>, cursor: int)
    requires
        entry_step(rom, cursor) is Entry,
        0 <= cursor,
    ensures
        entry_step(rom, cursor)->Entry_0.entry_start + 25 <= entry_step(rom, cursor)->Entry_0.entry_end,
{
    let data_offset = be32(rom, cursor + 20);
    lemma_first_nul(rom, cursor + 24, cursor + data_offset);
}

fn contains_nul(s: &[u8]) -> (r: bool)
    ensures
        r == s@.contains(0u8),
{
    let mut i: usize = 0;
    while i < s.len()
        invariant
            i <= s@.len(),
            forall|j: int| 0 <= j < i ==> s@[j] != 0,
        decreases s@.len() - i,
    {
        if s[i] == 0 {
            assert(s@[i as int] == 0);
            return true;
        }
        i += 1;
    }
    false
}

/// The outcome and the ROM after placing a file named `name` of type `type_`
/// holding `data` in the free entry `entry`, its data at `co` and its header
/// of `header_size` bytes before: the entry starts at `co - header_size`
/// rounded down to the alignment (not before the free entry), the free space
/// before and after it becomes free entries where it can hold one, and
/// `TooLarge` comes where an aligned offset does not fit in 32 bits.
pub open spec fn slot_filled(
    rom: Seq<u8>,
    entry: CbfsEntryInfo,
    co: u32,
    header_size: u32,
    name: Seq<u8>,
    type_: u32,
    data: Seq<u8>,
    align: u32,
) -> (Result<(), CbfsError>, Seq<u8>) {
    let nes = ((co - header_size) as u32) & !((align - 1) as u32);
    match align_up_opt(25, align as int) {
        None => (Err(CbfsError::TooLarge), rom),
        Some(min) => {
            let r1 = if nes > entry.entry_start && nes - entry.entry_start >= min {
                null_entry_written(rom, entry.entry_start as int, (nes - entry.entry_start - 25) as u32)
            } else {
                rom
            };
            let hs = if nes > entry.entry_start {
                nes
            } else {
                entry.entry_start
            };
            let r2 = entry_written(
                r1,
                hs as int,
                name,
                type_,
                data,
                data.len() as u32,
                (co - hs) as u32,
            );
            match align_up_opt(co + data.len(), align as int) {
                None => (Err(CbfsError::TooLarge), r2),
                Some(fe) => if entry.entry_end > fe && entry.entry_end - fe >= min {
                    (
                        Ok(()),
                        null_entry_written(r2, fe, (entry.entry_end - fe - 25) as u32),
                    )
                } else {
                    (Ok(()), r2)
                },
            }
        },
    }
}

impl<'a> CbfsWriter<'a> {
    #[verifier::rlimit(30)]
    fn place_in_slot(
        &mut self,
        entry: CbfsEntryInfo,
        co: u32,
        header_size: u32,
        name: &[u8],
        type_: u32,
        data: &[u8],
    ) -> (r: Result<(), CbfsError>)
        requires
            old(self).wf(),
            entry.entry_start + header_size <= co,
            co + data@.len() <= entry.entry_end <= old(self).rom().len(),
            header_size >= name@.len() + 25,
            data@.len() <= u32::MAX,
        ensures
            final(final(self).rom)@ == final(old(self).rom)@,
            final(self).wf(),
            final(self).rom().len() == old(self).rom().len(),
            final(self).align() == old(self).align(),
            final(self).offset() == old(self).offset(),
            r is Ok ==> exists|h: int|
                #[trigger] holds_file(final(self).rom(), h, name@, type_, data@) && h + be32(
                    final(self).rom(),
                    h + 20,
                ) == co,
            (r, final(self).rom()) == slot_filled(
                old(self).rom(),
                entry,
                co,
                header_size,
                name@,
                type_,
                data@,
                old(self).align(),
            ),
    {
        let data_len = data.len() as u32;
        let co_end = co + data_len;
        let base = co - header_size;
        let am1 = self.align - 1;
        let new_entry_start = base & !am1;
        proof {
            assert(base & !am1 <= base) by (bit_vector);
        }
        let min_aligned = match align_up_u32(MIN_ENTRY_METADATA, self.align) {
            Some(x) => x,
            None => {
                return Err(CbfsError::TooLarge);
            },
        };
        proof {
            lemma_align_up_ge(25, self.align as int);
        }
        if new_entry_start > entry.entry_start {
            let leading = new_entry_start - entry.entry_start;
            if leading >= min_aligned {
                let null_len = leading - MIN_ENTRY_METADATA;
                self.write_null_entry(entry.entry_start, null_len);
            }
        }
        let hdr_start = if new_entry_start > entry.entry_start {
            new_entry_start
        } else {
            entry.entry_start
        };
        let data_offset = co - hdr_start;
        let ghost before = self.rom@;
        write_entry_bytes(self.rom, hdr_start, name, type_, data, data_len, data_offset);
        proof {
            lemma_entry_written_holds(before, hdr_start as int, name@, type_, data@, data_offset);
        }
        let file_end = match align_up_u32(co_end, self.align) {
            Some(x) => x,
            None => {
                return Err(CbfsError::TooLarge);
            },
        };
        if entry.entry_end > file_end {
            let trailing = entry.entry_end - file_end;
            if trailing >= min_aligned {
                let null_len = trailing - MIN_ENTRY_METADATA;
                let ghost before_null = self.rom@;
                proof {
                    lemma_align_up_ge(co_end as int, self.align as int);
                }
                self.write_null_entry(file_end, null_len);
                proof {
                    lemma_holds_file_null(
                        before_null,
                        hdr_start as int,
                        name@,
                        type_,
                        data@,
                        file_end as int,
                        null_len,
                    );
                }
            }
        }
        proof {
            assert(holds_file(self.rom(), hdr_start as int, name@, type_, data@));
            assert(hdr_start + be32(self.rom(), hdr_start + 20) == co);
        }
        Ok(())
    }

    /// Adds a file named `name` of type `type_` holding `data`: merges free
    /// space first, then takes the first empty entry large enough (and, with
    /// `content_offset`, whose range lets the data start exactly there),
    /// splitting off the free space before and after it as free entries.
    /// Fails with `NoSpace`, the merged ROM left as it is, when no empty
    /// entry fits.
    #[verifier::rlimit(60)]
    pub fn add_file(&mut self, content_offset: Option<u32>, name: &[u8], type_: u32, data: &[u8]) -> (r:
        Result<(), CbfsError>)
        requires
            old(self).wf(),
        ensures
            final(self).wf(),
            final(self).rom().len() == old(self).rom().len(),
            final(self).align() == old(self).align(),
            final(self).offset() == old(self).offset(),
            final(final(self).rom)@ == final(old(self).rom)@,
            name@.contains(0u8) ==> r == Err::<(), CbfsError>(CbfsError::NulInName)
                && final(self).rom() == old(self).rom(),
            !name@.contains(0u8) && (data@.len() > u32::MAX || name@.len() > u32::MAX) ==> r
                == Err::<(), CbfsError>(CbfsError::TooLarge)
                && final(self).rom() == old(self).rom(),
            r is Ok ==> exists|h: int|
                #[trigger] holds_file(final(self).rom(), h, name@, type_, data@) && (
                content_offset matches Some(co) ==> h + be32(final(self).rom(), h + 20) == co),
            (r, final(self).rom()) == added(
                old(self).rom(),
                old(self).align(),
                old(self).offset(),
                content_offset,
                name@,
                type_,
                data@,
            ),
    {
        if contains_nul(name) {
            return Err(CbfsError::NulInName);
        }
        if data.len() > 0xffff_ffff || name.len() > 0xffff_ffff {
            return Err(CbfsError::TooLarge);
        }
        let data_len = data.len() as u32;
        let name_len = name.len() as u32;
        let ghost target = added(
            self.rom@,
            self.align,
            self.offset,
            content_offset,
            name@,
            type_,
            data@,
        );
        match self.merge_empty_entries() {
            Ok(()) => {},
            Err(e) => {
                return Err(e);
            },
        }
        let ghost rom_m = self.rom@;
        let ghost n0 = self.rom@.len();
        if name_len > 0xffff_ffff - 25 {
            return Err(CbfsError::TooLarge);
        }
        let header_size = match align_up_u32(name_len + 25, self.align) {
            Some(x) => x,
            None => {
                return Err(CbfsError::TooLarge);
            },
        };
        proof {
            lemma_align_up_ge(name_len + 25, self.align as int);
        }
        if header_size > 0xffff_ffff - data_len {
            return Err(CbfsError::TooLarge);
        }
        let need_size = header_size + data_len;
        let mut walker = CbfsEntryWalker::new(self.align, self.offset);
        loop
            invariant
                final(self.rom)@ == final(old(self).rom)@,
                self.wf(),
                self.rom@.len() == n0,
                n0 == old(self).rom@.len(),
                self.align == old(self).align,
                self.offset == old(self).offset,
                walker.align == self.align,
                header_size >= name_len + 25,
                need_size == header_size + data_len,
                data_len == data@.len(),
                name_len == name@.len(),
                !name@.contains(0u8),
                self.rom@ == rom_m,
                target == added(
                    old(self).rom(),
                    old(self).align(),
                    old(self).offset(),
                    content_offset,
                    name@,
                    type_,
                    data@,
                ),
                target == placed(
                    rom_m,
                    slot_search(
                        rom_m,
                        self.align as int,
                        cursor_int(walker.cursor),
                        content_offset,
                        header_size,
                        data_len,
                    ),
                    header_size,
                    name@,
                    type_,
                    data@,
                    self.align,
                ),
            ensures
                target == (Err::<(), CbfsError>(CbfsError::NoSpace), rom_m),
                self.rom@ == rom_m,
            decreases cursor_measure(walker.cursor),
        {
            let ghost c0 = walker.cursor;
            let ghost search = slot_search(
                rom_m,
                self.align as int,
                cursor_int(c0),
                content_offset,
                header_size,
                data_len,
            );
            let entry = match walker.next(self.rom) {
                None => {
                    break;
                },
                Some(Err(e)) => {
                    proof {
                        assert(search == Err::<(CbfsEntryInfo, u32), CbfsError>(CbfsError::CorruptEntry));
                    }
                    return Err(e);
                },
                Some(Ok(e)) => e,
            };
            proof {
                lemma_walk_progress(self.rom@, self.align as int, c0->0 as int);
                lemma_entry_step(self.rom@, c0->0 as int);
                lemma_entry_step_nul(self.rom@, c0->0 as int);
                let next = match align_up_opt(entry.entry_end as int, self.align as int) {
                    Some(x) => if x > c0->0 {
                        Some(x)
                    } else {
                        None
                    },
                    None => None,
                };
                assert(next == cursor_int(walker.cursor));
                assert(entry_step(rom_m, c0->0 as int) == CbfsStep::Entry(entry));
            }
            let slot_size = entry.entry_end - entry.entry_start;
            if entry.entry_type != CBFS_TYPE_NULL || slot_size < need_size {
                continue;
            }
            if let Some(co) = content_offset {
                if co > 0xffff_ffff - data_len {
                    return Err(CbfsError::TooLarge);
                }
                let co_end = co + data_len;
                if co < entry.entry_start + header_size || co_end > entry.entry_end {
                    continue;
                }
            }
            let co = match content_offset {
                Some(c) => c,
                None => entry.entry_start + header_size,
            };
            if co > 0xffff_ffff - data_len {
                return Err(CbfsError::TooLarge);
            }
            return self.place_in_slot(entry, co, header_size, name, type_, data);
        }
        Err(CbfsError::NoSpace)
    }
}

impl<'a> CbfsWriter<'a> {
    /// The entries of the ROM and whether a corrupt entry ends them.
    pub closed spec fn entries(&self) -> (Seq<CbfsEntryInfo>, bool) {
        walk(self.rom@, self.align as int, Some(self.offset as int))
    }

    /// Marks the first entry named `name` (whatever its type) as deleted and
    /// merges free space; `Ok(false)` if there is none.
    pub fn delete_file(&mut self, name: &[u8]) -> (r: Result<bool, CbfsError>)
        requires
            old(self).wf(),
        ensures
            final(final(self).rom)@ == final(old(self).rom)@,
            final(self).wf(),
            final(self).rom().len() == old(self).rom().len(),
            final(self).align() == old(self).align(),
            final(self).offset() == old(self).offset(),
            r == Ok::<bool, CbfsError>(true) ==> deleted(old(self).rom(), old(self).align(), old(self).offset(), name@).0 is Ok
                && final(self).rom() == deleted(old(self).rom(), old(self).align(), old(self).offset(), name@).1,
            match find_name(old(self).entries().0, old(self).entries().1, old(self).rom(), name@) {
                Err(e) => r == Err::<bool, CbfsError>(e) && final(self).rom() == old(self).rom(),
                Ok(None) => r == Ok::<bool, CbfsError>(false) && final(self).rom() == old(
                    self,
                ).rom(),
                Ok(Some(e)) => {
                    let m = merged(
                        write_at(old(self).rom(), e.entry_start + 12, seq![0u8, 0u8, 0u8, 0u8]),
                        old(self).align() as int,
                        Some(old(self).offset() as int),
                    );
                    &&& final(self).rom() == m.1
                    &&& r == match m.0 {
                        Ok(()) => Ok::<bool, CbfsError>(true),
                        Err(x) => Err::<bool, CbfsError>(x),
                    }
                },
            },
    {
        let ghost target = find_name(self.entries().0, self.entries().1, self.rom@, name@);
        let mut walker = CbfsEntryWalker::new(self.align, self.offset);
        loop
            invariant
                final(self.rom)@ == final(old(self).rom)@,
                self.wf(),
                self.rom@ == old(self).rom@,
                self.align == old(self).align,
                self.offset == old(self).offset,
                walker.align == self.align,
                target == find_name(old(self).entries().0, old(self).entries().1, old(self).rom(), name@),
                target == find_name(
                    walk(
                        self.rom@,
                        self.align as int,
                        match walker.cursor {
                            Some(c) => Some(c as int),
                            None => None,
                        },
                    ).0,
                    walk(
                        self.rom@,
                        self.align as int,
                        match walker.cursor {
                            Some(c) => Some(c as int),
                            None => None,
                        },
                    ).1,
                    self.rom@,
                    name@,
                ),
            decreases cursor_measure(walker.cursor),
        {
            let ghost c0 = walker.cursor;
            let entry = match walker.next(self.rom) {
                None => {
                    return Ok(false);
                },
                Some(Err(e)) => {
                    return Err(e);
                },
                Some(Ok(e)) => e,
            };
            proof {
                lemma_walk_progress(self.rom@, self.align as int, c0->0 as int);
                lemma_entry_step(self.rom@, c0->0 as int);
            }
            let ns = entry.name_start as usize;
            let matched = bytes_eq(&self.rom[ns..ns + entry.name_len as usize], name);
            if matched {
                let zero: [u8; 4] = [0, 0, 0, 0];
                proof {
                    assert(zero@ =~= seq![0u8, 0u8, 0u8, 0u8]);
                    assert(target == Ok::<Option<CbfsEntryInfo>, CbfsError>(Some(entry)));
                }
                copy_into(self.rom, entry.entry_start as usize + 12, &zero);
                match self.merge_empty_entries() {
                    Ok(()) => {},
                    Err(e) => {
                        return Err(e);
                    },
                }
                return Ok(true);
            }
            proof {
                let w0 = walk(self.rom@, self.align as int, Some(c0->0 as int));
                let w1 = walk(
                    self.rom@,
                    self.align as int,
                    match walker.cursor {
                        Some(c) => Some(c as int),
                        None => None,
                    },
                );
                assert(w0.0 =~= seq![entry] + w1.0);
                assert(w0.0.drop_first() =~= w1.0);
            }
        }
    }
}

/// Two ROMs of one length that agree below `s`.
pub open spec fn agree_below(a: Seq<u8>, b: Seq<u8>, s: int) -> bool {
    &&& a.len() == b.len()
    &&& forall|i: int| 0 <= i < s && i < a.len() ==> a[i] == b[i]
}

proof fn lemma_first_nul_frame(a: Seq<u8>, b: Seq<u8>, from: int, to: int, s: int)
    requires
        agree_below(a, b, s),
        0 <= from,
        to <= s,
        to <= a.len(),
    ensures
        first_nul(a, from, to) == first_nul(b, from, to),
    decreases to - from,
{
    if from < to {
        assert(a[from] == b[from]);
        lemma_first_nul_frame(a, b, from + 1, to, s);
    }
}

/// An entry that ends below `s` reads the same in ROMs that agree below `s`.
#[verifier::rlimit(60)]
proof fn lemma_entry_step_frame(a: Seq<u8>, b: Seq<u8>, c: int, s: int)
    requires
        agree_below(a, b, s),
        0 <= c,
        entry_step(a, c) matches CbfsStep::Entry(info) && info.entry_end <= s,
    ensures
        entry_step(b, c) == entry_step(a, c),
{
    lemma_entry_step(a, c);
    assert(a.subrange(c, c + 8) =~= b.subrange(c, c + 8));
    assert(a[c + 8] == b[c + 8] && a[c + 9] == b[c + 9] && a[c + 10] == b[c + 10] && a[c + 11] == b[c + 11]);
    assert(a[c + 12] == b[c + 12] && a[c + 13] == b[c + 13] && a[c + 14] == b[c + 14] && a[c + 15] == b[c + 15]);
    assert(a[c + 20] == b[c + 20] && a[c + 21] == b[c + 21] && a[c + 22] == b[c + 22] && a[c + 23] == b[c + 23]);
    let off = be32(a, c + 20);
    lemma_first_nul_frame(a, b, c + 24, c + off, s);
}

/// The first `k` entries of a walk, when they end below `s`, are met alike
/// in ROMs that agree below `s`.
proof fn lemma_walk_frame(a: Seq<u8>, b: Seq<u8>, align: int, c: Option<int>, s: int, k: int)
    requires
        agree_below(a, b, s),
        0 <= k <= walk(a, align, c).0.len(),
        forall|i: int| 0 <= i < k ==> (#[trigger] walk(a, align, c).0[i]).entry_end <= s,
    ensures
        walk(b, align, c).0.len() >= k,
        walk(b, align, c).0.take(k) == walk(a, align, c).0.take(k),
    decreases (match c {
        Some(x) => 0x1_0000_0001 - x,
        None => 0,
    }),
{
    if k > 0 {
        let x = c->0;
        let info = entry_step(a, x)->Entry_0;
        assert(walk(a, align, c).0[0] == info);
        lemma_entry_step_frame(a, b, x, s);
        match align_up_opt(info.entry_end as int, align) {
            Some(nx) => if nx > x {
                let ra = walk(a, align, Some(nx)).0;
                assert forall|i: int| 0 <= i < k - 1 implies (#[trigger] ra[i]).entry_end <= s by {
                    assert(ra[i] == walk(a, align, c).0[i + 1]);
                }
                lemma_walk_frame(a, b, align, Some(nx), s, k - 1);
                let rb = walk(b, align, Some(nx)).0;
                assert(walk(a, align, c).0 == seq![info] + ra);
                assert(walk(b, align, c).0 == seq![info] + rb);
                assert(walk(b, align, c).0.take(k) =~= seq![info] + rb.take(k - 1));
                assert(walk(a, align, c).0.take(k) =~= seq![info] + ra.take(k - 1));
            } else {
                assert(walk(b, align, c).0.take(k) =~= walk(a, align, c).0.take(k));
            },
            None => {
                assert(walk(b, align, c).0.take(k) =~= walk(a, align, c).0.take(k));
            },
        }
    }
}

/// The slot a search without a requested offset finds is an empty entry
/// of the walk, after every entry the walk meets before it.
proof fn lemma_slot_in_walk(
    rom: Seq<u8>,
    align: int,
    c: Option<int>,
    content_offset: Option<u32>,
    hs: u32,
    dl: u32,
)
    requires
        align > 0,
        slot_search(rom, align, c, content_offset, hs, dl) is Ok,
    ensures
        ({
            let (e, co) = slot_search(rom, align, c, content_offset, hs, dl)->Ok_0;
            let w = walk(rom, align, c).0;
            &&& co >= e.entry_start + hs
            &&& co + dl <= e.entry_end
            &&& content_offset matches Some(k) ==> co == k
            &&& content_offset is None ==> co == e.entry_start + hs
            &&& e.entry_type == CBFS_TYPE_NULL
            &&& e.entry_end - e.entry_start >= hs + dl
            &&& e.entry_end <= rom.len()
            &&& c is Some
            &&& e.entry_start >= c->0
            &&& exists|k: int|
                0 <= k < w.len() && w[k] == e && forall|i: int|
                    0 <= i < k ==> (#[trigger] w[i]).entry_end <= e.entry_start
        }),
    decreases (match c {
        Some(x) => 0x1_0000_0001 - x,
        None => 0,
    }),
{
    let x = c->0;
    let info = entry_step(rom, x)->Entry_0;
    lemma_entry_step(rom, x);
    let next = match align_up_opt(info.entry_end as int, align) {
        Some(y) => if y > x {
            Some(y)
        } else {
            None
        },
        None => None,
    };
    let w = walk(rom, align, c).0;
    let skip = info.entry_type != CBFS_TYPE_NULL || info.entry_end - info.entry_start < hs + dl || (
    content_offset matches Some(k) && k <= u32::MAX - dl && (k < info.entry_start + hs || k + dl
        > info.entry_end));
    if skip {
        let nx = next->0;
        lemma_slot_in_walk(rom, align, next, content_offset, hs, dl);
        lemma_align_up_ge(info.entry_end as int, align);
        let (e, co) = slot_search(rom, align, c, content_offset, hs, dl)->Ok_0;
        let rest = walk(rom, align, next).0;
        assert(w == seq![info] + rest);
        let k2 = choose|k: int|
            0 <= k < rest.len() && rest[k] == e && forall|i: int|
                0 <= i < k ==> (#[trigger] rest[i]).entry_end <= e.entry_start;
        assert(w[k2 + 1] == e);
        assert forall|i: int| 0 <= i < k2 + 1 implies (#[trigger] w[i]).entry_end <= e.entry_start by {
            if i > 0 {
                assert(w[i] == rest[i - 1]);
            }
        }
    } else {
        assert(w[0] == info);
    }
}

proof fn lemma_write_at_frame(s: Seq<u8>, at: int, src: Seq<u8>)
    requires
        0 <= at,
        at + src.len() <= s.len(),
    ensures
        agree_below(s, write_at(s, at, src), at),
{
}

proof fn lemma_agree_trans(a: Seq<u8>, b: Seq<u8>, c: Seq<u8>, s: int, t: int)
    requires
        agree_below(a, b, s),
        agree_below(b, c, t),
        s <= t,
    ensures
        agree_below(a, c, s),
{
}

proof fn lemma_entry_written_frame(
    rom: Seq<u8>,
    start: int,
    name: Seq<u8>,
    type_: u32,
    data: Seq<u8>,
    data_len: u32,
    data_offset: u32,
)
    requires
        0 <= start,
        start + 24 + name.len() + 1 <= rom.len(),
        start + data_offset + data.len() <= rom.len(),
    ensures
        agree_below(rom, entry_written(rom, start, name, type_, data, data_len, data_offset), start),
{
    reveal(entry_written);
    let hb = file_header_bytes(data_len, type_, data_offset);
    assert(hb.len() == 24);
    let r1 = write_at(rom, start, hb);
    let r2 = write_at(r1, start + 24, name);
    let r3 = write_at(r2, start + 24 + name.len(), seq![0u8]);
    lemma_write_at_frame(rom, start, hb);
    lemma_write_at_frame(r1, start + 24, name);
    lemma_write_at_frame(r2, start + 24 + name.len(), seq![0u8]);
    lemma_write_at_frame(r3, start + data_offset, data);
}

/// Merging free space keeps the length of the ROM.
proof fn lemma_merged_len(rom: Seq<u8>, align: int, c: Option<int>)
    ensures
        merged(rom, align, c).1.len() == rom.len(),
    decreases (match c {
        Some(x) => 0x1_0000_0001 - x,
        None => 0,
    }),
{
    if let Some(x) = c {
        if 0 <= x <= u32::MAX {
            if let CbfsStep::Entry(e) = entry_step(rom, x) {
                lemma_entry_step(rom, x);
                lemma_entry_step_nul(rom, x);
                if let Some(nx) = align_up_opt(e.entry_end as int, align) {
                    if !is_free_type(e.entry_type) {
                        if nx > x {
                            lemma_merged_len(rom, align, Some(nx));
                        }
                    } else if let Ok(me) = free_run_end(rom, align, Some(nx), e.entry_end as int) {
                        let rom2 = if me > e.entry_end {
                            null_entry_written(rom, e.entry_start as int, (me - e.entry_start - 25) as u32)
                        } else {
                            rom
                        };
                        if me > e.entry_end {
                            lemma_entry_written_frame(
                                rom,
                                e.entry_start as int,
                                Seq::empty(),
                                CBFS_TYPE_NULL,
                                Seq::empty(),
                                (me - e.entry_start - 25) as u32,
                                25,
                            );
                        }
                        if nx > x {
                            lemma_merged_len(rom2, align, Some(nx));
                        }
                    }
                }
            }
        }
    }
}

proof fn lemma_first_nul_at(s: Seq<u8>, from: int, z: int, to: int)
    requires
        0 <= from <= z < to <= s.len(),
        s[z] == 0,
        forall|i: int| from <= i < z ==> s[i] != 0,
    ensures
        first_nul(s, from, to) == Some(z),
    decreases z - from,
{
    if from < z {
        lemma_first_nul_at(s, from + 1, z, to);
    }
}

/// An entry of a walk starts before its name, and its name before its end.
proof fn lemma_entry_step_bounds_in_walk(rom: Seq<u8>, align: int, c: Option<int>, i: int)
    requires
        0 <= i < walk(rom, align, c).0.len(),
    ensures
        ({
            let e = walk(rom, align, c).0[i];
            &&& e.entry_start + 24 == e.name_start
            &&& e.name_start + e.name_len <= e.data_start
            &&& e.data_start + e.data_len == e.entry_end
            &&& e.entry_end <= rom.len()
            &&& 0 <= e.entry_start <= u32::MAX
            &&& entry_step(rom, e.entry_start as int) == CbfsStep::Entry(e)
        }),
    decreases (match c {
        Some(x) => 0x1_0000_0001 - x,
        None => 0,
    }),
{
    let x = c->0;
    lemma_entry_step(rom, x);
    let info = entry_step(rom, x)->Entry_0;
    if i == 0 {
        assert(walk(rom, align, c).0[0] == info);
    } else {
        let nx = align_up_opt(info.entry_end as int, align)->0;
        let rest = walk(rom, align, Some(nx)).0;
        assert(walk(rom, align, c).0 == seq![info] + rest);
        lemma_entry_step_bounds_in_walk(rom, align, Some(nx), i - 1);
        assert(walk(rom, align, c).0[i] == rest[i - 1]);
    }
}

/// An entry holding a file whose name has no NUL reads as that file.
proof fn lemma_holds_file_step(r: Seq<u8>, h: int, name: Seq<u8>, type_: u32, data: Seq<u8>)
    requires
        holds_file(r, h, name, type_, data),
        !name.contains(0u8),
        r.len() <= u32::MAX,
        be32(r, h + 20) >= 24 + name.len() + 1,
    ensures
        entry_step(r, h) matches CbfsStep::Entry(e) && e.entry_type == type_
            && e.entry_start == h && e.name_start == h + 24 && e.name_len == name.len()
            && e.data_start == h + be32(r, h + 20) && e.data_len == data.len()
            && e.entry_end == h + be32(r, h + 20) + data.len(),
{
    let off = be32(r, h + 20);
    let z = h + 24 + name.len();
    assert forall|i: int| h + 24 <= i < z implies r[i] != 0 by {
        assert(r.subrange(h + 24, z)[i - h - 24] == name[i - h - 24]);
        if name[i - h - 24] == 0 {
            assert(name.contains(0u8));
        }
    }
    lemma_first_nul_at(r, h + 24, z, h + off);
}

/// Whether `e` is a live entry of `rom` named `name`.
pub open spec fn live_named(e: CbfsEntryInfo, rom: Seq<u8>, name: Seq<u8>) -> bool {
    &&& e.entry_type != CBFS_TYPE_NULL
    &&& e.entry_type != CBFS_TYPE_DELETED
    &&& rom.subrange(e.name_start as int, e.name_start + e.name_len) == name
}

proof fn lemma_find_in_at(es: Seq<CbfsEntryInfo>, bad: bool, rom: Seq<u8>, name: Seq<u8>, k: int)
    requires
        0 <= k < es.len(),
        live_named(es[k], rom, name),
        forall|i: int| 0 <= i < k ==> !live_named(#[trigger] es[i], rom, name),
    ensures
        find_in(es, bad, rom, name) == Ok::<Option<CbfsEntryInfo>, CbfsError>(Some(es[k])),
    decreases k,
{
    if k > 0 {
        assert(!live_named(es[0], rom, name));
        let t = es.drop_first();
        assert forall|i: int| 0 <= i < k - 1 implies !live_named(#[trigger] t[i], rom, name) by {
            assert(t[i] == es[i + 1]);
        }
        lemma_find_in_at(t, bad, rom, name, k - 1);
    }
}

/// Where the first `k` entries of a walk end below `s`, a ROM that agrees
/// below `s` and holds an entry where the walk met its `k`-th meets that
/// entry `k`-th.
proof fn lemma_walk_frame_next(a: Seq<u8>, b: Seq<u8>, align: int, c: Option<int>, s: int, k: int)
    requires
        agree_below(a, b, s),
        0 <= k < walk(a, align, c).0.len(),
        forall|i: int| 0 <= i < k ==> (#[trigger] walk(a, align, c).0[i]).entry_end <= s,
        entry_step(b, walk(a, align, c).0[k].entry_start as int) is Entry,
    ensures
        walk(b, align, c).0.len() > k,
        walk(b, align, c).0[k] == entry_step(b, walk(a, align, c).0[k].entry_start as int)->Entry_0,
    decreases (match c {
        Some(x) => 0x1_0000_0001 - x,
        None => 0,
    }),
{
    let x = c->0;
    let info = entry_step(a, x)->Entry_0;
    lemma_entry_step(a, x);
    assert(walk(a, align, c).0[0] == info);
    if k == 0 {
        let e2 = entry_step(b, x)->Entry_0;
        lemma_entry_step(b, x);
        assert(walk(b, align, c).0[0] == e2);
    } else {
        lemma_entry_step_frame(a, b, x, s);
        let nx = align_up_opt(info.entry_end as int, align)->0;
        let ra = walk(a, align, Some(nx)).0;
        assert(walk(a, align, c).0 == seq![info] + ra);
        assert forall|i: int| 0 <= i < k - 1 implies (#[trigger] ra[i]).entry_end <= s by {
            assert(ra[i] == walk(a, align, c).0[i + 1]);
        }
        assert(ra[k - 1] == walk(a, align, c).0[k]);
        lemma_walk_frame_next(a, b, align, Some(nx), s, k - 1);
        let rb = walk(b, align, Some(nx)).0;
        assert(walk(b, align, c).0 == seq![info] + rb);
        assert(walk(b, align, c).0[k] == rb[k - 1]);
    }
}

/// The search for a name finds the `k`-th entry when it is the first live
/// entry with that name, and the entries before it are those of a ROM in
/// which no live entry bears the name.
proof fn lemma_found_after_frame(
    rm: Seq<u8>,
    r2: Seq<u8>,
    align: int,
    c: Option<int>,
    k: int,
    name: Seq<u8>,
)
    requires
        0 <= k < walk(rm, align, c).0.len(),
        agree_below(rm, r2, walk(rm, align, c).0[k].entry_start as int),
        forall|i: int|
            0 <= i < k ==> (#[trigger] walk(rm, align, c).0[i]).entry_end <= walk(rm, align, c).0[k].entry_start,
        forall|i: int|
            0 <= i < walk(rm, align, c).0.len() ==> !live_named(#[trigger] walk(rm, align, c).0[i], rm, name),
        walk(r2, align, c).0.len() > k,
        walk(r2, align, c).0.take(k) == walk(rm, align, c).0.take(k),
        live_named(walk(r2, align, c).0[k], r2, name),
    ensures
        find_in(walk(r2, align, c).0, walk(r2, align, c).1, r2, name) == Ok::<
            Option<CbfsEntryInfo>,
            CbfsError,
        >(Some(walk(r2, align, c).0[k])),
{
    let wm = walk(rm, align, c).0;
    let w2 = walk(r2, align, c).0;
    let s = wm[k].entry_start as int;
    lemma_walk_in_rom(rm, align, c);
    assert forall|i: int| 0 <= i < k implies !live_named(#[trigger] w2[i], r2, name) by {
        assert(w2[i] == w2.take(k)[i]);
        assert(w2[i] == wm[i]);
        let e = wm[i];
        lemma_entry_step_bounds_in_walk(rm, align, c, i);
        assert(r2.subrange(e.name_start as int, e.name_start + e.name_len) =~= rm.subrange(
            e.name_start as int,
            e.name_start + e.name_len,
        ));
        assert(!live_named(wm[i], rm, name));
    }
    lemma_find_in_at(w2, walk(r2, align, c).1, r2, name, k);
}

/// Filling a slot at its start: the file is there, and nothing before the
/// slot changed.
#[verifier::rlimit(40)]
proof fn lemma_slot_filled_at_start(
    rm: Seq<u8>,
    e: CbfsEntryInfo,
    co: u32,
    hs: u32,
    name: Seq<u8>,
    type_: u32,
    data: Seq<u8>,
    align: u32,
)
    requires
        align > 0,
        co == e.entry_start + hs,
        hs >= name.len() + 25,
        co + data.len() <= e.entry_end <= rm.len(),
        slot_filled(rm, e, co, hs, name, type_, data, align).0 is Ok,
    ensures
        ({
            let r2 = slot_filled(rm, e, co, hs, name, type_, data, align).1;
            &&& agree_below(rm, r2, e.entry_start as int)
            &&& holds_file(r2, e.entry_start as int, name, type_, data)
            &&& be32(r2, e.entry_start + 20) == hs
        }),
{
    let a = align as int;
    let start = e.entry_start as int;
    let dl = data.len() as u32;
    let x: u32 = (co - hs) as u32;
    let m: u32 = (align - 1) as u32;
    assert(x & !m <= x) by (bit_vector);
    let r2a = entry_written(rm, start, name, type_, data, dl, hs);
    lemma_entry_written_holds(rm, start, name, type_, data, hs);
    lemma_entry_written_frame(rm, start, name, type_, data, dl, hs);
    let min = align_up_opt(25, a)->0;
    lemma_align_up_ge(25, a);
    let fe = align_up_opt(co + dl, a)->0;
    lemma_align_up_ge(co + dl, a);
    let r2 = slot_filled(rm, e, co, hs, name, type_, data, align).1;
    if e.entry_end > fe && e.entry_end - fe >= min {
        lemma_holds_file_null(r2a, start, name, type_, data, fe, (e.entry_end - fe - 25) as u32);
        lemma_entry_written_frame(
            r2a,
            fe,
            Seq::empty(),
            CBFS_TYPE_NULL,
            Seq::empty(),
            (e.entry_end - fe - 25) as u32,
            25,
        );
        lemma_agree_trans(rm, r2a, r2, start, fe);
    }
}

/// What adding a file without a requested offset does, once it succeeds:
/// the name and sizes pass, the merge succeeds, and the file fills the slot
/// the search finds with an aligned header.
proof fn lemma_added_ok(
    rom: Seq<u8>,
    align: u32,
    offset: u32,
    content_offset: Option<u32>,
    name: Seq<u8>,
    type_: u32,
    data: Seq<u8>,
)
    requires
        align > 0,
        added(rom, align, offset, content_offset, name, type_, data).0 is Ok,
    ensures
        ({
            let rm = merged(rom, align as int, Some(offset as int)).1;
            let hs = align_up_opt((name.len() + 25) as int, align as int)->0;
            let found = slot_search(rm, align as int, Some(offset as int), content_offset, hs as u32, data.len() as u32);
            &&& !name.contains(0u8)
            &&& data.len() <= u32::MAX
            &&& hs >= name.len() + 25
            &&& hs <= u32::MAX
            &&& found is Ok
            &&& slot_filled(rm, found->Ok_0.0, found->Ok_0.1, hs as u32, name, type_, data, align).0 is Ok
            &&& added(rom, align, offset, content_offset, name, type_, data).1 == slot_filled(
                rm,
                found->Ok_0.0,
                found->Ok_0.1,
                hs as u32,
                name,
                type_,
                data,
                align,
            ).1
        }),
{
    lemma_align_up_ge((name.len() + 25) as int, align as int);
}

/// A file added without a requested offset is found by name afterwards,
/// with its type and data, when no live entry of the ROM with its free
/// space merged bears that name: the walk meets the entries before the
/// file's slot as it did in the merged ROM, every byte before the file is
/// as it was there, and the walk then meets the file.
pub proof fn lemma_added_file_found(
    rom: Seq<u8>,
    align: u32,
    offset: u32,
    name: Seq<u8>,
    type_: u32,
    data: Seq<u8>,
)
    requires
        align > 0,
        rom.len() <= u32::MAX,
        added(rom, align, offset, None, name, type_, data).0 is Ok,
        type_ != CBFS_TYPE_NULL,
        type_ != CBFS_TYPE_DELETED,
        forall|i: int|
            0 <= i < walk(merged(rom, align as int, Some(offset as int)).1, align as int, Some(offset as int)).0.len()
                ==> !live_named(
                #[trigger] walk(merged(rom, align as int, Some(offset as int)).1, align as int, Some(offset as int)).0[i],
                merged(rom, align as int, Some(offset as int)).1,
                name,
            ),
    ensures
        ({
            let r2 = added(rom, align, offset, None, name, type_, data).1;
            let w = walk(r2, align as int, Some(offset as int));
            find_in(w.0, w.1, r2, name) matches Ok(Some(e)) && e.entry_type == type_ && r2.subrange(
                e.data_start as int,
                e.data_start + e.data_len,
            ) == data
        }),
        ({
            let rm = merged(rom, align as int, Some(offset as int)).1;
            let r2 = added(rom, align, offset, None, name, type_, data).1;
            let w = walk(r2, align as int, Some(offset as int)).0;
            exists|k: int|
                0 <= k < w.len() && #[trigger] w.take(k) == walk(rm, align as int, Some(offset as int)).0.take(k)
                    && agree_below(rm, r2, w[k].entry_start as int) && find_in(
                    w,
                    walk(r2, align as int, Some(offset as int)).1,
                    r2,
                    name,
                ) == Ok::<Option<CbfsEntryInfo>, CbfsError>(Some(w[k]))
        }),
{
    let a = align as int;
    let c = Some(offset as int);
    let rm = merged(rom, a, c).1;
    lemma_merged_len(rom, a, c);
    lemma_added_ok(rom, align, offset, None, name, type_, data);
    let hs = align_up_opt((name.len() + 25) as int, a)->0;
    let dl = data.len() as u32;
    lemma_slot_in_walk(rm, a, c, None, hs as u32, dl);
    let (e, co) = slot_search(rm, a, c, None, hs as u32, dl)->Ok_0;
    let wm = walk(rm, a, c).0;
    let k = choose|k: int|
        0 <= k < wm.len() && wm[k] == e && forall|i: int|
            0 <= i < k ==> (#[trigger] wm[i]).entry_end <= e.entry_start;
    lemma_walk_in_rom(rm, a, c);
    assert(e == wm[k]);
    let start = e.entry_start as int;
    let r2 = added(rom, align, offset, None, name, type_, data).1;
    lemma_slot_filled_at_start(rm, e, co, hs as u32, name, type_, data, align);
    lemma_holds_file_step(r2, start, name, type_, data);
    lemma_walk_frame(rm, r2, a, c, start, k);
    lemma_walk_frame_next(rm, r2, a, c, start, k);
    let e2 = walk(r2, a, c).0[k];
    assert(r2.subrange(e2.name_start as int, e2.name_start + e2.name_len) == name);
    lemma_found_after_frame(rm, r2, a, c, k, name);
    assert(walk(r2, a, c).0.take(k) == wm.take(k));
}

/// Two ROMs of one length that agree from `s` on.
pub open spec fn agree_from(a: Seq<u8>, b: Seq<u8>, s: int) -> bool {
    &&& a.len() == b.len()
    &&& forall|i: int| s <= i < a.len() && 0 <= i ==> a[i] == b[i]
}

proof fn lemma_first_nul_from(a: Seq<u8>, b: Seq<u8>, from: int, to: int, s: int)
    requires
        agree_from(a, b, s),
        s <= from,
        0 <= from,
        to <= a.len(),
    ensures
        first_nul(a, from, to) == first_nul(b, from, to),
    decreases to - from,
{
    if from < to {
        assert(a[from] == b[from]);
        lemma_first_nul_from(a, b, from + 1, to, s);
    }
}

/// The entry at `c` reads alike in ROMs that agree from `c` on.
#[verifier::rlimit(60)]
proof fn lemma_entry_step_from(a: Seq<u8>, b: Seq<u8>, c: int, s: int)
    requires
        agree_from(a, b, s),
        s <= c,
        0 <= c,
    ensures
        entry_step(a, c) == entry_step(b, c),
{
    let n = a.len();
    if n <= u32::MAX && c <= n && n - c >= 24 {
        assert(a.subrange(c, c + 8) =~= b.subrange(c, c + 8));
        assert(a[c + 8] == b[c + 8] && a[c + 9] == b[c + 9] && a[c + 10] == b[c + 10] && a[c + 11] == b[c + 11]);
        assert(a[c + 12] == b[c + 12] && a[c + 13] == b[c + 13] && a[c + 14] == b[c + 14] && a[c + 15] == b[c + 15]);
        assert(a[c + 20] == b[c + 20] && a[c + 21] == b[c + 21] && a[c + 22] == b[c + 22] && a[c + 23] == b[c + 23]);
        let off = be32(a, c + 20);
        if off <= n - c {
            lemma_first_nul_from(a, b, c + 24, c + off, s);
        }
    }
}

/// Walks from `c` on meet the same entries in ROMs that agree from `c` on.
proof fn lemma_walk_from(a: Seq<u8>, b: Seq<u8>, align: int, c: Option<int>, s: int)
    requires
        agree_from(a, b, s),
        c matches Some(x) ==> s <= x,
    ensures
        walk(a, align, c) == walk(b, align, c),
    decreases (match c {
        Some(x) => 0x1_0000_0001 - x,
        None => 0,
    }),
{
    if let Some(x) = c {
        if 0 <= x <= u32::MAX {
            lemma_entry_step_from(a, b, x, s);
            if let CbfsStep::Entry(info) = entry_step(a, x) {
                if let Some(nx) = align_up_opt(info.entry_end as int, align) {
                    if nx > x {
                        lemma_walk_from(a, b, align, Some(nx), s);
                    }
                }
            }
        }
    }
}

/// Runs of free entries from `c` on end alike in ROMs that agree from `c` on.
proof fn lemma_free_run_end_from(a: Seq<u8>, b: Seq<u8>, align: int, c: Option<int>, end: int, s: int)
    requires
        agree_from(a, b, s),
        c matches Some(x) ==> s <= x,
    ensures
        free_run_end(a, align, c, end) == free_run_end(b, align, c, end),
    decreases (match c {
        Some(x) => 0x1_0000_0001 - x,
        None => 0,
    }),
{
    if let Some(x) = c {
        if 0 <= x <= u32::MAX {
            lemma_entry_step_from(a, b, x, s);
            if let CbfsStep::Entry(n) = entry_step(a, x) {
                if let Some(nx) = align_up_opt(n.entry_end as int, align) {
                    if nx > x {
                        lemma_free_run_end_from(a, b, align, Some(nx), n.entry_end as int, s);
                    }
                }
            }
        }
    }
}

/// An entry reads alike in ROMs that agree below the start of its data.
#[verifier::rlimit(60)]
proof fn lemma_entry_step_head(a: Seq<u8>, b: Seq<u8>, c: int, s: int)
    requires
        agree_below(a, b, s),
        0 <= c,
        entry_step(a, c) matches CbfsStep::Entry(info) && info.data_start <= s,
    ensures
        entry_step(b, c) == entry_step(a, c),
{
    lemma_entry_step(a, c);
    assert(a.subrange(c, c + 8) =~= b.subrange(c, c + 8));
    assert(a[c + 8] == b[c + 8] && a[c + 9] == b[c + 9] && a[c + 10] == b[c + 10] && a[c + 11] == b[c + 11]);
    assert(a[c + 12] == b[c + 12] && a[c + 13] == b[c + 13] && a[c + 14] == b[c + 14] && a[c + 15] == b[c + 15]);
    assert(a[c + 20] == b[c + 20] && a[c + 21] == b[c + 21] && a[c + 22] == b[c + 22] && a[c + 23] == b[c + 23]);
    let off = be32(a, c + 20);
    lemma_first_nul_frame(a, b, c + 24, c + off, s);
}

/// Writing `src` at `at` leaves what is below and from its end on.
proof fn lemma_write_at_frames(s: Seq<u8>, at: int, src: Seq<u8>)
    requires
        0 <= at,
        at + src.len() <= s.len(),
    ensures
        agree_below(s, write_at(s, at, src), at),
        agree_from(s, write_at(s, at, src), at + src.len()),
{
}

/// A free entry written at `p` reads as an empty entry spanning `len`
/// bytes of data, and nothing outside its header changes.
#[verifier::rlimit(60)]
proof fn lemma_null_entry_step(r: Seq<u8>, p: int, len: u32)
    requires
        0 <= p,
        p + 25 + len <= r.len(),
        r.len() <= u32::MAX,
    ensures
        ({
            let w = null_entry_written(r, p, len);
            &&& agree_below(r, w, p)
            &&& agree_from(r, w, p + 25)
            &&& entry_step(w, p) == CbfsStep::Entry(
                CbfsEntryInfo {
                    entry_start: p as u32,
                    entry_end: (p + 25 + len) as u32,
                    entry_type: CBFS_TYPE_NULL,
                    data_start: (p + 25) as u32,
                    data_len: len,
                    name_start: (p + 24) as u32,
                    name_len: 0,
                },
            )
        }),
{
    reveal(entry_written);
    let hb = file_header_bytes(len, CBFS_TYPE_NULL, 25);
    assert(hb.len() == 24);
    let r1 = write_at(r, p, hb);
    let r2 = write_at(r1, p + 24, Seq::<u8>::empty());
    let r3 = write_at(r2, p + 24, seq![0u8]);
    let w = write_at(r3, p + 25, Seq::<u8>::empty());
    assert(r2 =~= r1);
    assert(w =~= r3);
    lemma_write_at_frames(r, p, hb);
    lemma_write_at_frames(r1, p + 24, seq![0u8]);
    crate::bytes::lemma_be32_roundtrip(len as int);
    crate::bytes::lemma_be32_roundtrip(CBFS_TYPE_NULL as int);
    crate::bytes::lemma_be32_roundtrip(25);
    assert(w.subrange(p, p + 8) =~= CBFS_FILE_MAGIC@);
    assert(w.subrange(p + 8, p + 12) =~= be32_bytes(len as int));
    assert(w.subrange(p + 12, p + 16) =~= be32_bytes(CBFS_TYPE_NULL as int));
    assert(w.subrange(p + 20, p + 24) =~= be32_bytes(25));
    assert(be32(w, p + 8) == be32(be32_bytes(len as int), 0));
    assert(be32(w, p + 12) == be32(be32_bytes(CBFS_TYPE_NULL as int), 0));
    assert(be32(w, p + 20) == be32(be32_bytes(25), 0));
    assert(w[p + 24] == 0);
    assert(first_nul(w, p + 24, p + 25) == Some(p + 24));
}

/// A run of free entries ends at or after `end`, within the ROM.
proof fn lemma_free_run_end_bound(rom: Seq<u8>, align: int, c: Option<int>, end: int)
    requires
        align > 0,
        end <= rom.len(),
        c matches Some(x) ==> end <= x,
    ensures
        free_run_end(rom, align, c, end) matches Ok(me) ==> end <= me <= rom.len(),
    decreases (match c {
        Some(x) => 0x1_0000_0001 - x,
        None => 0,
    }),
{
    if let Some(x) = c {
        if 0 <= x <= u32::MAX {
            if let CbfsStep::Entry(n) = entry_step(rom, x) {
                lemma_entry_step(rom, x);
                lemma_entry_step_nul(rom, x);
                lemma_align_up_ge(n.entry_end as int, align);
                if let Some(nx) = align_up_opt(n.entry_end as int, align) {
                    if nx > x && is_free_type(n.entry_type) {
                        lemma_free_run_end_bound(rom, align, Some(nx), n.entry_end as int);
                    }
                }
            }
        }
    }
}

/// Merging free space from `c` on changes nothing below `c`.
proof fn lemma_merged_frame(rom: Seq<u8>, align: int, c: Option<int>)
    requires
        align > 0,
        rom.len() <= u32::MAX,
    ensures
        merged(rom, align, c).1.len() == rom.len(),
        c matches Some(x) ==> agree_below(rom, merged(rom, align, c).1, x),
    decreases (match c {
        Some(x) => 0x1_0000_0001 - x,
        None => 0,
    }),
{
    if let Some(x) = c {
        if 0 <= x <= u32::MAX {
            if let CbfsStep::Entry(e) = entry_step(rom, x) {
                lemma_entry_step(rom, x);
                lemma_entry_step_nul(rom, x);
                lemma_walk_progress(rom, align, x);
                lemma_align_up_ge(e.entry_end as int, align);
                if let Some(nx) = align_up_opt(e.entry_end as int, align) {
                    if !is_free_type(e.entry_type) {
                        lemma_merged_frame(rom, align, Some(nx));
                    } else {
                        lemma_free_run_end_bound(rom, align, Some(nx), e.entry_end as int);
                        if let Ok(me) = free_run_end(rom, align, Some(nx), e.entry_end as int) {
                            if me > e.entry_end {
                                let rom2 = null_entry_written(rom, x, (me - x - 25) as u32);
                                lemma_null_entry_step(rom, x, (me - x - 25) as u32);
                                lemma_merged_frame(rom2, align, Some(nx));
                                lemma_agree_trans(rom, rom2, merged(rom2, align, Some(nx)).1, x, nx);
                            } else {
                                lemma_merged_frame(rom, align, Some(nx));
                            }
                        }
                    }
                }
            }
        }
    }
}

/// The search for a live entry named `name` over the walk from `c`.
pub open spec fn find_from(rom: Seq<u8>, align: int, c: Option<int>, name: Seq<u8>) -> Result<
    Option<CbfsEntryInfo>,
    CbfsError,
> {
    find_in(walk(rom, align, c).0, walk(rom, align, c).1, rom, name)
}

/// Two searches give the same answer, and the entry found holds the same
/// bytes in both ROMs.
pub open spec fn same_found(
    r1: Result<Option<CbfsEntryInfo>, CbfsError>,
    a: Seq<u8>,
    r2: Result<Option<CbfsEntryInfo>, CbfsError>,
    b: Seq<u8>,
) -> bool {
    &&& r1 == r2
    &&& r1 matches Ok(Some(e)) ==> a.subrange(e.entry_start as int, e.entry_end as int) == b.subrange(
        e.entry_start as int,
        e.entry_end as int,
    )
}

/// A search from an entry finds that entry if it is live and so named,
/// else goes on after it.
proof fn lemma_find_from_step(r: Seq<u8>, align: int, x: int, name: Seq<u8>)
    requires
        align > 0,
        0 <= x <= u32::MAX,
        entry_step(r, x) is Entry,
    ensures
        ({
            let e = entry_step(r, x)->Entry_0;
            find_from(r, align, Some(x), name) == if live_named(e, r, name) {
                Ok::<Option<CbfsEntryInfo>, CbfsError>(Some(e))
            } else {
                find_from(r, align, align_up_opt(e.entry_end as int, align), name)
            }
        }),
{
    let e = entry_step(r, x)->Entry_0;
    lemma_walk_progress(r, align, x);
    let next = align_up_opt(e.entry_end as int, align);
    let rest = walk(r, align, next);
    let w = walk(r, align, Some(x));
    assert(w.0 == seq![e] + rest.0 && w.1 == rest.1);
    assert(w.0[0] == e);
    assert(w.0.drop_first() =~= rest.0);
}

/// Searches from `c` agree in ROMs that agree from `s <= c` on.
proof fn lemma_find_from_from(a: Seq<u8>, b: Seq<u8>, align: int, c: Option<int>, s: int, name: Seq<u8>)
    requires
        align > 0,
        agree_from(a, b, s),
        c matches Some(x) ==> s <= x,
    ensures
        same_found(find_from(a, align, c, name), a, find_from(b, align, c, name), b),
    decreases (match c {
        Some(x) => 0x1_0000_0001 - x,
        None => 0,
    }),
{
    lemma_walk_from(a, b, align, c, s);
    if let Some(x) = c {
        if 0 <= x <= u32::MAX {
            lemma_entry_step_from(a, b, x, s);
            if let CbfsStep::Entry(e) = entry_step(a, x) {
                lemma_entry_step(a, x);
                lemma_find_from_step(a, align, x, name);
                lemma_find_from_step(b, align, x, name);
                assert(a.subrange(e.name_start as int, e.name_start + e.name_len) =~= b.subrange(
                    e.name_start as int,
                    e.name_start + e.name_len,
                ));
                assert(a.subrange(e.entry_start as int, e.entry_end as int) =~= b.subrange(
                    e.entry_start as int,
                    e.entry_end as int,
                ));
                lemma_walk_progress(a, align, x);
                lemma_find_from_from(a, b, align, align_up_opt(e.entry_end as int, align), s, name);
            }
        }
    }
}

/// A search from inside a run of free entries goes on after the run.
proof fn lemma_run_skip(r: Seq<u8>, align: int, c: Option<int>, end0: int, name: Seq<u8>)
    requires
        align > 0,
        0 <= end0,
        c == align_up_opt(end0, align),
        free_run_end(r, align, c, end0) is Ok,
    ensures
        find_from(r, align, c, name) == find_from(
            r,
            align,
            align_up_opt(free_run_end(r, align, c, end0)->Ok_0, align),
            name,
        ),
    decreases (match c {
        Some(x) => 0x1_0000_0001 - x,
        None => 0,
    }),
{
    if let Some(x) = c {
        lemma_align_up_ge(end0, align);
        if 0 <= x <= u32::MAX {
            if let CbfsStep::Entry(f) = entry_step(r, x) {
                if is_free_type(f.entry_type) {
                    lemma_find_from_step(r, align, x, name);
                    lemma_walk_progress(r, align, x);
                    if let Some(q) = align_up_opt(f.entry_end as int, align) {
                        lemma_entry_step(r, x);
                        lemma_run_skip(r, align, Some(q), f.entry_end as int, name);
                    }
                }
            }
        }
    }
}

/// After merging from a free entry, the entry there is free and spans the
/// whole run of free entries it starts.
proof fn lemma_merged_head(r: Seq<u8>, align: int, p: int)
    requires
        align > 0,
        r.len() <= u32::MAX,
        0 <= p <= u32::MAX,
        entry_step(r, p) matches CbfsStep::Entry(f) && is_free_type(f.entry_type),
        merged(r, align, Some(p)).0 is Ok,
    ensures
        ({
            let f = entry_step(r, p)->Entry_0;
            let q = align_up_opt(f.entry_end as int, align);
            &&& q is Some
            &&& free_run_end(r, align, q, f.entry_end as int) is Ok
            &&& entry_step(merged(r, align, Some(p)).1, p) matches CbfsStep::Entry(g) && is_free_type(
                g.entry_type,
            ) && g.entry_end == free_run_end(r, align, q, f.entry_end as int)->Ok_0
        }),
{
    let f = entry_step(r, p)->Entry_0;
    lemma_entry_step(r, p);
    lemma_entry_step_nul(r, p);
    lemma_walk_progress(r, align, p);
    lemma_align_up_ge(f.entry_end as int, align);
    let q = align_up_opt(f.entry_end as int, align)->0;
    lemma_free_run_end_bound(r, align, Some(q), f.entry_end as int);
    let me = free_run_end(r, align, Some(q), f.entry_end as int)->Ok_0;
    if me > f.entry_end {
        let r2 = null_entry_written(r, p, (me - p - 25) as u32);
        lemma_null_entry_step(r, p, (me - p - 25) as u32);
        lemma_merged_frame(r2, align, Some(q));
        lemma_entry_step_head(r2, merged(r2, align, Some(q)).1, p, q);
    } else {
        lemma_merged_frame(r, align, Some(q));
        lemma_entry_step_frame(r, merged(r, align, Some(q)).1, p, q);
    }
}

/// Merging free space changes no search by name: each finds the same
/// entry, holding the same bytes, or fails alike.
#[verifier::rlimit(80)]
pub proof fn lemma_merged_keeps_files(rom: Seq<u8>, align: int, c: Option<int>, name: Seq<u8>)
    requires
        align > 0,
        rom.len() <= u32::MAX,
        merged(rom, align, c).0 is Ok,
    ensures
        same_found(
            find_from(rom, align, c, name),
            rom,
            find_from(merged(rom, align, c).1, align, c, name),
            merged(rom, align, c).1,
        ),
    decreases (match c {
        Some(x) => 0x1_0000_0001 - x,
        None => 0,
    }),
{
    let m = merged(rom, align, c).1;
    if let Some(x) = c {
        if 0 <= x <= u32::MAX {
            if let CbfsStep::Entry(e) = entry_step(rom, x) {
                lemma_entry_step(rom, x);
                lemma_entry_step_nul(rom, x);
                lemma_walk_progress(rom, align, x);
                lemma_align_up_ge(e.entry_end as int, align);
                lemma_find_from_step(rom, align, x, name);
                if let Some(nx) = align_up_opt(e.entry_end as int, align) {
                    if !is_free_type(e.entry_type) {
                        lemma_merged_frame(rom, align, Some(nx));
                        lemma_entry_step_frame(rom, m, x, nx);
                        lemma_find_from_step(m, align, x, name);
                        assert(rom.subrange(e.name_start as int, e.name_start + e.name_len) =~= m.subrange(
                            e.name_start as int,
                            e.name_start + e.name_len,
                        ));
                        assert(rom.subrange(e.entry_start as int, e.entry_end as int) =~= m.subrange(
                            e.entry_start as int,
                            e.entry_end as int,
                        ));
                        lemma_merged_keeps_files(rom, align, Some(nx), name);
                    } else {
                        lemma_free_run_end_bound(rom, align, Some(nx), e.entry_end as int);
                        let me = free_run_end(rom, align, Some(nx), e.entry_end as int)->Ok_0;
                        lemma_run_skip(rom, align, Some(nx), e.entry_end as int, name);
                        let y = align_up_opt(me, align);
                        lemma_align_up_ge(me, align);
                        if me > e.entry_end {
                            let r2 = null_entry_written(rom, x, (me - x - 25) as u32);
                            lemma_null_entry_step(rom, x, (me - x - 25) as u32);
                            lemma_merged_frame(r2, align, Some(nx));
                            lemma_entry_step_head(r2, m, x, nx);
                            lemma_find_from_step(m, align, x, name);
                            // From `nx` on the run is skipped alike.
                            lemma_entry_step_from(rom, r2, nx, x + 25);
                            let f = entry_step(rom, nx)->Entry_0;
                            lemma_entry_step(rom, nx);
                            lemma_walk_progress(rom, align, nx);
                            lemma_merged_head(r2, align, nx);
                            let q = align_up_opt(f.entry_end as int, align);
                            lemma_free_run_end_from(rom, r2, align, q, f.entry_end as int, x + 25);
                            assert(free_run_end(rom, align, Some(nx), e.entry_end as int) == free_run_end(
                                rom,
                                align,
                                q,
                                f.entry_end as int,
                            ));
                            lemma_find_from_step(m, align, nx, name);
                            lemma_merged_keeps_files(r2, align, Some(nx), name);
                            lemma_find_from_from(rom, r2, align, Some(nx), x + 25, name);
                            lemma_run_skip(rom, align, Some(nx), e.entry_end as int, name);
                        } else {
                            lemma_merged_frame(rom, align, Some(nx));
                            lemma_entry_step_frame(rom, m, x, nx);
                            lemma_find_from_step(m, align, x, name);
                            lemma_merged_keeps_files(rom, align, Some(nx), name);
                        }
                    }
                }
            }
        }
    }
}

/// Whether the entry `e` of `rom` is named `name`, whatever its type.
pub open spec fn entry_named(e: CbfsEntryInfo, rom: Seq<u8>, name: Seq<u8>) -> bool {
    rom.subrange(e.name_start as int, e.name_start + e.name_len) == name
}

/// What deleting `name` gives: the outcome and the ROM, as `delete_file`
/// leaves them when the name is found.
pub open spec fn deleted(rom: Seq<u8>, align: u32, offset: u32, name: Seq<u8>) -> (Result<(), CbfsError>, Seq<u8>) {
    let w = walk(rom, align as int, Some(offset as int));
    match find_name(w.0, w.1, rom, name) {
        Ok(Some(e)) => merged(
            write_at(rom, e.entry_start + 12, seq![0u8, 0u8, 0u8, 0u8]),
            align as int,
            Some(offset as int),
        ),
        _ => (Ok(()), rom),
    }
}

proof fn lemma_find_name_index(es: Seq<CbfsEntryInfo>, bad: bool, rom: Seq<u8>, name: Seq<u8>)
    requires
        find_name(es, bad, rom, name) is Ok,
        find_name(es, bad, rom, name)->Ok_0 is Some,
    ensures
        exists|k: int|
            0 <= k < es.len() && es[k] == find_name(es, bad, rom, name)->Ok_0->0 && entry_named(
                es[k],
                rom,
                name,
            ),
    decreases es.len(),
{
    if !entry_named(es[0], rom, name) {
        lemma_find_name_index(es.drop_first(), bad, rom, name);
        let t = es.drop_first();
        let k = choose|k: int|
            0 <= k < t.len() && t[k] == find_name(t, bad, rom, name)->Ok_0->0 && entry_named(t[k], rom, name);
        assert(es[k + 1] == t[k]);
    } else {
        assert(es[0] == find_name(es, bad, rom, name)->Ok_0->0);
    }
}

proof fn lemma_find_in_none(es: Seq<CbfsEntryInfo>, rom: Seq<u8>, name: Seq<u8>)
    requires
        forall|i: int| 0 <= i < es.len() ==> !entry_named(#[trigger] es[i], rom, name),
    ensures
        find_in(es, false, rom, name) == Ok::<Option<CbfsEntryInfo>, CbfsError>(None),
    decreases es.len(),
{
    if es.len() > 0 {
        assert(!entry_named(es[0], rom, name));
        let t = es.drop_first();
        assert forall|i: int| 0 <= i < t.len() implies !entry_named(#[trigger] t[i], rom, name) by {
            assert(t[i] == es[i + 1]);
        }
        lemma_find_in_none(t, rom, name);
    }
}

/// Marking the entry at `s` deleted changes only its type.
#[verifier::rlimit(60)]
proof fn lemma_mark_step(rom: Seq<u8>, s: int)
    requires
        0 <= s,
        entry_step(rom, s) is Entry,
    ensures
        ({
            let r1 = write_at(rom, s + 12, seq![0u8, 0u8, 0u8, 0u8]);
            &&& agree_below(rom, r1, s + 12)
            &&& agree_from(rom, r1, s + 16)
            &&& entry_step(r1, s) == CbfsStep::Entry(
                CbfsEntryInfo { entry_type: 0, ..entry_step(rom, s)->Entry_0 },
            )
        }),
{
    lemma_entry_step(rom, s);
    let z = seq![0u8, 0u8, 0u8, 0u8];
    let r1 = write_at(rom, s + 12, z);
    lemma_write_at_frames(rom, s + 12, z);
    assert(rom.subrange(s, s + 8) =~= r1.subrange(s, s + 8));
    assert(r1[s + 12] == 0 && r1[s + 13] == 0 && r1[s + 14] == 0 && r1[s + 15] == 0);
    let off = be32(rom, s + 20);
    lemma_first_nul_from(rom, r1, s + 24, s + off, s + 16);
}

/// Searches from the marked entry: it is the only entry named `name` from
/// here on, so the name is no longer found, and other names are found alike.
#[verifier::rlimit(40)]
proof fn lemma_mark_finds_at(rom: Seq<u8>, align: int, s: int, name: Seq<u8>, other: Seq<u8>)
    requires
        align > 0,
        0 <= s,
        0 < walk(rom, align, Some(s)).0.len(),
        !walk(rom, align, Some(s)).1,
        forall|i: int|
            0 < i < walk(rom, align, Some(s)).0.len() ==> !entry_named(
                #[trigger] walk(rom, align, Some(s)).0[i],
                rom,
                name,
            ),
        entry_named(walk(rom, align, Some(s)).0[0], rom, name),
        other != name,
    ensures
        ({
            let r1 = write_at(rom, s + 12, seq![0u8, 0u8, 0u8, 0u8]);
            &&& find_from(r1, align, Some(s), name) == Ok::<Option<CbfsEntryInfo>, CbfsError>(None)
            &&& same_found(find_from(rom, align, Some(s), other), rom, find_from(r1, align, Some(s), other), r1)
        }),
{
    let r1 = write_at(rom, s + 12, seq![0u8, 0u8, 0u8, 0u8]);
    let g = entry_step(rom, s)->Entry_0;
    lemma_entry_step(rom, s);
    lemma_walk_progress(rom, align, s);
    lemma_align_up_ge(g.entry_end as int, align);
    let next = align_up_opt(g.entry_end as int, align);
    let w = walk(rom, align, Some(s)).0;
    let rest = walk(rom, align, next);
    assert(w == seq![g] + rest.0);
    assert(w[0] == g);
    lemma_find_from_step(rom, align, s, other);
    lemma_mark_step(rom, s);
    lemma_find_from_step(r1, align, s, name);
    lemma_find_from_step(r1, align, s, other);
    lemma_find_from_from(rom, r1, align, next, s + 16, name);
    lemma_find_from_from(rom, r1, align, next, s + 16, other);
    assert forall|i: int| 0 <= i < rest.0.len() implies !entry_named(#[trigger] rest.0[i], rom, name) by {
        assert(rest.0[i] == w[i + 1]);
    }
    lemma_find_in_none(rest.0, rom, name);
}

/// Searches before the marked entry, which comes `j`-th from `x`: the
/// first entry named `name` is the marked one and no later entry bears the
/// name, so the name is no longer found, and other names are found alike.
#[verifier::rlimit(40)]
proof fn lemma_mark_finds(
    rom: Seq<u8>,
    align: int,
    x: int,
    j: int,
    s: int,
    name: Seq<u8>,
    other: Seq<u8>,
)
    requires
        align > 0,
        0 <= x,
        0 <= j < walk(rom, align, Some(x)).0.len(),
        walk(rom, align, Some(x)).0[j].entry_start == s,
        !walk(rom, align, Some(x)).1,
        forall|i: int|
            0 <= i < walk(rom, align, Some(x)).0.len() && i != j ==> !entry_named(
                #[trigger] walk(rom, align, Some(x)).0[i],
                rom,
                name,
            ),
        entry_named(walk(rom, align, Some(x)).0[j], rom, name),
        other != name,
    ensures
        ({
            let r1 = write_at(rom, s + 12, seq![0u8, 0u8, 0u8, 0u8]);
            &&& find_from(r1, align, Some(x), name) == Ok::<Option<CbfsEntryInfo>, CbfsError>(None)
            &&& same_found(find_from(rom, align, Some(x), other), rom, find_from(r1, align, Some(x), other), r1)
        }),
    decreases j,
{
    let g = entry_step(rom, x)->Entry_0;
    lemma_entry_step(rom, x);
    if j == 0 {
        assert(x == s);
        lemma_mark_finds_at(rom, align, s, name, other);
    } else {
        let r1 = write_at(rom, s + 12, seq![0u8, 0u8, 0u8, 0u8]);
        lemma_walk_progress(rom, align, x);
        lemma_align_up_ge(g.entry_end as int, align);
        let next = align_up_opt(g.entry_end as int, align);
        let w = walk(rom, align, Some(x)).0;
        let rest = walk(rom, align, next);
        assert(w == seq![g] + rest.0);
        assert(w[0] == g);
        lemma_find_from_step(rom, align, x, name);
        lemma_find_from_step(rom, align, x, other);
        lemma_entry_step_bounds_in_walk(rom, align, Some(x), j);
        assert(w[j] == rest.0[j - 1]);
        lemma_walk_ordered(rom, align, Some(x), 0, j);
        lemma_write_at_frames(rom, s + 12, seq![0u8, 0u8, 0u8, 0u8]);
        lemma_entry_step_frame(rom, r1, x, s);
        lemma_find_from_step(r1, align, x, name);
        lemma_find_from_step(r1, align, x, other);
        assert(rom.subrange(g.name_start as int, g.name_start + g.name_len) =~= r1.subrange(
            g.name_start as int,
            g.name_start + g.name_len,
        ));
        assert(rom.subrange(g.entry_start as int, g.entry_end as int) =~= r1.subrange(
            g.entry_start as int,
            g.entry_end as int,
        ));
        assert forall|i: int|
            0 <= i < rest.0.len() && i != j - 1 implies !entry_named(#[trigger] rest.0[i], rom, name) by {
            assert(rest.0[i] == w[i + 1]);
        }
        lemma_mark_finds(rom, align, next->0, j - 1, s, name, other);
    }
}

/// Entries of a walk come in order: each ends before the next ones start.
proof fn lemma_walk_ordered(rom: Seq<u8>, align: int, c: Option<int>, i: int, k: int)
    requires
        align > 0,
        0 <= i < k < walk(rom, align, c).0.len(),
    ensures
        walk(rom, align, c).0[i].entry_end <= walk(rom, align, c).0[k].entry_start,
    decreases k,
{
    let x = c->0;
    lemma_entry_step(rom, x);
    lemma_walk_progress(rom, align, x);
    let info = entry_step(rom, x)->Entry_0;
    lemma_align_up_ge(info.entry_end as int, align);
    let next = align_up_opt(info.entry_end as int, align);
    let rest = walk(rom, align, next).0;
    assert(walk(rom, align, c).0 == seq![info] + rest);
    lemma_walk_starts(rom, align, next, k - 1);
    if i > 0 {
        lemma_walk_ordered(rom, align, next, i - 1, k - 1);
    }
}

/// Entries of a walk from `c` start at or after `c`.
proof fn lemma_walk_starts(rom: Seq<u8>, align: int, c: Option<int>, k: int)
    requires
        align > 0,
        0 <= k < walk(rom, align, c).0.len(),
    ensures
        walk(rom, align, c).0[k].entry_start >= c->0,
    decreases k,
{
    let x = c->0;
    lemma_entry_step(rom, x);
    lemma_walk_progress(rom, align, x);
    let info = entry_step(rom, x)->Entry_0;
    let next = align_up_opt(info.entry_end as int, align);
    let rest = walk(rom, align, next).0;
    assert(walk(rom, align, c).0 == seq![info] + rest);
    if k > 0 {
        lemma_walk_starts(rom, align, next, k - 1);
    }
}

/// Deleting a file whose name no other entry bears, from a ROM whose walk
/// meets no corrupt entry: when the deletion succeeds, no live file is
/// found by that name afterwards, and a search for any other name finds
/// the same entry, holding the same bytes, as before.
pub proof fn lemma_deleted_file_gone(rom: Seq<u8>, align: u32, offset: u32, name: Seq<u8>, other: Seq<u8>)
    requires
        align > 0,
        rom.len() <= u32::MAX,
        !walk(rom, align as int, Some(offset as int)).1,
        exists|k: int|
            0 <= k < walk(rom, align as int, Some(offset as int)).0.len() && entry_named(
                #[trigger] walk(rom, align as int, Some(offset as int)).0[k],
                rom,
                name,
            ),
        forall|i: int, j: int|
            0 <= i < walk(rom, align as int, Some(offset as int)).0.len() && 0 <= j < walk(
                rom,
                align as int,
                Some(offset as int),
            ).0.len() && entry_named(#[trigger] walk(rom, align as int, Some(offset as int)).0[i], rom, name)
                && entry_named(#[trigger] walk(rom, align as int, Some(offset as int)).0[j], rom, name) ==> i == j,
        deleted(rom, align, offset, name).0 is Ok,
        other != name,
    ensures
        find_from(deleted(rom, align, offset, name).1, align as int, Some(offset as int), name) == Ok::<
            Option<CbfsEntryInfo>,
            CbfsError,
        >(None),
        same_found(
            find_from(rom, align as int, Some(offset as int), other),
            rom,
            find_from(deleted(rom, align, offset, name).1, align as int, Some(offset as int), other),
            deleted(rom, align, offset, name).1,
        ),
{
    let a = align as int;
    let c = Some(offset as int);
    let w = walk(rom, a, c);
    let k0 = choose|k: int| 0 <= k < w.0.len() && entry_named(#[trigger] w.0[k], rom, name);
    lemma_find_name_some(w.0, w.1, rom, name, k0);
    lemma_find_name_index(w.0, w.1, rom, name);
    let e = find_name(w.0, w.1, rom, name)->Ok_0->0;
    let k = choose|k: int| 0 <= k < w.0.len() && w.0[k] == e && entry_named(w.0[k], rom, name);
    let s = e.entry_start as int;
    let r1 = write_at(rom, s + 12, seq![0u8, 0u8, 0u8, 0u8]);
    lemma_entry_step_bounds_in_walk(rom, a, c, k);
    lemma_mark_finds(rom, a, offset as int, k, s, name, other);
    lemma_merged_keeps_files(r1, a, c, name);
    lemma_merged_keeps_files(r1, a, c, other);
}

proof fn lemma_find_name_some(es: Seq<CbfsEntryInfo>, bad: bool, rom: Seq<u8>, name: Seq<u8>, k: int)
    requires
        0 <= k < es.len(),
        entry_named(es[k], rom, name),
    ensures
        find_name(es, bad, rom, name) matches Ok(Some(_)),
    decreases k,
{
    if k > 0 && !entry_named(es[0], rom, name) {
        assert(es.drop_first()[k - 1] == es[k]);
        lemma_find_name_some(es.drop_first(), bad, rom, name, k - 1);
    }
}

/// Searches from `x` reach the walk's `j`-th entry, at `s`, alike in ROMs
/// that agree below `s`: they pass over the entries before it in the same
/// way, so they agree wherever the searches from `s` agree.
#[verifier::rlimit(40)]
proof fn lemma_find_prefix(a: Seq<u8>, b: Seq<u8>, align: int, x: int, j: int, name: Seq<u8>)
    requires
        align > 0,
        0 <= x,
        0 <= j < walk(a, align, Some(x)).0.len(),
        agree_below(a, b, walk(a, align, Some(x)).0[j].entry_start as int),
    ensures
        ({
            let w = walk(a, align, Some(x)).0;
            let s = Some(w[j].entry_start as int);
            &&& (forall|i: int| 0 <= i < j ==> !live_named(#[trigger] w[i], a, name)) ==> (find_from(
                a,
                align,
                Some(x),
                name,
            ) == find_from(a, align, s, name) && find_from(b, align, Some(x), name) == find_from(
                b,
                align,
                s,
                name,
            ))
            &&& same_found(find_from(a, align, s, name), a, find_from(b, align, s, name), b)
                ==> same_found(find_from(a, align, Some(x), name), a, find_from(b, align, Some(x), name), b)
        }),
    decreases j,
{
    let g = entry_step(a, x)->Entry_0;
    lemma_entry_step(a, x);
    let w = walk(a, align, Some(x)).0;
    if j > 0 {
        let s = w[j].entry_start as int;
        lemma_walk_progress(a, align, x);
        lemma_align_up_ge(g.entry_end as int, align);
        let next = align_up_opt(g.entry_end as int, align);
        let rest = walk(a, align, next).0;
        assert(w == seq![g] + rest);
        assert(w[0] == g);
        assert(w[j] == rest[j - 1]);
        lemma_walk_ordered(a, align, Some(x), 0, j);
        lemma_entry_step_frame(a, b, x, s);
        lemma_find_from_step(a, align, x, name);
        lemma_find_from_step(b, align, x, name);
        assert(a.subrange(g.name_start as int, g.name_start + g.name_len) =~= b.subrange(
            g.name_start as int,
            g.name_start + g.name_len,
        ));
        assert(a.subrange(g.entry_start as int, g.entry_end as int) =~= b.subrange(
            g.entry_start as int,
            g.entry_end as int,
        ));
        if forall|i: int| 0 <= i < j ==> !live_named(#[trigger] w[i], a, name) {
            assert forall|i: int| 0 <= i < j - 1 implies !live_named(#[trigger] rest[i], a, name) by {
                assert(rest[i] == w[i + 1]);
            }
        }
        lemma_find_prefix(a, b, align, next->0, j - 1, name);
    }
}

proof fn lemma_align_up_exact(v: int, a: int)
    requires
        a > 0,
        0 <= v <= u32::MAX,
        v % a == 0,
    ensures
        align_up_opt(v, a) == Some(v),
{
    assert((v + a - 1) / a * a == v) by (nonlinear_arith)
        requires
            a > 0,
            v >= 0,
            v % a == 0,
    {
        assert(v == a * (v / a));
        assert((v + a - 1) / a == v / a);
    }
}

/// Rounding up gives the same for any value between `v` and its rounded
/// value.
proof fn lemma_align_up_between(v: int, w: int, a: int)
    requires
        a > 0,
        0 <= v <= w,
        align_up_opt(v, a) matches Some(m) && w <= m,
    ensures
        align_up_opt(w, a) == align_up_opt(v, a),
{
    let m = align_up_opt(v, a)->0;
    let q = (v + a - 1) / a;
    assert((w + a - 1) / a == q) by (nonlinear_arith)
        requires
            a > 0,
            0 <= v <= w,
            w <= q * a,
            q == (v + a - 1) / a,
    {
        assert(q * a <= v + a - 1);
        assert((w + a - 1) / a >= q) by {
            vstd::arithmetic::div_mod::lemma_div_is_ordered(v + a - 1, w + a - 1, a);
        }
        assert((w + a - 1) / a <= q) by {
            vstd::arithmetic::div_mod::lemma_div_is_ordered(w + a - 1, q * a + a - 1, a);
            vstd::arithmetic::div_mod::lemma_fundamental_div_mod_converse(q * a + a - 1, a, q, a - 1);
        }
    }
}

proof fn lemma_agree_from_trans(a: Seq<u8>, b: Seq<u8>, c: Seq<u8>, s: int, t: int)
    requires
        agree_from(a, b, s),
        agree_from(b, c, t),
        s <= t,
    ensures
        agree_from(a, c, t),
{
}

proof fn lemma_entry_written_from(
    rom: Seq<u8>,
    start: int,
    name: Seq<u8>,
    type_: u32,
    data: Seq<u8>,
    data_len: u32,
    data_offset: u32,
)
    requires
        0 <= start,
        24 + name.len() + 1 <= data_offset,
        start + data_offset + data.len() <= rom.len(),
    ensures
        agree_from(
            rom,
            entry_written(rom, start, name, type_, data, data_len, data_offset),
            start + data_offset + data.len(),
        ),
{
    reveal(entry_written);
    let hb = file_header_bytes(data_len, type_, data_offset);
    assert(hb.len() == 24);
    let r1 = write_at(rom, start, hb);
    let r2 = write_at(r1, start + 24, name);
    let r3 = write_at(r2, start + 24 + name.len(), seq![0u8]);
    lemma_write_at_frames(rom, start, hb);
    lemma_write_at_frames(r1, start + 24, name);
    lemma_write_at_frames(r2, start + 24 + name.len(), seq![0u8]);
    lemma_write_at_frames(r3, start + data_offset, data);
}

proof fn lemma_find_in_none_all(es: Seq<CbfsEntryInfo>, bad: bool, rom: Seq<u8>, name: Seq<u8>)
    requires
        find_in(es, bad, rom, name) == Ok::<Option<CbfsEntryInfo>, CbfsError>(None),
    ensures
        forall|i: int| 0 <= i < es.len() ==> !live_named(#[trigger] es[i], rom, name),
    decreases es.len(),
{
    if es.len() > 0 {
        let t = es.drop_first();
        lemma_find_in_none_all(t, bad, rom, name);
        assert forall|i: int| 0 <= i < es.len() implies !live_named(#[trigger] es[i], rom, name) by {
            if i > 0 {
                assert(es[i] == t[i - 1]);
            }
        }
    }
}

/// Whether placing a file in the slot its search finds leaves, before and
/// after it, either no space or room for a free entry.
pub open spec fn placement_leaves_no_stub(
    rom: Seq<u8>,
    align: u32,
    offset: u32,
    content_offset: Option<u32>,
    name: Seq<u8>,
    data: Seq<u8>,
) -> bool {
    let rm = merged(rom, align as int, Some(offset as int)).1;
    let hs = align_up_opt((name.len() + 25) as int, align as int)->0;
    match slot_search(rm, align as int, Some(offset as int), content_offset, hs as u32, data.len() as u32) {
        Ok((e, co)) => {
            let nes = ((co - hs) as u32) & !((align - 1) as u32);
            let min = align_up_opt(25, align as int)->0;
            let fe = align_up_opt(co + data.len(), align as int)->0;
            &&& !(nes > e.entry_start && nes - e.entry_start < min)
            &&& !(e.entry_end > fe && e.entry_end - fe < min)
        },
        Err(_) => true,
    }
}

/// Where the header of a file placed with its data at `co` starts, before
/// it is moved up to the slot's start.
spec fn slot_nes(co: u32, hs: u32, align: u32) -> u32 {
    ((co - hs) as u32) & !((align - 1) as u32)
}

/// The ROM with the free space before the file split off, where there is
/// some.
spec fn lead_rom(rm: Seq<u8>, st: int, nes: int) -> Seq<u8> {
    if nes > st {
        null_entry_written(rm, st, (nes - st - 25) as u32)
    } else {
        rm
    }
}

/// Where the file's header goes.
spec fn file_start(st: int, nes: int) -> int {
    if nes > st {
        nes
    } else {
        st
    }
}

/// The ROM once the file is written, before the free space after it.
spec fn file_rom(rm: Seq<u8>, e: CbfsEntryInfo, co: u32, hs: u32, name: Seq<u8>, type_: u32, data: Seq<u8>, align: u32) -> Seq<u8> {
    let st = e.entry_start as int;
    let nes = slot_nes(co, hs, align) as int;
    let h = file_start(st, nes);
    entry_written(lead_rom(rm, st, nes), h, name, type_, data, data.len() as u32, (co - h) as u32)
}

/// Facts about the slot's layout: the header starts aligned, and the file
/// fills the slot as `slot_filled` says.
proof fn lemma_slot_shape(
    rm: Seq<u8>,
    e: CbfsEntryInfo,
    co: u32,
    hs: u32,
    name: Seq<u8>,
    type_: u32,
    data: Seq<u8>,
    align: u32,
)
    requires
        is_pow2(align),
        co >= e.entry_start + hs,
        slot_filled(rm, e, co, hs, name, type_, data, align).0 is Ok,
        !(slot_nes(co, hs, align) > e.entry_start && slot_nes(co, hs, align) - e.entry_start < align_up_opt(
            25,
            align as int,
        )->0),
    ensures
        align_up_opt(25, align as int) is Some,
        slot_nes(co, hs, align) <= co - hs,
        (slot_nes(co, hs, align) as int) % (align as int) == 0,
        align_up_opt(co + data.len(), align as int) is Some,
        ({
            let fe = align_up_opt(co + data.len(), align as int)->0;
            let big_e = e.entry_end as int;
            let r2a = file_rom(rm, e, co, hs, name, type_, data, align);
            slot_filled(rm, e, co, hs, name, type_, data, align).1 == if big_e > fe && big_e - fe >= align_up_opt(
                25,
                align as int,
            )->0 {
                null_entry_written(r2a, fe, (big_e - fe - 25) as u32)
            } else {
                r2a
            }
        }),
{
    let x: u32 = (co - hs) as u32;
    let m: u32 = (align - 1) as u32;
    assert(x & !m <= x) by (bit_vector);
    assert(align != 0 && align & m == 0 ==> (x & !m) % align == 0) by (bit_vector)
        requires
            m == align - 1,
    ;
}

/// What filling the slot wrote: nothing below the slot or after it, the
/// file at its header's start, and free entries before and after it where
/// there was room.
#[verifier::rlimit(60)]
proof fn lemma_slot_writes(
    rm: Seq<u8>,
    e: CbfsEntryInfo,
    co: u32,
    hs: u32,
    name: Seq<u8>,
    type_: u32,
    data: Seq<u8>,
    align: u32,
    r2: Seq<u8>,
)
    requires
        is_pow2(align),
        rm.len() <= u32::MAX,
        e.entry_start + 25 <= co,
        co >= e.entry_start + hs,
        co + data.len() <= e.entry_end <= rm.len(),
        hs >= name.len() + 25,
        align_up_opt(25, align as int) is Some,
        slot_nes(co, hs, align) <= co - hs,
        !(slot_nes(co, hs, align) > e.entry_start && slot_nes(co, hs, align) - e.entry_start < align_up_opt(
            25,
            align as int,
        )->0),
        align_up_opt(co + data.len(), align as int) is Some,
        ({
            let fe = align_up_opt(co + data.len(), align as int)->0;
            let big_e = e.entry_end as int;
            let r2a = file_rom(rm, e, co, hs, name, type_, data, align);
            r2 == if big_e > fe && big_e - fe >= align_up_opt(25, align as int)->0 {
                null_entry_written(r2a, fe, (big_e - fe - 25) as u32)
            } else {
                r2a
            }
        }),
    ensures
        ({
            let st = e.entry_start as int;
            let nes = slot_nes(co, hs, align) as int;
            let h = file_start(st, nes);
            let fe = align_up_opt(co + data.len(), align as int)->0;
            let big_e = e.entry_end as int;
            &&& agree_below(rm, r2, st)
            &&& agree_from(rm, r2, big_e)
            &&& holds_file(r2, h, name, type_, data)
            &&& be32(r2, h + 20) == co - h
            &&& nes > st ==> entry_step(r2, st) == CbfsStep::Entry(
                CbfsEntryInfo {
                    entry_start: st as u32,
                    entry_end: nes as u32,
                    entry_type: CBFS_TYPE_NULL,
                    data_start: (st + 25) as u32,
                    data_len: (nes - st - 25) as u32,
                    name_start: (st + 24) as u32,
                    name_len: 0,
                },
            )
            &&& (big_e > fe && big_e - fe >= align_up_opt(25, align as int)->0) ==> entry_step(r2, fe)
                == CbfsStep::Entry(
                CbfsEntryInfo {
                    entry_start: fe as u32,
                    entry_end: big_e as u32,
                    entry_type: CBFS_TYPE_NULL,
                    data_start: (fe + 25) as u32,
                    data_len: (big_e - fe - 25) as u32,
                    name_start: (fe + 24) as u32,
                    name_len: 0,
                },
            )
        }),
{
    let a = align as int;
    let st = e.entry_start as int;
    let big_e = e.entry_end as int;
    let dl = data.len() as u32;
    let nes = slot_nes(co, hs, align) as int;
    let min = align_up_opt(25, a)->0;
    lemma_align_up_ge(25, a);
    let fe = align_up_opt(co + dl, a)->0;
    lemma_align_up_ge(co + dl, a);
    let r1 = lead_rom(rm, st, nes);
    let h = file_start(st, nes);
    let doff = (co - h) as u32;
    let r2a = file_rom(rm, e, co, hs, name, type_, data, align);
    let trail = big_e > fe && big_e - fe >= min;
    if nes > st {
        lemma_null_entry_step(rm, st, (nes - st - 25) as u32);
    }
    assert(agree_below(rm, r1, st) && agree_from(rm, r1, st + 25));
    lemma_entry_written_frame(r1, h, name, type_, data, dl, doff);
    lemma_entry_written_from(r1, h, name, type_, data, dl, doff);
    lemma_entry_written_holds(r1, h, name, type_, data, doff);
    if trail {
        lemma_null_entry_step(r2a, fe, (big_e - fe - 25) as u32);
        lemma_holds_file_null(r2a, h, name, type_, data, fe, (big_e - fe - 25) as u32);
    }
    assert(agree_below(r2a, r2, fe));
    assert(agree_from(r2a, r2, big_e));
    lemma_agree_from_trans(rm, r1, r2a, st + 25, co + dl);
    lemma_agree_from_trans(rm, r2a, r2, co + dl, big_e);
    if nes > st {
        assert(agree_below(r1, r2, nes));
        lemma_entry_step_head(r1, r2, st, nes);
    }
}

/// Within the slot: searches from the slot's start find the new file by
/// its name, and find any other name as the searches of the ROM before did.
#[verifier::rlimit(60)]
proof fn lemma_slot_region(
    rm: Seq<u8>,
    e: CbfsEntryInfo,
    co: u32,
    hs: u32,
    name: Seq<u8>,
    type_: u32,
    data: Seq<u8>,
    align: u32,
    other: Seq<u8>,
)
    requires
        is_pow2(align),
        rm.len() <= u32::MAX,
        entry_step(rm, e.entry_start as int) == CbfsStep::Entry(e),
        e.entry_type == CBFS_TYPE_NULL,
        co >= e.entry_start + hs,
        co + data.len() <= e.entry_end <= rm.len(),
        hs >= name.len() + 25,
        !name.contains(0u8),
        type_ != CBFS_TYPE_NULL,
        type_ != CBFS_TYPE_DELETED,
        other != name,
        slot_filled(rm, e, co, hs, name, type_, data, align).0 is Ok,
        !(slot_nes(co, hs, align) > e.entry_start && slot_nes(co, hs, align) - e.entry_start < align_up_opt(
            25,
            align as int,
        )->0),
        ({
            let fe = align_up_opt(co + data.len(), align as int)->0;
            !(e.entry_end > fe && e.entry_end - fe < align_up_opt(25, align as int)->0)
        }),
    ensures
        ({
            let r2 = slot_filled(rm, e, co, hs, name, type_, data, align).1;
            let s = Some(e.entry_start as int);
            &&& agree_below(rm, r2, e.entry_start as int)
            &&& same_found(find_from(rm, align as int, s, other), rm, find_from(r2, align as int, s, other), r2)
            &&& find_from(r2, align as int, s, name) matches Ok(Some(f)) && f.entry_type == type_
                && f.data_start == co && r2.subrange(f.data_start as int, f.data_start + f.data_len) == data
        }),
{
    let a = align as int;
    let st = e.entry_start as int;
    let big_e = e.entry_end as int;
    let dl = data.len() as u32;
    lemma_entry_step(rm, st);
    lemma_slot_shape(rm, e, co, hs, name, type_, data, align);
    let r2 = slot_filled(rm, e, co, hs, name, type_, data, align).1;
    lemma_slot_writes(rm, e, co, hs, name, type_, data, align, r2);
    let nes = slot_nes(co, hs, align) as int;
    let h = file_start(st, nes);
    let min = align_up_opt(25, a)->0;
    lemma_align_up_ge(25, a);
    let fe = align_up_opt(co + dl, a)->0;
    lemma_align_up_ge(co + dl, a);
    let trail = big_e > fe && big_e - fe >= min;
    // The file.
    lemma_holds_file_step(r2, h, name, type_, data);
    let f = entry_step(r2, h)->Entry_0;
    assert(r2.subrange(f.name_start as int, f.name_start + f.name_len) =~= r2.subrange(h + 24, h + 24 + name.len()));
    assert(live_named(f, r2, name));
    lemma_find_from_step(r2, a, h, name);
    lemma_find_from_step(r2, a, h, other);
    // Before the file.
    lemma_find_from_step(rm, a, st, other);
    if nes > st {
        lemma_find_from_step(r2, a, st, name);
        lemma_find_from_step(r2, a, st, other);
        lemma_align_up_exact(nes, a);
    }
    // After the file.
    let y = align_up_opt(big_e, a);
    lemma_align_up_ge(big_e, a);
    if trail {
        lemma_find_from_step(r2, a, fe, other);
    } else {
        lemma_align_up_between(co + dl, big_e, a);
    }
    lemma_find_from_from(rm, r2, a, y, big_e, other);
}

/// A file added to a ROM in which no live file bears its name is found by
/// that name afterwards, with its type and its data (starting at the
/// requested offset when one was given), and every other name is found
/// as before, as the same entry holding the same bytes. This holds when the
/// placement leaves, before and after the file, either no space or room
/// for a free entry.
#[verifier::rlimit(60)]
pub proof fn lemma_added_file_kept_others(
    rom: Seq<u8>,
    align: u32,
    offset: u32,
    content_offset: Option<u32>,
    name: Seq<u8>,
    type_: u32,
    data: Seq<u8>,
    other: Seq<u8>,
)
    requires
        is_pow2(align),
        rom.len() <= u32::MAX,
        added(rom, align, offset, content_offset, name, type_, data).0 is Ok,
        type_ != CBFS_TYPE_NULL,
        type_ != CBFS_TYPE_DELETED,
        find_from(rom, align as int, Some(offset as int), name) == Ok::<Option<CbfsEntryInfo>, CbfsError>(None),
        placement_leaves_no_stub(rom, align, offset, content_offset, name, data),
        other != name,
    ensures
        ({
            let r2 = added(rom, align, offset, content_offset, name, type_, data).1;
            find_from(r2, align as int, Some(offset as int), name) matches Ok(Some(f)) && f.entry_type
                == type_ && r2.subrange(f.data_start as int, f.data_start + f.data_len) == data && (
            content_offset matches Some(k) ==> f.data_start == k)
        }),
        same_found(
            find_from(rom, align as int, Some(offset as int), other),
            rom,
            find_from(added(rom, align, offset, content_offset, name, type_, data).1, align as int, Some(offset as int), other),
            added(rom, align, offset, content_offset, name, type_, data).1,
        ),
{
    let a = align as int;
    let c = Some(offset as int);
    let rm = merged(rom, a, c).1;
    lemma_merged_frame(rom, a, c);
    lemma_added_ok(rom, align, offset, content_offset, name, type_, data);
    lemma_merged_keeps_files(rom, a, c, name);
    lemma_merged_keeps_files(rom, a, c, other);
    let hs = align_up_opt((name.len() + 25) as int, a)->0;
    let dl = data.len() as u32;
    lemma_slot_in_walk(rm, a, c, content_offset, hs as u32, dl);
    let (e, co) = slot_search(rm, a, c, content_offset, hs as u32, dl)->Ok_0;
    let wm = walk(rm, a, c).0;
    let k = choose|k: int|
        0 <= k < wm.len() && wm[k] == e && forall|i: int|
            0 <= i < k ==> (#[trigger] wm[i]).entry_end <= e.entry_start;
    lemma_entry_step_bounds_in_walk(rm, a, c, k);
    let r2 = added(rom, align, offset, content_offset, name, type_, data).1;
    lemma_slot_region(rm, e, co, hs as u32, name, type_, data, align, other);
    lemma_find_in_none_all(wm, walk(rm, a, c).1, rm, name);
    lemma_find_prefix(rm, r2, a, offset as int, k, name);
    lemma_find_prefix(rm, r2, a, offset as int, k, other);
}

} // verus!
