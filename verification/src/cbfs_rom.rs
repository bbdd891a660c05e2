//! A read-only CBFS parser for a ROM mapped in memory, whose master header
//! is found through the absolute address stored in the last four bytes.
use vstd::prelude::*;
use vstd::utf8::valid_utf8;
use vstd::string::StringSliceAdditionalSpecFns;
use crate::bytes::{be32, bytes_eq, le32, read_be32, read_le32};
use crate::cbfs::{
    first_nul, lemma_first_nul, CbfsHeader, CBFS_FILE_MAGIC, CBFS_HEADER_MAGIC,
    CBFS_TYPE_DELETED, CBFS_TYPE_NULL,
};
use crate::chid::utf8_str;

verus! {

/// The alignment of entries in the ROM.
pub const CBFS_ALIGNMENT: usize = 64;

/// The size of an entry header.
pub const CBFS_FILE_HEADER_SIZE: usize = 24;

/// `v` rounded up to a multiple of the alignment.
pub open spec fn align64(v: int) -> int {
    (v + 63) / 64 * 64
}

/// Aligns a value up to the CBFS alignment.
pub fn cbfs_align_up(value: usize) -> (r: usize)
    requires
        value + 63 <= usize::MAX,
    ensures
        r == align64(value as int),
{
    let x: usize = value + 63;
    let r = x & !63usize;
    assert(x & !63usize == x - x % 64) by (bit_vector);
    r
}

/// The size of an entry header with the name `name`, its NUL and the
/// padding up to the alignment.
pub fn cbfs_file_header_total_size(name: &str) -> (r: usize)
    requires
        name.spec_bytes().len() + 88 <= usize::MAX,
    ensures
        r == align64(name.spec_bytes().len() + 25int),
{
    cbfs_align_up(CBFS_FILE_HEADER_SIZE + name.len() + 1)
}

/// The entries offset and the bootblock size of the image in `rom` mapped at
/// `rom_base`, when its master header is found and valid.
pub open spec fn rom_header(rom: Seq<u8>, rom_base: u32) -> Option<(int, int)> {
    if rom.len() < 4 {
        None
    } else {
        let off = le32(rom, rom.len() - 4) - rom_base;
        if off < 0 || off + 32 > rom.len() || be32(rom, off) != CBFS_HEADER_MAGIC || be32(
            rom,
            off + 12,
        ) > rom.len() {
            None
        } else {
            Some((be32(rom, off + 20), be32(rom, off + 12)))
        }
    }
}

/// Where a file met by the walk lies in the ROM.
pub struct RomFile {
    pub name_start: int,
    pub name_len: int,
    pub data_start: int,
    pub data_len: int,
    pub type_: u32,
}

/// What the walk meets at `cursor`, with entries ending at `end`.
pub enum RomStep {
    /// The walk ends.
    End,
    /// An empty entry, skipped.
    Null { next: int },
    /// A file.
    File { file: RomFile, next: int },
    /// An entry that the walk cannot handle: an empty entry of no size, or a
    /// file whose data starts inside its own header.
    Fault,
}

/// The entry at `cursor`.
pub open spec fn rom_step(rom: Seq<u8>, end: int, cursor: int) -> RomStep {
    if cursor + 24 > end || rom.subrange(cursor, cursor + 8) != CBFS_FILE_MAGIC@ {
        RomStep::End
    } else {
        let type_ = be32(rom, cursor + 12) as u32;
        let off = be32(rom, cursor + 20);
        let len = be32(rom, cursor + 8);
        if type_ == CBFS_TYPE_DELETED || cursor + off + len > end {
            RomStep::End
        } else if type_ == CBFS_TYPE_NULL {
            if off + len == 0 {
                RomStep::Fault
            } else {
                RomStep::Null { next: cursor + align64(off + len) }
            }
        } else if off < 24 {
            RomStep::Fault
        } else {
            let name_end = match first_nul(rom, cursor + 24, cursor + off) {
                Some(z) => z,
                None => cursor + off,
            };
            RomStep::File {
                file: RomFile {
                    name_start: cursor + 24,
                    name_len: name_end - (cursor + 24),
                    data_start: cursor + off,
                    data_len: len,
                    type_,
                },
                next: cursor + align64(off + len),
            }
        }
    }
}

/// The distance from `cursor` to `end`, or zero past it.
pub open spec fn gap(end: int, cursor: int) -> nat {
    if cursor < end {
        (end - cursor) as nat
    } else {
        0
    }
}

/// The files met walking from `cursor`, and whether the walk meets an entry
/// it cannot handle.
pub open spec fn rom_walk(rom: Seq<u8>, end: int, cursor: int) -> (Seq<RomFile>, bool)
    decreases gap(end, cursor),
{
    match rom_step(rom, end, cursor) {
        RomStep::End => (Seq::empty(), false),
        RomStep::Fault => (Seq::empty(), true),
        RomStep::Null { next } => if cursor < end && next > cursor {
            rom_walk(rom, end, next)
        } else {
            (Seq::empty(), true)
        },
        RomStep::File { file, next } => if cursor < end && next > cursor {
            let rest = rom_walk(rom, end, next);
            (seq![file] + rest.0, rest.1)
        } else {
            (Seq::empty(), true)
        },
    }
}

/// The name bytes that a file reports: its name when it is valid UTF-8,
/// else the empty name.
pub open spec fn rom_name(rom: Seq<u8>, e: RomFile) -> Seq<u8> {
    let b = rom.subrange(e.name_start, e.name_start + e.name_len);
    if valid_utf8(b) {
        b
    } else {
        Seq::empty()
    }
}

/// A file found in a CBFS image.
pub struct CbfsFile<'a> {
    pub name: &'a str,
    pub data: &'a [u8],
    pub type_: u32,
}

/// `f` is the file `e` of `rom`.
pub open spec fn rom_file_is(f: CbfsFile, e: RomFile, rom: Seq<u8>) -> bool {
    &&& f.name.spec_bytes() == rom_name(rom, e)
    &&& f.data@ == rom.subrange(e.data_start, e.data_start + e.data_len)
    &&& f.type_ == e.type_
}

/// A parsed CBFS image backed by a ROM mapped in memory.
pub struct Cbfs<'a> {
    rom: &'a [u8],
    entries_offset: usize,
    bootblock_size: usize,
}

/// The file met next from `cursor`, or the next cursor past an empty entry.
fn rom_next<'a>(rom: &'a [u8], end: usize, cursor: usize) -> (r: Option<
    (Option<CbfsFile<'a>>, usize),
>)
    requires
        end <= rom@.len(),
        rom@.len() + 64 <= usize::MAX,
        !(rom_step(rom@, end as int, cursor as int) is Fault),
    ensures
        match rom_step(rom@, end as int, cursor as int) {
            RomStep::End => r is None,
            RomStep::Null { next } => r matches Some((None, n)) && n == next,
            RomStep::File { file, next } => r matches Some((Some(f), n)) && n == next
                && rom_file_is(f, file, rom@),
            RomStep::Fault => false,
        },
{
    if cursor > end || end - cursor < 24 {
        return None;
    }
    let magic_ok = bytes_eq(&rom[cursor..cursor + 8], &CBFS_FILE_MAGIC);
    if !magic_ok {
        return None;
    }
    let type_ = read_be32(rom, cursor + 12);
    let data_offset = read_be32(rom, cursor + 20) as usize;
    let data_len = read_be32(rom, cursor + 8) as usize;
    if type_ == CBFS_TYPE_DELETED || data_offset > end - cursor || data_len > end - cursor
        - data_offset {
        return None;
    }
    let size = cbfs_align_up(data_offset + data_len);
    let next = cursor + size;
    if type_ == CBFS_TYPE_NULL {
        return Some((None, next));
    }
    let ns = cursor + 24;
    let ne = cursor + data_offset;
    let mut z = ns;
    while z < ne && rom[z] != 0
        invariant
            ns <= z <= ne <= end <= rom@.len(),
            first_nul(rom@, ns as int, ne as int) == first_nul(rom@, z as int, ne as int),
        decreases ne - z,
    {
        z += 1;
    }
    proof {
        lemma_first_nul(rom@, z as int, ne as int);
    }
    let name = match utf8_str(&rom[ns..z]) {
        Some(s) => s,
        None => {
            proof {
                reveal_strlit("");
            }
            ""
        },
    };
    let ds = cursor + data_offset;
    Some((Some(CbfsFile { name, data: &rom[ds..ds + data_len], type_ }), next))
}

impl<'a> Cbfs<'a> {
    /// The ROM.
    pub closed spec fn rom(&self) -> Seq<u8> {
        self.rom@
    }

    /// The entries offset and the bootblock size.
    pub closed spec fn layout(&self) -> (int, int) {
        (self.entries_offset as int, self.bootblock_size as int)
    }

    /// The files of the image, and whether the walk over them meets an
    /// entry it cannot handle.
    pub open spec fn walk(&self) -> (Seq<RomFile>, bool) {
        rom_walk(self.rom(), self.rom().len() - self.layout().1, self.layout().0)
    }

    /// Parses a CBFS image from a ROM mapped at the absolute address
    /// `rom_base`: the last four bytes of the ROM hold the absolute address
    /// of the master header.
    pub fn parse(rom: &'a [u8], rom_base: u32) -> (r: Option<Self>)
        ensures
            r is Some <==> rom_header(rom@, rom_base) is Some,
            r matches Some(c) ==> c.rom() == rom@ && c.layout() == rom_header(
                rom@,
                rom_base,
            )->0 && c.layout().1 <= rom@.len(),
    {
        let n = rom.len();
        if n < 4 {
            return None;
        }
        let addr = read_le32(rom, n - 4);
        if addr < rom_base {
            return None;
        }
        let off = (addr - rom_base) as usize;
        if n < 32 || off > n - 32 {
            return None;
        }
        let h = CbfsHeader::read(rom, off);
        if h.magic != CBFS_HEADER_MAGIC {
            return None;
        }
        let bootblock_size = h.bootblocksize as usize;
        if bootblock_size > n {
            return None;
        }
        Some(Cbfs { rom, entries_offset: h.offset as usize, bootblock_size })
    }

    /// The bootblock size.
    pub fn bootblock_size(&self) -> (r: usize)
        ensures
            r == self.layout().1,
    {
        self.bootblock_size
    }

    /// `f`, handed the file `e` of the image, may give `b`.
    pub open spec fn file_seen<F: FnMut(&CbfsFile<'a>) -> bool>(&self, f: F, e: RomFile, b: bool) -> bool {
        exists|x: CbfsFile<'a>| rom_file_is(x, e, self.rom()) && #[trigger] f.ensures((&x,), b)
    }

    /// A walk over the files with `f` that ended after `k` files: each file
    /// before the `k`-th was handed to `f`, which asked to go on; then either
    /// no file was left, or the `k`-th was handed to `f`, which asked to stop.
    pub open spec fn files_walk_ends<F: FnMut(&CbfsFile<'a>) -> bool>(&self, f: F, k: int) -> bool {
        let files = self.walk().0;
        &&& 0 <= k <= files.len()
        &&& forall|i: int| 0 <= i < k ==> self.file_seen(f, #[trigger] files[i], true)
        &&& k < files.len() ==> self.file_seen(f, files[k], false)
    }

    /// Calls `f` on each file of the image in turn, until `f` returns
    /// `false` or no file follows.
    pub fn for_each_file<F: FnMut(&CbfsFile<'a>) -> bool>(&self, f: F)
        requires
            self.layout().1 <= self.rom().len(),
            self.rom().len() + 64 <= usize::MAX,
            !self.walk().1,
            forall|x: &CbfsFile<'a>, g: F| #[trigger] g.requires((x,)),
        ensures
            exists|k: int| #[trigger] self.files_walk_ends(f, k),
    {
        let mut visit = f;
        let end = self.rom.len() - self.bootblock_size;
        let mut cursor = self.entries_offset;
        let ghost all = self.walk().0;
        let ghost mut seen: Seq<RomFile> = Seq::empty();
        loop
            invariant
                end == self.rom@.len() - self.bootblock_size,
                end <= self.rom@.len(),
                self.rom@.len() + 64 <= usize::MAX,
                !rom_walk(self.rom@, end as int, cursor as int).1,
                forall|x: &CbfsFile<'a>, g: F| #[trigger] g.requires((x,)),
                visit == f,
                all == self.walk().0,
                all == seen + rom_walk(self.rom@, end as int, cursor as int).0,
                forall|i: int| 0 <= i < seen.len() ==> self.file_seen(f, #[trigger] all[i], true),
            decreases gap(end as int, cursor as int),
        {
            let ghost here = rom_walk(self.rom@, end as int, cursor as int);
            match rom_next(self.rom, end, cursor) {
                None => {
                    proof {
                        assert(all == seen);
                        assert(self.files_walk_ends(f, seen.len() as int));
                    }
                    return;
                },
                Some((file, next)) => {
                    match file {
                        Some(file) => {
                            let ghost e = here.0[0];
                            let go = visit(&file);
                            proof {
                                assert(all[seen.len() as int] == e);
                                assert(visit.ensures((&file,), go));
                                assert(self.file_seen(f, e, go));
                            }
                            if !go {
                                proof {
                                    assert(self.files_walk_ends(f, seen.len() as int));
                                }
                                return;
                            }
                            proof {
                                seen = seen.push(e);
                                assert(all == seen + rom_walk(self.rom@, end as int, next as int).0);
                            }
                        },
                        None => {},
                    }
                    assert(cursor < end && next > cursor);
                    cursor = next;
                },
            }
        }
    }

    /// The first file named `name`.
    pub fn find_file(&self, name: &str) -> (r: Option<CbfsFile<'a>>)
        requires
            self.layout().1 <= self.rom().len(),
            self.rom().len() + 64 <= usize::MAX,
            !self.walk().1,
        ensures
            match r {
                None => forall|i: int|
                    0 <= i < self.walk().0.len() ==> rom_name(self.rom(), #[trigger] self.walk().0[i])
                        != name.spec_bytes(),
                Some(f) => exists|i: int|
                    0 <= i < self.walk().0.len() && rom_file_is(f, #[trigger] self.walk().0[i], self.rom())
                        && rom_name(self.rom(), self.walk().0[i]) == name.spec_bytes() && forall|
                        j: int,
                    |
                        0 <= j < i ==> rom_name(self.rom(), #[trigger] self.walk().0[j])
                            != name.spec_bytes(),
            },
    {
        let end = self.rom.len() - self.bootblock_size;
        let mut cursor = self.entries_offset;
        let ghost all = self.walk().0;
        let ghost mut seen: Seq<RomFile> = Seq::empty();
        let want = name.as_bytes();
        loop
            invariant
                end == self.rom@.len() - self.bootblock_size,
                end <= self.rom@.len(),
                self.rom@.len() + 64 <= usize::MAX,
                !rom_walk(self.rom@, end as int, cursor as int).1,
                all == self.walk().0,
                all == seen + rom_walk(self.rom@, end as int, cursor as int).0,
                want@ == name.spec_bytes(),
                forall|j: int| 0 <= j < seen.len() ==> rom_name(self.rom@, #[trigger] seen[j]) != want@,
            decreases gap(end as int, cursor as int),
        {
            let ghost here = rom_walk(self.rom@, end as int, cursor as int);
            match rom_next(self.rom, end, cursor) {
                None => {
                    assert(all == seen);
                    return None;
                },
                Some((file, next)) => {
                    match file {
                        Some(file) => {
                            let ghost e = here.0[0];
                            if bytes_eq(file.name.as_bytes(), want) {
                                assert(all[seen.len() as int] == e);
                                return Some(file);
                            }
                            proof {
                                seen = seen.push(e);
                                assert(all == seen + rom_walk(self.rom@, end as int, next as int).0);
                            }
                        },
                        None => {},
                    }
                    cursor = next;
                },
            }
        }
    }
}

} // verus!
