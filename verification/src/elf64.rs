//! Little-endian ELF64 images: the entry point and the program headers.
use vstd::prelude::*;
use crate::bytes::{le16, le32, le64, read_le16, read_le32, read_le64};

verus! {

/// Program header type of a loadable segment.
pub const PT_LOAD: u32 = 1;

/// Size of the ELF64 file header.
pub const ELF64_HEADER_SIZE: usize = 64;

/// Size of an ELF64 program header.
pub const ELF64_PHDR_SIZE: usize = 56;

/// A program header.
#[derive(Debug, Clone, Copy)]
pub struct Elf64Phdr {
    pub p_type: u32,
    pub p_flags: u32,
    pub p_offset: u64,
    pub p_vaddr: u64,
    pub p_paddr: u64,
    pub p_filesz: u64,
    pub p_memsz: u64,
    pub p_align: u64,
}

/// `h` is the program header stored at `off` of `d`.
pub open spec fn phdr_at(h: Elf64Phdr, d: Seq<u8>, off: int) -> bool {
    &&& h.p_type == le32(d, off)
    &&& h.p_flags == le32(d, off + 4)
    &&& h.p_offset == le64(d, off + 8)
    &&& h.p_vaddr == le64(d, off + 16)
    &&& h.p_paddr == le64(d, off + 24)
    &&& h.p_filesz == le64(d, off + 32)
    &&& h.p_memsz == le64(d, off + 40)
    &&& h.p_align == le64(d, off + 48)
}

/// A result with its error message as text.
pub open spec fn message_result(r: Result<(), &str>) -> Result<(), Seq<char>> {
    match r {
        Ok(()) => Ok(()),
        Err(e) => Err(e@),
    }
}

/// A parsed ELF64 image.
#[derive(Debug)]
pub struct Elf64<'a> {
    data: &'a [u8],
    entry: u64,
    phoff: usize,
    phentsize: usize,
    phnum: usize,
}

/// What parsing `d` checks, in order: the error message of the first check
/// that fails, if any.
pub open spec fn elf_check(d: Seq<u8>) -> Option<Seq<char>> {
    if d.len() < 64 {
        Some("ELF header too small"@)
    } else if d[0] != 0x7f || d[1] != 0x45 || d[2] != 0x4c || d[3] != 0x46 {
        Some("bad ELF magic"@)
    } else if d[4] != 2 {
        Some("not ELF64"@)
    } else if d[5] != 1 {
        Some("not little-endian"@)
    } else if le16(d, 54) < 56 {
        Some("phentsize too small"@)
    } else {
        None
    }
}

impl<'a> Elf64<'a> {
    /// The image's bytes.
    pub closed spec fn data(&self) -> Seq<u8> {
        self.data@
    }

    /// The entry point.
    pub closed spec fn entry_spec(&self) -> u64 {
        self.entry
    }

    /// The offset of the program header table.
    pub closed spec fn phoff(&self) -> int {
        self.phoff as int
    }

    /// The size of a program header table entry.
    pub closed spec fn phentsize(&self) -> int {
        self.phentsize as int
    }

    /// The number of program headers.
    pub closed spec fn phnum(&self) -> int {
        self.phnum as int
    }

    /// Parses the header of a little-endian ELF64 image.
    pub fn parse(data: &'a [u8]) -> (r: Result<Self, &'static str>)
        requires
            elf_check(data@) is None ==> le64(data@, 32) <= usize::MAX,
        ensures
            match elf_check(data@) {
                Some(msg) => r matches Err(e) && e@ == msg,
                None => r matches Ok(elf) && elf.data() == data@ && elf.entry_spec() == le64(
                    data@,
                    24,
                ) && elf.phoff() == le64(data@, 32) && elf.phentsize() == le16(data@, 54)
                    && elf.phnum() == le16(data@, 56),
            },
    {
        if data.len() < ELF64_HEADER_SIZE {
            return Err("ELF header too small");
        }
        if data[0] != 0x7f || data[1] != 0x45 || data[2] != 0x4c || data[3] != 0x46 {
            return Err("bad ELF magic");
        }
        if data[4] != 2 {
            return Err("not ELF64");
        }
        if data[5] != 1 {
            return Err("not little-endian");
        }
        let phentsize = read_le16(data, 54) as usize;
        if phentsize < ELF64_PHDR_SIZE {
            return Err("phentsize too small");
        }
        Ok(
            Elf64 {
                data,
                entry: read_le64(data, 24),
                phoff: read_le64(data, 32) as usize,
                phentsize,
                phnum: read_le16(data, 56) as usize,
            },
        )
    }

    /// The entry point.
    pub fn entry(&self) -> (e: u64)
        ensures
            e == self.entry_spec(),
    {
        self.entry
    }

    /// The error reading program header `i` gives, if any.
    pub open spec fn phdr_error(&self, i: int) -> Option<Seq<char>> {
        let off = self.phoff() + i * self.phentsize();
        if off > self.data().len() {
            Some("phdr out of bounds"@)
        } else if self.data().len() - off < 56 {
            Some("phdr parse error"@)
        } else {
            None
        }
    }

    /// Program header `i`.
    pub fn nth_phdr(&self, i: usize) -> (r: Result<Elf64Phdr, &'static str>)
        requires
            i < self.phnum(),
            self.phoff() + self.phnum() * self.phentsize() <= usize::MAX,
        ensures
            match self.phdr_error(i as int) {
                Some(msg) => r matches Err(e) && e@ == msg,
                None => r matches Ok(h) && phdr_at(
                    h,
                    self.data(),
                    self.phoff() + i * self.phentsize(),
                ),
            },
    {
        proof {
            assert(i * self.phentsize <= self.phnum * self.phentsize) by (nonlinear_arith)
                requires
                    i < self.phnum,
            ;
        }
        let off = self.phoff + i * self.phentsize;
        if off > self.data.len() {
            return Err("phdr out of bounds");
        }
        if self.data.len() - off < ELF64_PHDR_SIZE {
            return Err("phdr parse error");
        }
        let d = self.data;
        Ok(
            Elf64Phdr {
                p_type: read_le32(d, off),
                p_flags: read_le32(d, off + 4),
                p_offset: read_le64(d, off + 8),
                p_vaddr: read_le64(d, off + 16),
                p_paddr: read_le64(d, off + 24),
                p_filesz: read_le64(d, off + 32),
                p_memsz: read_le64(d, off + 40),
                p_align: read_le64(d, off + 48),
            },
        )
    }

    /// `f`, handed the program header `i`, may give `b`.
    pub open spec fn phdr_seen<F: FnMut(&Elf64Phdr) -> bool>(&self, f: F, i: int, b: bool) -> bool {
        exists|h: Elf64Phdr|
            phdr_at(h, self.data(), self.phoff() + i * self.phentsize()) && #[trigger] f.ensures(
                (&h,),
                b,
            )
    }

    /// A walk over the program headers with `f` that ended at header `k`
    /// with `r`: each header before `k` was read and handed to `f`, which
    /// asked to go on; then either all headers were seen and the walk
    /// succeeded, or header `k` could not be read and its error came back, or
    /// it was handed to `f`, which asked to stop, and the walk succeeded.
    pub open spec fn phdr_walk_ends<F: FnMut(&Elf64Phdr) -> bool>(
        &self,
        f: F,
        k: int,
        r: Result<(), Seq<char>>,
    ) -> bool {
        &&& 0 <= k <= self.phnum()
        &&& forall|i: int|
            0 <= i < k ==> #[trigger] self.phdr_error(i) is None && self.phdr_seen(f, i, true)
        &&& if k == self.phnum() {
            r is Ok
        } else {
            match self.phdr_error(k) {
                Some(m) => r == Err::<(), Seq<char>>(m),
                None => self.phdr_seen(f, k, false) && r is Ok,
            }
        }
    }

    /// Calls `f` on each program header in order until it returns false;
    /// an error for a header outside the image.
    pub fn for_each_phdr<F: FnMut(&Elf64Phdr) -> bool>(&self, f: F) -> (r: Result<(), &'static str>)
        requires
            self.phoff() + self.phnum() * self.phentsize() <= usize::MAX,
            forall|h: &Elf64Phdr, g: F| #[trigger] g.requires((h,)),
        ensures
            exists|k: int|
                #[trigger] self.phdr_walk_ends(
                    f,
                    k,
                    message_result(r),
                ),
    {
        let mut visit = f;
        let mut i: usize = 0;
        while i < self.phnum
            invariant
                self.phoff() + self.phnum() * self.phentsize() <= usize::MAX,
                forall|h: &Elf64Phdr, g: F| #[trigger] g.requires((h,)),
                i <= self.phnum,
                visit == f,
                forall|j: int|
                    0 <= j < i ==> #[trigger] self.phdr_error(j) is None && self.phdr_seen(f, j, true),
            decreases self.phnum - i,
        {
            let phdr = match self.nth_phdr(i) {
                Ok(h) => h,
                Err(e) => {
                    proof {
                        let rr: Result<(), &'static str> = Err(e);
                        assert(message_result(rr) == Err::<(), Seq<char>>(e@));
                        assert(self.phdr_walk_ends(f, i as int, message_result(rr)));
                    }
                    return Err(e);
                },
            };
            let go = visit(&phdr);
            proof {
                assert(visit.ensures((&phdr,), go));
                assert(self.phdr_seen(f, i as int, go));
            }
            if !go {
                proof {
                    let rr: Result<(), &'static str> = Ok(());
                    assert(self.phdr_walk_ends(f, i as int, message_result(rr)));
                }
                return Ok(());
            }
            i += 1;
        }
        proof {
            assert(self.phdr_walk_ends(f, i as int, Ok::<(), Seq<char>>(())));
        }
        Ok(())
    }

    /// The bytes of a segment in the file.
    pub fn segment_data(&self, phdr: &Elf64Phdr) -> (r: Result<&'a [u8], &'static str>)
        requires
            phdr.p_offset + phdr.p_filesz <= usize::MAX,
        ensures
            phdr.p_offset + phdr.p_filesz <= self.data().len() ==> (r matches Ok(s) && s@
                == self.data().subrange(
                phdr.p_offset as int,
                phdr.p_offset + phdr.p_filesz,
            )),
            phdr.p_offset + phdr.p_filesz > self.data().len() ==> (r matches Err(e) && e@
                == "segment data out of bounds"@),
    {
        let n = self.data.len() as u64;
        if phdr.p_offset > n || phdr.p_filesz > n - phdr.p_offset {
            return Err("segment data out of bounds");
        }
        let off = phdr.p_offset as usize;
        let len = phdr.p_filesz as usize;
        Ok(&self.data[off..off + len])
    }
}

} // verus!
