//! Building and listing CBFS flash images: size and file arguments, the
//! image layout with its bootblock, and the listing of an image's files.
use vstd::prelude::*;
use crate::bytes::{be32, push_zeros};
use crate::cbfs::{
    cbfs_error_text, CbfsError, CBFS_TYPE_DELETED, CBFS_TYPE_NULL, create_check, created_rom, create_failure, added, holds_file, CbfsReader, CbfsWriter, CBFS_DEFAULT_ALIGNMENT,
    CBFS_TYPE_BOOTBLOCK, CBFS_TYPE_RAW,
};
use crate::kversion::{parse_u32, parse_u32_spec};
use crate::text::{
    chars_of, dec, hex, pad_left, push_chars, push_dec, push_hex, push_str, string_from_chars,
    string_of_range, trim, trim_range,
};
use crate::chid::utf8_str;
use vstd::utf8::{decode_utf8, encode_utf8, encode_utf8_decode_utf8, valid_utf8};

verus! {

/// The number and the multiplier of a size: a trailing `K`, `M` or `G`
/// (after which white space is trimmed again) multiplies by 2^10, 2^20 or
/// 2^30.
pub open spec fn size_parts(t: Seq<char>) -> (Seq<char>, int) {
    if t.len() > 0 && t.last() == 'K' {
        (trim(t.drop_last()), 1024)
    } else if t.len() > 0 && t.last() == 'M' {
        (trim(t.drop_last()), 1048576)
    } else if t.len() > 0 && t.last() == 'G' {
        (trim(t.drop_last()), 1073741824)
    } else {
        (t, 1)
    }
}

/// A ROM size: a `u32` with an optional suffix, at least 4 once multiplied;
/// else the message naming the number part.
pub open spec fn parse_size_spec(s: Seq<char>) -> Result<u32, Seq<char>> {
    let (body, mul) = size_parts(trim(s));
    match parse_u32_spec(body) {
        Some(x) => if x * mul <= u32::MAX && x * mul >= 4 {
            Ok((x * mul) as u32)
        } else {
            Err("Invalid size "@ + body)
        },
        None => Err("Invalid size "@ + body),
    }
}

/// Parses a ROM size, supporting the suffixes `K`, `M` and `G`, of at
/// least 4 bytes.
pub fn parse_size(s: &str) -> (r: Result<u32, String>)
    ensures
        match parse_size_spec(s@) {
            Ok(x) => r == Ok::<u32, String>(x),
            Err(m) => r matches Err(e) && e@ == m,
        },
{
    let v = chars_of(s);
    let (a, b) = trim_range(v.as_slice(), 0, v.len());
    proof {
        assert(v@.subrange(0, v@.len() as int) =~= s@);
    }
    let ghost t = v@.subrange(a as int, b as int);
    let mut mul: u32 = 1;
    if b > a {
        let last = v[b - 1];
        if last == 'K' {
            mul = 1024;
        } else if last == 'M' {
            mul = 1048576;
        } else if last == 'G' {
            mul = 1073741824;
        }
    }
    let (a2, b2) = if mul != 1 {
        proof {
            assert(t.drop_last() =~= v@.subrange(a as int, b - 1));
        }
        trim_range(v.as_slice(), a, b - 1)
    } else {
        (a, b)
    };
    proof {
        assert(size_parts(t).0 == v@.subrange(a2 as int, b2 as int));
        assert(size_parts(t).1 == mul as int);
    }
    let parsed = parse_u32(v.as_slice(), a2, b2);
    let value = match parsed {
        Some(x) => x.checked_mul(mul),
        None => None,
    };
    match value {
        Some(x) => {
            if x >= 4 {
                return Ok(x);
            }
        },
        None => {},
    }
    let mut msg = chars_of("Invalid size ");
    let body = string_of_range(v.as_slice(), a2, b2);
    push_str(&mut msg, body.as_str());
    Err(string_from_chars(msg.as_slice()))
}

/// What `str::escape_debug` gives for `s`.
pub uninterp spec fn escape_debug_text(s: Seq<char>) -> Seq<char>;

/// Escapes a string with `str::escape_debug`: control characters,
/// quotes (single and double) and backslashes become escape sequences.
///
/// Trusted: collects `str::escape_debug`, whose output depends on `s` alone
/// (the escaping rules of std's `char::escape_debug`).
#[verifier::external_body]
fn escape_debug(s: &str) -> (r: String)
    ensures
        r@ == escape_debug_text(s@),
{
    s.escape_debug().to_string()
}

/// The index of the first `=` in `s`.
pub open spec fn first_eq_from(s: Seq<char>, i: int) -> Option<int>
    decreases s.len() - i,
{
    if i < 0 || i >= s.len() {
        None
    } else if s[i] == '=' {
        Some(i)
    } else {
        first_eq_from(s, i + 1)
    }
}

/// A file argument `name=path`: the name must be non-empty and hold no NUL.
pub open spec fn parse_file_arg_spec(s: Seq<char>) -> Result<(Seq<char>, Seq<char>), Seq<char>> {
    match first_eq_from(s, 0) {
        None => Err("expected name=path"@),
        Some(i) => {
            let name = s.subrange(0, i);
            let path = s.subrange(i + 1, s.len() as int);
            if name.len() == 0 {
                Err("file name must not be empty"@)
            } else if name.contains('\0') {
                Err(
                    "file name '"@ + escape_debug_text(name)
                        + "' contains NUL; CBFS names are NUL-terminated on flash"@,
                )
            } else {
                Ok((name, path))
            }
        },
    }
}

/// Parses a file argument `name=path`.
pub fn parse_file_arg(s: &str) -> (r: Result<(String, String), String>)
    ensures
        match parse_file_arg_spec(s@) {
            Ok((n, p)) => r matches Ok((rn, rp)) && rn@ == n && rp@ == p,
            Err(m) => r matches Err(e) && e@ == m,
        },
{
    let v = chars_of(s);
    let mut i: usize = 0;
    while i < v.len() && v[i] != '='
        invariant
            i <= v@.len(),
            v@ == s@,
            first_eq_from(s@, 0) == first_eq_from(s@, i as int),
        decreases v@.len() - i,
    {
        i += 1;
    }
    if i == v.len() {
        return Err(String::from_str("expected name=path"));
    }
    if i == 0 {
        return Err(String::from_str("file name must not be empty"));
    }
    let mut k: usize = 0;
    while k < i && v[k] != '\0'
        invariant
            k <= i < v@.len(),
            forall|j: int| 0 <= j < k ==> v@[j] != '\0',
        decreases i - k,
    {
        k += 1;
    }
    let name = string_of_range(v.as_slice(), 0, i);
    if k < i {
        proof {
            assert(name@[k as int] == '\0');
        }
        let mut msg = chars_of("file name '");
        let esc = escape_debug(name.as_str());
        push_str(&mut msg, esc.as_str());
        push_str(&mut msg, "' contains NUL; CBFS names are NUL-terminated on flash");
        return Err(string_from_chars(msg.as_slice()));
    }
    proof {
        assert(!name@.contains('\0'));
    }
    let path = string_of_range(v.as_slice(), i + 1, v.len());
    Ok((name, path))
}

/// The bytes of the name `bootblock`.
pub open spec fn bootblock_name() -> Seq<u8> {
    seq![0x62u8, 0x6f, 0x6f, 0x74, 0x62, 0x6c, 0x6f, 0x63, 0x6b]
}

/// The outcome and the ROM after adding the first `k` of `files` in order,
/// each as a raw file wherever it first fits: the index and error of the
/// first that could not be added, with the ROM as that attempt left it.
pub open spec fn files_added(
    rom: Seq<u8>,
    align: u32,
    offset: u32,
    files: Seq<(String, Vec<u8>)>,
    k: nat,
) -> (Result<(), (int, CbfsError)>, Seq<u8>)
    decreases k,
{
    if k == 0 {
        (Ok(()), rom)
    } else {
        let p = files_added(rom, align, offset, files, (k - 1) as nat);
        match p.0 {
            Err(x) => p,
            Ok(()) => {
                let a = added(
                    p.1,
                    align,
                    offset,
                    None,
                    encode_utf8(files[k - 1].0@),
                    CBFS_TYPE_RAW,
                    files[k - 1].1@,
                );
                match a.0 {
                    Ok(()) => (Ok(()), a.1),
                    Err(e) => (Err(((k - 1) as int, e)), a.1),
                }
            },
        }
    }
}

/// The outcome and the ROM after adding `files`, then the bootblock without
/// its last four bytes as the file `bootblock` whose data ends four bytes
/// before the end of the ROM; the message of the first step that failed.
pub open spec fn image_filled(
    rom: Seq<u8>,
    align: u32,
    offset: u32,
    files: Seq<(String, Vec<u8>)>,
    bootblock: Seq<u8>,
) -> (Result<(), Seq<char>>, Seq<u8>) {
    let p = files_added(rom, align, offset, files, files.len());
    match p.0 {
        Err((i, e)) => (
            Err("failed to add file '"@ + files[i].0@ + "': "@ + cbfs_error_text(e)),
            p.1,
        ),
        Ok(()) => if bootblock.len() < 4 {
            (Err("bootblock must be at least 4 bytes"@), p.1)
        } else {
            let a = added(
                p.1,
                align,
                offset,
                Some((rom.len() - bootblock.len()) as u32),
                bootblock_name(),
                CBFS_TYPE_BOOTBLOCK,
                bootblock.subrange(0, bootblock.len() - 4),
            );
            match a.0 {
                Ok(()) => (Ok(()), a.1),
                Err(e) => (Err("failed to add bootblock: "@ + cbfs_error_text(e)), a.1),
            }
        },
    }
}

/// Once adding a file failed, adding more leaves outcome and ROM as they were.
proof fn lemma_files_added_stuck(
    rom: Seq<u8>,
    align: u32,
    offset: u32,
    files: Seq<(String, Vec<u8>)>,
    k: nat,
    k2: nat,
)
    requires
        files_added(rom, align, offset, files, k).0 is Err,
        k <= k2,
    ensures
        files_added(rom, align, offset, files, k2) == files_added(rom, align, offset, files, k),
    decreases k2,
{
    if k2 > k {
        lemma_files_added_stuck(rom, align, offset, files, k, (k2 - 1) as nat);
    }
}

/// Adds the files, then the bootblock at the top of the ROM.
fn add_files(writer: &mut CbfsWriter, files: &[(String, Vec<u8>)], bootblock: &[u8], rom_size: u32) -> (r: Result<(), String>)
    requires
        old(writer).wf(),
        old(writer).rom().len() == rom_size,
        bootblock@.len() <= rom_size,
    ensures
        final(final(writer).rom)@ == final(old(writer).rom)@,
        final(writer).rom().len() == rom_size,
        r is Ok ==> bootblock@.len() >= 4 && exists|h: int|
            #[trigger] holds_file(
                final(writer).rom(),
                h,
                bootblock_name(),
                CBFS_TYPE_BOOTBLOCK,
                bootblock@.subrange(0, bootblock@.len() - 4),
            ) && h + be32(final(writer).rom(), h + 20) == rom_size - bootblock@.len(),
        ({
            let t = image_filled(
                old(writer).rom(),
                old(writer).align(),
                old(writer).offset(),
                files@,
                bootblock@,
            );
            &&& final(writer).rom() == t.1
            &&& match t.0 {
                Ok(()) => r is Ok,
                Err(m) => r matches Err(x) && x@ == m,
            }
        }),
{
    let bb_name: [u8; 9] = [0x62, 0x6f, 0x6f, 0x74, 0x62, 0x6c, 0x6f, 0x63, 0x6b];
        let mut i: usize = 0;
    while i < files.len()
        invariant
            final(writer.rom)@ == final(old(writer).rom)@,
            writer.wf(),
            writer.rom().len() == rom_size,
            i <= files@.len(),
            writer.align() == old(writer).align(),
            writer.offset() == old(writer).offset(),
            files_added(old(writer).rom(), writer.align(), writer.offset(), files@, i as nat) == (
            Ok::<(), (int, CbfsError)>(()), writer.rom()),
        decreases files@.len() - i,
    {
        let (name, data) = &files[i];
        proof {
            assert(files@[i as int].0 == *name);
            assert(files@[i as int].1 == *data);
        }
        match writer.add_file(None, name.as_str().as_bytes(), CBFS_TYPE_RAW, data.as_slice()) {
            Ok(()) => {},
            Err(e) => {
                proof {
                    lemma_files_added_stuck(
                        old(writer).rom(),
                        writer.align(),
                        writer.offset(),
                        files@,
                        (i + 1) as nat,
                        files@.len(),
                    );
                }
                let mut msg = chars_of("failed to add file '");
                push_str(&mut msg, name.as_str());
                push_str(&mut msg, "': ");
                let t = e.to_string();
                push_str(&mut msg, t.as_str());
                let m = string_from_chars(msg.as_slice());
                proof {
                    assert(files@[i as int].0 == *name);
                    assert(m@ =~= "failed to add file '"@ + files@[i as int].0@ + "': "@
                        + cbfs_error_text(e));
                }
                return Err(m);
            },
        }
        i += 1;
    }
    if bootblock.len() < 4 {
        return Err(String::from_str("bootblock must be at least 4 bytes"));
    }
    let trimmed = &bootblock[0..bootblock.len() - 4];
    let offset = rom_size - bootblock.len() as u32;
    proof {
        assert(bb_name@ =~= bootblock_name());
    }
    match writer.add_file(Some(offset), &bb_name, CBFS_TYPE_BOOTBLOCK, trimmed) {
        Ok(()) => {},
        Err(e) => {
            let mut msg = chars_of("failed to add bootblock: ");
            let t = e.to_string();
            push_str(&mut msg, t.as_str());
            return Err(string_from_chars(msg.as_slice()));
        },
    }
    Ok(())
}

fn too_large_message(len: usize, rom_size: u32) -> (m: String)
    ensures
        m@ == "bootblock ("@ + dec(len as nat) + " bytes) exceeds ROM size ("@ + dec(rom_size as nat)
            + " bytes)"@,
{
    let mut msg = chars_of("bootblock (");
    push_dec(&mut msg, len as u64);
    push_str(&mut msg, " bytes) exceeds ROM size (");
    push_dec(&mut msg, rom_size as u64);
    push_str(&mut msg, " bytes)");
    string_from_chars(msg.as_slice())
}

fn create_failed_message(e: CbfsError) -> (m: String)
    ensures
        m@ == "failed to create CBFS image: "@ + cbfs_error_text(e),
{
    let mut msg = chars_of("failed to create CBFS image: ");
    let t = e.to_string();
    push_str(&mut msg, t.as_str());
    string_from_chars(msg.as_slice())
}

/// Builds a CBFS image of `rom_size` bytes mapped just below 4 GiB: the
/// files in order, then the bootblock at the top of the ROM with its last
/// four bytes left to the header pointer.
#[verifier::rlimit(60)]
pub fn create_image(rom_size: u32, bootblock: &[u8], files: &[(String, Vec<u8>)]) -> (r: Result<
    Vec<u8>,
    String,
>)
    ensures
        bootblock@.len() > rom_size ==> (r matches Err(m) && m@ == "bootblock ("@ + dec(
            bootblock@.len(),
        ) + " bytes) exceeds ROM size ("@ + dec(rom_size as nat) + " bytes)"@),
        bootblock@.len() <= rom_size ==> match create_check(
            rom_size as int,
            0u32.wrapping_sub(rom_size),
            CBFS_DEFAULT_ALIGNMENT,
        ) {
            Err(e) => r matches Err(m) && m@ == "failed to create CBFS image: "@ + cbfs_error_text(
                e,
            ),
            Ok(()) => match created_rom(
                rom_size as int,
                0u32.wrapping_sub(rom_size),
                CBFS_DEFAULT_ALIGNMENT,
            ) {
                None => r matches Err(m) && m@ == "failed to create CBFS image: "@
                    + cbfs_error_text(create_failure(rom_size as int, 0u32.wrapping_sub(rom_size))),
                Some(image) => {
                    let t = image_filled(image, CBFS_DEFAULT_ALIGNMENT, 0, files@, bootblock@);
                    match t.0 {
                        Ok(()) => r matches Ok(rom) && rom@ == t.1,
                        Err(m) => r matches Err(x) && x@ == m,
                    }
                },
            },
        },
        r matches Ok(rom) ==> rom@.len() == rom_size && bootblock@.len() >= 4 && exists|h: int|
            #[trigger] holds_file(
                rom@,
                h,
                bootblock_name(),
                CBFS_TYPE_BOOTBLOCK,
                bootblock@.subrange(0, bootblock@.len() - 4),
            ) && h + be32(rom@, h + 20) == rom_size - bootblock@.len(),
{
    if bootblock.len() > rom_size as usize {
        return Err(too_large_message(bootblock.len(), rom_size));
    }
    let rom_base: u32 = 0u32.wrapping_sub(rom_size);
    let mut rom: Vec<u8> = Vec::new();
    push_zeros(&mut rom, rom_size as usize);
    let outcome = match CbfsWriter::create(rom.as_mut_slice(), rom_base, CBFS_DEFAULT_ALIGNMENT) {
        Ok(mut writer) => add_files(&mut writer, files, bootblock, rom_size),
        Err(e) => Err(create_failed_message(e)),
    };
    match outcome {
        Ok(()) => Ok(rom),
        Err(m) => Err(m),
    }
}

/// `s` padded with spaces on the right to `width` characters.
pub open spec fn pad_right(s: Seq<char>, width: nat) -> Seq<char> {
    if s.len() >= width {
        s
    } else {
        s + Seq::new((width - s.len()) as nat, |_i: int| ' ')
    }
}

/// Appends `s` padded with spaces on the right to `width` characters.
fn push_padded_right(out: &mut Vec<char>, s: &[char], width: usize)
    ensures
        final(out)@ == old(out)@ + pad_right(s@, width as nat),
{
    push_chars(out, s);
    let mut k = s.len();
    while k < width
        invariant
            s@.len() <= k <= width || (k == s@.len() && k >= width),
            out@ == old(out)@ + s@ + Seq::new((k - s@.len()) as nat, |_i: int| ' '),
        decreases width - k,
    {
        out.push(' ');
        k += 1;
        assert(out@ =~= old(out)@ + s@ + Seq::new((k - s@.len()) as nat, |_i: int| ' '));
    }
    assert(out@ =~= old(out)@ + pad_right(s@, width as nat));
}

/// Appends `s` padded with spaces on the left to `width` characters.
fn push_padded_left(out: &mut Vec<char>, s: &[char], width: usize)
    ensures
        final(out)@ == old(out)@ + pad_left(s@, width as nat, ' '),
{
    let mut k = s.len();
    while k < width
        invariant
            s@.len() <= k <= width || (k == s@.len() && k >= width),
            out@ == old(out)@ + Seq::new((k - s@.len()) as nat, |_i: int| ' '),
        decreases width - k,
    {
        out.push(' ');
        k += 1;
        assert(out@ =~= old(out)@ + Seq::new((k - s@.len()) as nat, |_i: int| ' '));
    }
    push_chars(out, s);
    assert(out@ =~= old(out)@ + pad_left(s@, width as nat, ' '));
}

/// The name of a file type in a listing.
pub open spec fn file_type_label(t: u32) -> Seq<char> {
    if t == CBFS_TYPE_NULL {
        "(empty)"@
    } else if t == CBFS_TYPE_BOOTBLOCK {
        "bootblock"@
    } else if t == CBFS_TYPE_RAW {
        "raw"@
    } else if t == CBFS_TYPE_DELETED {
        "deleted"@
    } else {
        "unknown"@
    }
}

/// The listing line of a file: its name (`???` where not UTF-8), data
/// offset, size and type, in columns.
#[verifier::opaque]
pub open spec fn row_text(name: Seq<u8>, offset: u32, size: nat, t: u32) -> Seq<char> {
    let n = if valid_utf8(name) {
        decode_utf8(name)
    } else {
        "???"@
    };
    pad_right(n, 40) + " 0x"@ + hex(offset as nat, 8) + " "@ + pad_left(dec(size), 10, ' ') + " "@
        + pad_left(file_type_label(t), 10, ' ')
}

/// The listing line of a file.
pub fn list_row(name: &[u8], offset: u32, size: usize, type_: u32) -> (r: String)
    ensures
        r@ == row_text(name@, offset, size as nat, type_),
{
    let text = match utf8_str(name) {
        Some(t) => {
            proof {
                encode_utf8_decode_utf8(t@);
            }
            chars_of(t)
        },
        None => chars_of("???"),
    };
    let mut out: Vec<char> = Vec::new();
    push_padded_right(&mut out, text.as_slice(), 40);
    push_str(&mut out, " 0x");
    push_hex(&mut out, offset as u64, 8);
    push_str(&mut out, " ");
    let mut d: Vec<char> = Vec::new();
    push_dec(&mut d, size as u64);
    push_padded_left(&mut out, d.as_slice(), 10);
    push_str(&mut out, " ");
    let tn = if type_ == CBFS_TYPE_NULL {
        chars_of("(empty)")
    } else if type_ == CBFS_TYPE_BOOTBLOCK {
        chars_of("bootblock")
    } else if type_ == CBFS_TYPE_RAW {
        chars_of("raw")
    } else if type_ == CBFS_TYPE_DELETED {
        chars_of("deleted")
    } else {
        chars_of("unknown")
    };
    push_padded_left(&mut out, tn.as_slice(), 10);
    proof {
        reveal(row_text);
        assert(out@ =~= row_text(name@, offset, size as nat, type_));
    }
    string_from_chars(out.as_slice())
}

/// The heading line of a listing.
pub open spec fn heading_text() -> Seq<char> {
    pad_right("Name"@, 40) + " "@ + "Data Offset"@ + " "@ + pad_left("Size"@, 10, ' ') + " "@
        + pad_left("Type"@, 10, ' ')
}

/// The rule under the heading of a listing.
pub open spec fn rule_text() -> Seq<char> {
    Seq::new(74, |_i: int| '-')
}

/// The listing line of the entry `e` of `rom`.
pub open spec fn entry_row(rom: Seq<u8>, e: crate::cbfs::CbfsEntryInfo) -> Seq<char> {
    row_text(
        rom.subrange(e.name_start as int, e.name_start + e.name_len),
        e.data_start,
        e.data_len as nat,
        e.entry_type,
    )
}

/// The listing lines of the first `k` entries of `es`.
pub open spec fn rows_upto(rom: Seq<u8>, es: Seq<crate::cbfs::CbfsEntryInfo>, k: int) -> Seq<Seq<char>> {
    Seq::new(k as nat, |i: int| entry_row(rom, es[i]))
}

/// The lines of the listing of the files of `rom` and its outcome: an
/// error for a ROM of invalid size, one that does not open, or one whose
/// walk ends on a corrupt entry (after the lines of the files before it).
#[verifier::opaque]
pub open spec fn list_spec(rom: Seq<u8>) -> (Seq<Seq<char>>, Result<(), Seq<char>>) {
    let n = rom.len();
    if n > u32::MAX || n < 4 {
        (
            Seq::empty(),
            Err("ROM size ("@ + dec(n) + ") is not a valid CBFS image size"@),
        )
    } else {
        let base = 0u32.wrapping_sub(n as u32);
        match crate::cbfs::header_check(rom, base) {
            Err(e) => (Seq::empty(), Err("failed to open CBFS image: "@ + cbfs_error_text(e))),
            Ok(off) => {
                let w = crate::cbfs::walk(rom, be32(rom, off + 16), Some(be32(rom, off + 20)));
                (
                    seq![heading_text(), rule_text()] + rows_upto(rom, w.0, w.0.len() as int),
                    if w.1 {
                        Err("corrupt CBFS entry: "@ + cbfs_error_text(CbfsError::CorruptEntry))
                    } else {
                        Ok(())
                    },
                )
            },
        }
    }
}

/// Lists the files of a CBFS image mapped just below 4 GiB: the lines to
/// print, and the error that ends the listing, if any.
pub fn list_files(rom: &[u8]) -> (r: (Vec<String>, Result<(), String>))
    ensures
        r.0@.map_values(|l: String| l@) == list_spec(rom@).0,
        match list_spec(rom@).1 {
            Ok(()) => r.1 is Ok,
            Err(m) => r.1 matches Err(e) && e@ == m,
        },
{
    reveal(list_spec);
    let mut lines: Vec<String> = Vec::new();
    let n = rom.len();
    if n > 0xffff_ffff || n < 4 {
        let mut msg = chars_of("ROM size (");
        push_dec(&mut msg, n as u64);
        push_str(&mut msg, ") is not a valid CBFS image size");
        proof {
            assert(lines@.map_values(|l: String| l@) =~= Seq::<Seq<char>>::empty());
        }
        return (lines, Err(string_from_chars(msg.as_slice())));
    }
    let base = 0u32.wrapping_sub(n as u32);
    let reader = match CbfsReader::open(rom, base) {
        Ok(r) => r,
        Err(e) => {
            let mut msg = chars_of("failed to open CBFS image: ");
            let t = e.to_string();
            push_str(&mut msg, t.as_str());
            proof {
                assert(lines@.map_values(|l: String| l@) =~= Seq::<Seq<char>>::empty());
            }
            return (lines, Err(string_from_chars(msg.as_slice())));
        },
    };
    let mut h: Vec<char> = Vec::new();
    let name_col = chars_of("Name");
    push_padded_right(&mut h, name_col.as_slice(), 40);
    push_str(&mut h, " ");
    push_str(&mut h, "Data Offset");
    push_str(&mut h, " ");
    let size_col = chars_of("Size");
    push_padded_left(&mut h, size_col.as_slice(), 10);
    push_str(&mut h, " ");
    let type_col = chars_of("Type");
    push_padded_left(&mut h, type_col.as_slice(), 10);
    lines.push(string_from_chars(h.as_slice()));
    let mut rule: Vec<char> = Vec::new();
    let mut k: usize = 0;
    while k < 74
        invariant
            k <= 74,
            rule@ == Seq::new(k as nat, |_i: int| '-'),
        decreases 74 - k,
    {
        rule.push('-');
        k += 1;
        assert(rule@ =~= Seq::new(k as nat, |_i: int| '-'));
    }
    lines.push(string_from_chars(rule.as_slice()));
    let ghost all = reader.entries();
    let mut files = reader.files();
    let ghost mut done: int = 0;
    proof {
        assert(h@ =~= heading_text());
        assert(all.0.subrange(0, 0) =~= Seq::<crate::cbfs::CbfsEntryInfo>::empty());
    }
    let ghost whole = list_spec(rom@);
    proof {
        crate::cbfs::lemma_walk_in_rom(rom@, be32(rom@, crate::cbfs::header_check(rom@, base)->Ok_0 + 16), Some(be32(rom@, crate::cbfs::header_check(rom@, base)->Ok_0 + 20)));
        assert(whole.0 == seq![heading_text(), rule_text()] + rows_upto(rom@, all.0, all.0.len() as int));
        assert(lines@.map_values(|l: String| l@) =~= seq![heading_text(), rule_text()] + rows_upto(rom@, all.0, 0));
    }
    loop
        invariant
            files.wf(),
            files.rom() == rom@,
            0 <= done <= all.0.len(),
            files.rest().0 == all.0.subrange(done, all.0.len() as int),
            files.rest().1 == all.1,
            whole == list_spec(rom@),
            forall|i: int|
                0 <= i < all.0.len() ==> (#[trigger] all.0[i]).data_start + all.0[i].data_len
                    <= rom@.len(),
            whole.0 == seq![heading_text(), rule_text()] + rows_upto(rom@, all.0, all.0.len() as int),
            whole.1 == if all.1 {
                Err::<(), Seq<char>>("corrupt CBFS entry: "@ + cbfs_error_text(CbfsError::CorruptEntry))
            } else {
                Ok::<(), Seq<char>>(())
            },
            lines@.map_values(|l: String| l@) == seq![heading_text(), rule_text()] + rows_upto(
                rom@,
                all.0,
                done,
            ),
        decreases all.0.len() - done,
    {
        let ghost rb = files.rest();
        match files.next() {
            None => {
                proof {
                    assert(done == all.0.len());
                }
                return (lines, Ok(()));
            },
            Some(Err(e)) => {
                let mut msg = chars_of("corrupt CBFS entry: ");
                let t = e.to_string();
                push_str(&mut msg, t.as_str());
                proof {
                    assert(done == all.0.len());
                }
                return (lines, Err(string_from_chars(msg.as_slice())));
            },
            Some(Ok(f)) => {
                proof {
                    assert(rb.0.len() > 0);
                    assert(all.0[done] == all.0.subrange(done, all.0.len() as int)[0]);
                    assert(all.0.subrange(done, all.0.len() as int).drop_first() =~= all.0.subrange(
                        done + 1,
                        all.0.len() as int,
                    ));
                }
                let ghost before = lines@.map_values(|l: String| l@);
                lines.push(list_row(f.name, f.offset, f.data.len(), f.type_));
                proof {
                    assert(f.data@.len() == all.0[done].data_len);
                    assert(rows_upto(rom@, all.0, done + 1) =~= rows_upto(rom@, all.0, done).push(
                        entry_row(rom@, all.0[done]),
                    ));
                    assert(lines@.map_values(|l: String| l@) =~= before.push(entry_row(rom@, all.0[done])));
                }
                proof {
                    done = done + 1;
                }
            },
        }
    }
}

} // verus!
