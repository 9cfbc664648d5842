//! Minimal ISO 9660 parsing: volume descriptors, directory records and
//! their names, from in-memory sectors. Extensions such as Rock Ridge and
//! Joliet are not supported.

use crate::text::{len_before, string_of, sub_chars, trim_end_char, trim_end_char_exec};
use vstd::prelude::*;

verus! {

/// The only sector size supported.
pub const ISO9660_SECTOR_SIZE: usize = 2048;

/// A sector number.
#[derive(Clone, Copy, Debug, PartialEq, Eq)]
pub struct Address(pub u32);

impl Address {
    /// Byte offset of the sector.
    pub fn as_offset(&self) -> (r: u64)
        ensures
            r == self.0 as u64 * 2048,
    {
        self.0 as u64 * 2048
    }

    pub fn as_sector(&self) -> (r: u32)
        ensures
            r == self.0,
    {
        self.0
    }
}

#[derive(Clone, Debug, PartialEq, Eq)]
pub struct Directory {
    pub name: String,
    pub address: Address,
    pub length: u32,
}

#[derive(Clone, Debug, PartialEq, Eq)]
pub struct File {
    pub name: String,
    pub address: Address,
    pub length: u32,
}

#[derive(Clone, Debug, PartialEq, Eq)]
pub enum DirectoryRecord {
    Directory(Directory),
    File(File),
}

/// Requested path was not found.
#[derive(Clone, Debug, PartialEq, Eq)]
pub struct NotFound(pub String);

/// Why parsing failed.
#[derive(Clone, Debug, PartialEq, Eq)]
pub enum IsoError {
    /// A directory was expected; the named entry is a file.
    NotADirectory(String),
    /// A file was expected; the named entry is a directory.
    NotAFile(String),
    /// A directory record runs past the end of its directory.
    IncompleteRecord,
    /// A string runs past the end of its buffer.
    IncompleteString,
    /// A string holds a character outside its character set.
    InvalidString,
    /// A volume descriptor does not start with `CD001`.
    UnknownDescriptorId,
    /// A volume descriptor has a version other than 1.
    UnknownDescriptorVersion(u8),
    /// The primary volume descriptor holds no root directory record.
    NoRootDirectory,
    /// The data is malformed in a way that reading it cannot go on.
    Corrupt,
}

/// Abstract value of a directory record.
pub struct RecordSpec {
    pub is_dir: bool,
    pub name: Seq<char>,
    pub address: u32,
    pub length: u32,
}

impl DirectoryRecord {
    pub open spec fn spec(&self) -> RecordSpec {
        match self {
            DirectoryRecord::Directory(d) => RecordSpec {
                is_dir: true,
                name: d.name@,
                address: d.address.0,
                length: d.length,
            },
            DirectoryRecord::File(f) => RecordSpec {
                is_dir: false,
                name: f.name@,
                address: f.address.0,
                length: f.length,
            },
        }
    }

    pub fn try_into_dir(self) -> (r: Result<Directory, IsoError>)
        ensures
            match self {
                DirectoryRecord::Directory(d) => r == Ok::<Directory, IsoError>(d),
                DirectoryRecord::File(f) => r == Err::<Directory, IsoError>(
                    IsoError::NotADirectory(f.name),
                ),
            },
    {
        match self {
            DirectoryRecord::Directory(d) => Ok(d),
            DirectoryRecord::File(f) => Err(IsoError::NotADirectory(f.name)),
        }
    }

    pub fn try_into_file(self) -> (r: Result<File, IsoError>)
        ensures
            match self {
                DirectoryRecord::File(f) => r == Ok::<File, IsoError>(f),
                DirectoryRecord::Directory(d) => r == Err::<File, IsoError>(
                    IsoError::NotAFile(d.name),
                ),
            },
    {
        match self {
            DirectoryRecord::Directory(d) => Err(IsoError::NotAFile(d.name)),
            DirectoryRecord::File(f) => Ok(f),
        }
    }
}

// ---------------------------------------------------------------------------
// Strings
// ---------------------------------------------------------------------------

/// Character sets of ISO 9660 strings.
#[derive(Clone, Copy, Debug, PartialEq, Eq, Structural)]
pub enum IsoString {
    StrA,
    StrD,
    File,
}

pub open spec fn is_alnum_byte(b: u8) -> bool {
    (48 <= b <= 57) || (65 <= b <= 90) || (97 <= b <= 122)
}

/// `!"%&'()*+,-.:<=>?`
pub open spec fn is_file_char(b: u8) -> bool {
    b == 33 || b == 34 || b == 37 || b == 38 || b == 39 || b == 40 || b == 41 || b == 42 || b
        == 43 || b == 44 || b == 45 || b == 46 || b == 58 || b == 60 || b == 61 || b == 62 || b
        == 63
}

/// `;` and `/`
pub open spec fn is_a_char(b: u8) -> bool {
    b == 59 || b == 47
}

/// What a byte of a string becomes: `Some(Some(c))` a character,
/// `Some(None)` the end of the string, `None` an invalid byte.
pub open spec fn iso_char(b: u8, kind: IsoString) -> Option<Option<char>> {
    if is_alnum_byte(b) || b == 95 || b == 32 {
        Some(Some(b as char))
    } else if is_file_char(b) && (kind == IsoString::File || kind == IsoString::StrA) {
        Some(Some(b as char))
    } else if is_a_char(b) && kind == IsoString::StrA {
        Some(Some(b as char))
    } else if is_a_char(b) && kind == IsoString::File {
        Some(Some('.'))
    } else if b == 0 {
        Some(None)
    } else {
        None
    }
}

/// Decodes bytes up to the first NUL.
pub open spec fn iso_decode(b: Seq<u8>, kind: IsoString) -> Option<Seq<char>>
    decreases b.len(),
{
    if b.len() == 0 {
        Some(seq![])
    } else {
        match iso_char(b[0], kind) {
            None => None,
            Some(None) => Some(seq![]),
            Some(Some(c)) => match iso_decode(b.drop_first(), kind) {
                Some(rest) => Some(seq![c] + rest),
                None => None,
            },
        }
    }
}

/// File names lose a `;1` version suffix, then a trailing `.`.
pub open spec fn strip_file_suffixes(b: Seq<u8>) -> Seq<u8> {
    let b1 = if b.len() >= 2 && b[b.len() - 2] == 59 && b[b.len() - 1] == 49 {
        b.take(b.len() - 2)
    } else {
        b
    };
    if b1.len() >= 1 && b1[b1.len() - 1] == 46 {
        b1.take(b1.len() - 1)
    } else {
        b1
    }
}

/// The string stored in `b`.
pub open spec fn iso_string_spec(b: Seq<u8>, kind: IsoString) -> Option<Seq<char>> {
    let b1 = if kind == IsoString::File {
        strip_file_suffixes(b)
    } else {
        b
    };
    match iso_decode(b1, kind) {
        None => None,
        Some(s) => Some(
            if kind == IsoString::File {
                s
            } else {
                trim_end_char(s, ' ')
            },
        ),
    }
}

/// Trimming a character leaves none at the end.
proof fn lemma_trim_end_char_ends(s: Seq<char>, c: char)
    ensures
        trim_end_char(s, c).len() == 0 || trim_end_char(s, c).last() != c,
        trim_end_char(s, c).len() <= s.len(),
    decreases s.len(),
{
    if s.len() > 0 && s.last() == c {
        lemma_trim_end_char_ends(s.drop_last(), c);
    }
}

/// An A- or D-string never ends with a space: its padding is dropped.
pub proof fn lemma_padded_string_no_trailing_space(b: Seq<u8>, kind: IsoString)
    requires
        kind != IsoString::File,
    ensures
        iso_string_spec(b, kind) matches Some(s) ==> s.len() == 0 || s.last() != ' ',
{
    if let Some(d) = iso_decode(b, kind) {
        lemma_trim_end_char_ends(d, ' ');
    }
}

/// A file name reads the same with or without the `;1` version suffix
/// (where the name does not itself end in `;1`).
pub proof fn lemma_file_version_suffix(n: Seq<u8>)
    requires
        !(n.len() >= 2 && n[n.len() - 2] == 59 && n[n.len() - 1] == 49),
    ensures
        iso_string_spec(n + seq![59u8, 49u8], IsoString::File) == iso_string_spec(n, IsoString::File),
{
    let b = n + seq![59u8, 49u8];
    assert(b[b.len() - 2] == 59 && b[b.len() - 1] == 49);
    assert(b.take(b.len() - 2) =~= n);
}

/// A file without an extension, stored as `NAME.;1`, reads as `NAME`
/// (where `NAME` does not itself end in `.` or `;1`).
pub proof fn lemma_file_without_extension(n: Seq<u8>)
    requires
        !(n.len() >= 2 && n[n.len() - 2] == 59 && n[n.len() - 1] == 49),
        !(n.len() >= 1 && n[n.len() - 1] == 46),
    ensures
        iso_string_spec(n + seq![46u8, 59u8, 49u8], IsoString::File) == iso_string_spec(n, IsoString::File),
{
    let b = n + seq![46u8, 59u8, 49u8];
    let b1 = b.take(b.len() - 2);
    assert(b[b.len() - 2] == 59 && b[b.len() - 1] == 49);
    assert(b1 =~= n + seq![46u8]);
    assert(b1[b1.len() - 1] == 46);
    assert(b1.take(b1.len() - 1) =~= n);
}

/// Reads an ISO 9660 string of `len` bytes at `pos`.
pub fn parse_iso9660_string(buf: &[u8], pos: usize, len: usize, kind: IsoString) -> (r: Result<
    String,
    IsoError,
>)
    requires
        pos <= buf.len(),
    ensures
        match r {
            Ok(s) => pos + len <= buf.len() && iso_string_spec(
                buf@.subrange(pos as int, pos + len),
                kind,
            ) == Some(s@),
            Err(e) => (pos + len > buf.len() && e == IsoError::IncompleteString) || (pos + len
                <= buf.len() && iso_string_spec(buf@.subrange(pos as int, pos + len), kind) is None
                && e == IsoError::InvalidString),
        },
{
    if len > buf.len() - pos {
        return Err(IsoError::IncompleteString);
    }
    let ghost b = buf@.subrange(pos as int, pos + len);
    let mut end = pos + len;
    if kind == IsoString::File {
        if end - pos >= 2 && buf[end - 2] == 59 && buf[end - 1] == 49 {
            end = end - 2;
        }
        if end - pos >= 1 && buf[end - 1] == 46 {
            end = end - 1;
        }
        assert(buf@.subrange(pos as int, end as int) == strip_file_suffixes(b));
    } else {
        assert(buf@.subrange(pos as int, end as int) == b);
    }
    let ghost b1 = buf@.subrange(pos as int, end as int);
    let mut out: Vec<char> = Vec::new();
    let mut i = pos;
    let mut stop = false;
    while i < end && !stop
        invariant
            pos <= i <= end <= buf.len(),
            pos + len <= buf.len(),
            b == buf@.subrange(pos as int, pos + len),
            b1 == buf@.subrange(pos as int, end as int),
            b1 == (if kind == IsoString::File {
                strip_file_suffixes(b)
            } else {
                b
            }),
            stop ==> iso_decode(b1, kind) == Some(out@),
            !stop ==> iso_decode(b1, kind) == match iso_decode(
                buf@.subrange(i as int, end as int),
                kind,
            ) {
                Some(rest) => Some(out@ + rest),
                None => None,
            },
        decreases end - i + (if stop { 0int } else { 1int }),
    {
        let byte = buf[i];
        let ghost rest = buf@.subrange(i as int, end as int);
        assert(rest[0] == byte);
        assert(rest.drop_first() == buf@.subrange(i + 1, end as int));
        let alnum = (48 <= byte && byte <= 57) || (65 <= byte && byte <= 90) || (97 <= byte && byte
            <= 122);
        let file_char = byte == 33 || byte == 34 || byte == 37 || byte == 38 || byte == 39 || byte
            == 40 || byte == 41 || byte == 42 || byte == 43 || byte == 44 || byte == 45 || byte
            == 46 || byte == 58 || byte == 60 || byte == 61 || byte == 62 || byte == 63;
        let a_char = byte == 59 || byte == 47;
        assert(alnum == is_alnum_byte(byte));
        assert(file_char == is_file_char(byte));
        assert(a_char == is_a_char(byte));
        if alnum || byte == 95 || byte == 32 {
            out.push(byte as char);
        } else if file_char && (kind == IsoString::File || kind == IsoString::StrA) {
            out.push(byte as char);
        } else if a_char && kind == IsoString::StrA {
            out.push(byte as char);
        } else if a_char && kind == IsoString::File {
            out.push('.');
        } else if byte == 0 {
            assert(iso_char(byte, kind) == Some(None::<char>));
            assert(iso_decode(rest, kind) == Some(Seq::<char>::empty()));
            assert(out@ + Seq::<char>::empty() == out@);
            stop = true;
        } else {
            assert(iso_char(byte, kind) is None);
            assert(iso_decode(rest, kind) is None);
            assert(iso_decode(b1, kind) is None);
            return Err(IsoError::InvalidString);
        }
        if !stop {
            proof {
                let c = out@.last();
                assert(iso_char(byte, kind) == Some(Some(c)));
                match iso_decode(rest.drop_first(), kind) {
                    Some(r2) => {
                        assert(out@ + r2 == out@.drop_last() + (seq![c] + r2));
                    },
                    None => {},
                }
            }
            i += 1;
        }
    }
    if !stop {
        assert(buf@.subrange(i as int, end as int) =~= Seq::<u8>::empty());
        assert(out@ + Seq::<char>::empty() == out@);
    }
    assert(iso_decode(b1, kind) == Some(out@));
    if kind == IsoString::File {
        Ok(string_of(&out))
    } else {
        let t = trim_end_char_exec(&out, ' ');
        Ok(string_of(&t))
    }
}

// ---------------------------------------------------------------------------
// Directory records
// ---------------------------------------------------------------------------

/// Little-endian 32-bit value at `p`.
pub open spec fn le32(b: Seq<u8>, p: int) -> u32 {
    (b[p] as u32) | (b[p + 1] as u32) << 8 | (b[p + 2] as u32) << 16 | (b[p + 3] as u32) << 24
}

fn read_u32_le(buf: &[u8], p: usize) -> (r: u32)
    requires
        p + 4 <= buf.len(),
    ensures
        r == le32(buf@, p as int),
{
    (buf[p] as u32) | (buf[p + 1] as u32) << 8 | (buf[p + 2] as u32) << 16 | (buf[p + 3] as u32)
        << 24
}

/// One step of reading a directory.
pub enum RecordStep {
    /// No more records.
    End,
    /// A record, and the position after it.
    Found(RecordSpec, int),
    /// Reading stops with an error.
    Fail(IsoError),
    /// The record cannot be read at all: its fixed fields, its name or its
    /// declared length run past the data, or the zero padding before it is
    /// not within the directory.
    Malformed,
}

/// Distance from `dpos` to the next sector boundary strictly after it.
pub open spec fn jump_to_next_sector(dpos: int) -> int {
    ((dpos + 2048) / 2048) * 2048 - dpos
}

/// Reads the record at `pos` of a directory of `length` bytes held in
/// `buf`, skipping the zero padding at the end of each sector, and the
/// `.` and `..` entries (but `.` is named when `is_root`).
pub open spec fn next_record(buf: Seq<u8>, pos: int, length: int, is_root: bool) -> RecordStep
    decreases buf.len() - pos,
{
    if pos < 0 || pos >= buf.len() {
        RecordStep::End
    } else {
        let len = buf[pos] as int;
        let p1 = pos + 1;
        let rem = buf.len() - p1;
        if len == 0 {
            if rem > length {
                RecordStep::Malformed
            } else {
                let jump = jump_to_next_sector(length - rem);
                if jump >= rem {
                    RecordStep::End
                } else {
                    next_record(buf, p1 + jump, length, is_root)
                }
            }
        } else if len > rem + 1 {
            RecordStep::Fail(IsoError::IncompleteRecord)
        } else if rem < 32 {
            RecordStep::Malformed
        } else {
            let address = le32(buf, p1 + 1);
            let dlen = le32(buf, p1 + 9);
            let flags = buf[p1 + 24];
            let nl = buf[p1 + 31] as int;
            let q = p1 + 32;
            if nl == 1 && q >= buf.len() {
                RecordStep::Malformed
            } else if nl == 1 && (buf[q] == 0 || buf[q] == 1) {
                if len < 33 + nl {
                    RecordStep::Malformed
                } else if is_root && buf[q] == 0 {
                    RecordStep::Found(
                        RecordSpec {
                            is_dir: flags & 2 > 0,
                            name: "."@,
                            address,
                            length: dlen,
                        },
                        pos + len,
                    )
                } else {
                    next_record(buf, pos + len, length, is_root)
                }
            } else if q + nl > buf.len() {
                RecordStep::Fail(IsoError::IncompleteString)
            } else {
                match iso_string_spec(buf.subrange(q, q + nl), IsoString::File) {
                    None => RecordStep::Fail(IsoError::InvalidString),
                    Some(name) => if len < 33 + nl {
                        RecordStep::Malformed
                    } else {
                        RecordStep::Found(
                            RecordSpec { is_dir: flags & 2 > 0, name, address, length: dlen },
                            pos + len,
                        )
                    },
                }
            }
        }
    }
}

/// Reads the directory record at `pos` of a directory of `length` bytes
/// held in `buf`, and returns it with the position of the next one.
/// Where the record cannot be read at all, the result is
/// `IsoError::Corrupt`.
pub fn get_next_directory_record(buf: &[u8], pos: usize, length: u32, is_root: bool) -> (r: Result<
    Option<(DirectoryRecord, usize)>,
    IsoError,
>)
    requires
        pos <= buf.len(),
    ensures
        match next_record(buf@, pos as int, length as int, is_root) {
            RecordStep::End => r == Ok::<Option<(DirectoryRecord, usize)>, IsoError>(None),
            RecordStep::Found(rec, next) => r matches Ok(Some((d, n))) && d.spec() == rec && n
                == next,
            RecordStep::Fail(e) => r == Err::<Option<(DirectoryRecord, usize)>, IsoError>(e),
            RecordStep::Malformed => r == Err::<Option<(DirectoryRecord, usize)>, IsoError>(
                IsoError::Corrupt,
            ),
        },
{
    let mut cur = pos;
    loop
        invariant
            cur <= buf.len(),
            next_record(buf@, cur as int, length as int, is_root) == next_record(
                buf@,
                pos as int,
                length as int,
                is_root,
            ),
        decreases buf.len() - cur,
    {
        if cur >= buf.len() {
            return Ok(None);
        }
        let len = buf[cur] as usize;
        let p1 = cur + 1;
        let rem = buf.len() - p1;
        if len == 0 {
            if rem as u64 > length as u64 {
                return Err(IsoError::Corrupt);
            }
            let dpos: u64 = length as u64 - rem as u64;
            let jump: u64 = ((dpos + 2048) / 2048) * 2048 - dpos;
            assert(jump == jump_to_next_sector(length - rem));
            assert(jump >= 1) by (nonlinear_arith)
                requires
                    jump == ((dpos + 2048) / 2048) * 2048 - dpos,
            ;
            if jump >= rem as u64 {
                return Ok(None);
            }
            cur = p1 + jump as usize;
            continue ;
        } else if len > rem + 1 {
            return Err(IsoError::IncompleteRecord);
        } else if rem < 32 {
            return Err(IsoError::Corrupt);
        }
        let address = read_u32_le(buf, p1 + 1);
        let dlen = read_u32_le(buf, p1 + 9);
        let flags = buf[p1 + 24];
        let nl = buf[p1 + 31] as usize;
        let q = p1 + 32;
        if nl == 1 && q >= buf.len() {
            return Err(IsoError::Corrupt);
        }
        if nl == 1 && (buf[q] == 0 || buf[q] == 1) {
            if len < 33 + nl {
                return Err(IsoError::Corrupt);
            }
            if is_root && buf[q] == 0 {
                let name = string_of(&['.']);
                proof {
                    reveal_strlit(".");
                    assert(name@ == "."@);
                }
                let d = Directory { name, address: Address(address), length: dlen };
                let rec = if flags & 2 > 0 {
                    DirectoryRecord::Directory(d)
                } else {
                    DirectoryRecord::File(File { name: d.name, address: d.address, length: d.length })
                };
                return Ok(Some((rec, cur + len)));
            }
            cur = cur + len;
            continue ;
        }
        if nl > buf.len() - q {
            return Err(IsoError::IncompleteString);
        }
        let name = match parse_iso9660_string(buf, q, nl, IsoString::File) {
            Ok(name) => name,
            Err(e) => {
                return Err(e);
            },
        };
        if len < 33 + nl {
            return Err(IsoError::Corrupt);
        }
        let rec = if flags & 2 > 0 {
            DirectoryRecord::Directory(Directory { name, address: Address(address), length: dlen })
        } else {
            DirectoryRecord::File(File { name, address: Address(address), length: dlen })
        };
        return Ok(Some((rec, cur + len)));
    }
}

/// A found record ends after the position it was looked for at, and
/// within the data.
pub proof fn lemma_next_record_advances(buf: Seq<u8>, pos: int, length: int, is_root: bool)
    ensures
        next_record(buf, pos, length, is_root) matches RecordStep::Found(_, n) ==> pos < n
            <= buf.len(),
    decreases buf.len() - pos,
{
    if 0 <= pos < buf.len() {
        let len = buf[pos] as int;
        let p1 = pos + 1;
        let rem = buf.len() - p1;
        if len == 0 {
            if rem <= length {
                let jump = jump_to_next_sector(length - rem);
                assert(jump >= 1) by (nonlinear_arith)
                    requires
                        jump == jump_to_next_sector(length - rem),
                ;
                if jump < rem {
                    lemma_next_record_advances(buf, p1 + jump, length, is_root);
                }
            }
        } else if len <= rem + 1 && rem >= 32 {
            let q = p1 + 32;
            let nl = buf[p1 + 31] as int;
            if nl == 1 && q < buf.len() && (buf[q] == 0 || buf[q] == 1) && len >= 33 + nl && !(
            is_root && buf[q] == 0) {
                lemma_next_record_advances(buf, pos + len, length, is_root);
            }
        }
    }
}

// ---------------------------------------------------------------------------
// Volume descriptors
// ---------------------------------------------------------------------------

#[derive(Clone, Debug, PartialEq, Eq)]
pub struct BootVolumeDescriptor {
    pub boot_system_id: String,
    pub boot_id: String,
}

#[derive(Clone, Debug, PartialEq, Eq)]
pub struct PrimaryVolumeDescriptor {
    pub system_id: String,
    pub volume_id: String,
    pub volume_space_size: u64,
    pub root: Directory,
}

#[derive(Clone, Debug, PartialEq, Eq)]
pub enum VolumeDescriptor {
    Boot(BootVolumeDescriptor),
    Primary(PrimaryVolumeDescriptor),
    Supplementary,
    Unknown { type_id: u8 },
}

/// `CD001`
pub open spec fn descriptor_id() -> Seq<u8> {
    seq![67u8, 68u8, 48u8, 48u8, 49u8]
}

/// Checks the identifier and version that follow a descriptor's type.
pub fn verify_descriptor_header(buf: &[u8], pos: usize) -> (r: Result<(), IsoError>)
    requires
        pos + 6 <= buf.len(),
    ensures
        match r {
            Ok(()) => buf@.subrange(pos as int, pos + 5) == descriptor_id() && buf@[pos + 5]
                == 1,
            Err(IsoError::UnknownDescriptorId) => buf@.subrange(pos as int, pos + 5)
                != descriptor_id(),
            Err(IsoError::UnknownDescriptorVersion(v)) => buf@.subrange(pos as int, pos + 5)
                == descriptor_id() && v == buf@[pos + 5] && v != 1,
            Err(_) => false,
        },
{
    let ok = buf[pos] == 67 && buf[pos + 1] == 68 && buf[pos + 2] == 48 && buf[pos + 3] == 48
        && buf[pos + 4] == 49;
    if !ok {
        assert(buf@.subrange(pos as int, pos + 5) != descriptor_id()) by {
            if buf@.subrange(pos as int, pos + 5) == descriptor_id() {
                assert(buf@.subrange(pos as int, pos + 5)[0] == buf@[pos as int]);
                assert(buf@.subrange(pos as int, pos + 5)[1] == buf@[pos + 1]);
                assert(buf@.subrange(pos as int, pos + 5)[2] == buf@[pos + 2]);
                assert(buf@.subrange(pos as int, pos + 5)[3] == buf@[pos + 3]);
                assert(buf@.subrange(pos as int, pos + 5)[4] == buf@[pos + 4]);
            }
        }
        return Err(IsoError::UnknownDescriptorId);
    }
    assert(buf@.subrange(pos as int, pos + 5) =~= descriptor_id());
    let version = buf[pos + 5];
    if version != 1 {
        return Err(IsoError::UnknownDescriptorVersion(version));
    }
    Ok(())
}

/// What is wrong with the header of a descriptor sector: its identifier,
/// then its version.
pub open spec fn header_fault(sector: Seq<u8>) -> Option<IsoError> {
    if sector.subrange(1, 6) != descriptor_id() {
        Some(IsoError::UnknownDescriptorId)
    } else if sector[6] != 1 {
        Some(IsoError::UnknownDescriptorVersion(sector[6]))
    } else {
        None
    }
}

impl BootVolumeDescriptor {
    /// Parses a boot descriptor sector.
    pub fn parse(sector: &[u8]) -> (r: Result<Self, IsoError>)
        requires
            sector.len() == 2048,
        ensures
            match header_fault(sector@) {
                Some(e) => r == Err::<Self, IsoError>(e),
                None => match (
                    iso_string_spec(sector@.subrange(7, 39), IsoString::StrA),
                    iso_string_spec(sector@.subrange(39, 71), IsoString::StrA),
                ) {
                    (Some(sys), Some(id)) => r matches Ok(d) && d.boot_system_id@ == sys
                        && d.boot_id@ == id,
                    _ => r == Err::<Self, IsoError>(IsoError::InvalidString),
                },
            },
    {
        match verify_descriptor_header(sector, 1) {
            Ok(()) => {},
            Err(e) => {
                return Err(e);
            },
        }
        let boot_system_id = match parse_iso9660_string(sector, 7, 32, IsoString::StrA) {
            Ok(s) => s,
            Err(e) => {
                return Err(e);
            },
        };
        let boot_id = match parse_iso9660_string(sector, 39, 32, IsoString::StrA) {
            Ok(s) => s,
            Err(e) => {
                return Err(e);
            },
        };
        Ok(BootVolumeDescriptor { boot_system_id, boot_id })
    }
}

impl PrimaryVolumeDescriptor {
    /// Parses a primary descriptor sector.
    pub fn parse(sector: &[u8]) -> (r: Result<Self, IsoError>)
        requires
            sector.len() == 2048,
        ensures
            match header_fault(sector@) {
                Some(e) => r == Err::<Self, IsoError>(e),
                None => match (
                    iso_string_spec(sector@.subrange(8, 40), IsoString::StrA),
                    iso_string_spec(sector@.subrange(40, 72), IsoString::StrA),
                ) {
                    (Some(sys), Some(vol)) => match next_record(sector@, 156, 34, true) {
                        RecordStep::Found(rec, _) => if rec.is_dir {
                            r matches Ok(d) && d.system_id@ == sys && d.volume_id@ == vol
                                && d.volume_space_size == le32(sector@, 80) as u64 && rec.name
                                == d.root.name@ && rec.address == d.root.address.0 && rec.length
                                == d.root.length
                        } else {
                            r == Err::<Self, IsoError>(IsoError::NoRootDirectory)
                        },
                        RecordStep::End => r == Err::<Self, IsoError>(IsoError::NoRootDirectory),
                        RecordStep::Fail(e) => r == Err::<Self, IsoError>(e),
                        RecordStep::Malformed => r == Err::<Self, IsoError>(IsoError::Corrupt),
                    },
                    _ => r == Err::<Self, IsoError>(IsoError::InvalidString),
                },
            },
    {
        match verify_descriptor_header(sector, 1) {
            Ok(()) => {},
            Err(e) => {
                return Err(e);
            },
        }
        let system_id = match parse_iso9660_string(sector, 8, 32, IsoString::StrA) {
            Ok(s) => s,
            Err(e) => {
                return Err(e);
            },
        };
        let volume_id = match parse_iso9660_string(sector, 40, 32, IsoString::StrA) {
            Ok(s) => s,
            Err(e) => {
                return Err(e);
            },
        };
        let volume_space_size = read_u32_le(sector, 80) as u64;
        let root = match get_next_directory_record(sector, 156, 34, true) {
            Ok(Some((DirectoryRecord::Directory(d), _))) => d,
            Ok(_) => {
                return Err(IsoError::NoRootDirectory);
            },
            Err(e) => {
                return Err(e);
            },
        };
        Ok(PrimaryVolumeDescriptor { system_id, volume_id, volume_space_size, root })
    }
}

/// Parses one volume descriptor sector; `None` for the terminator.
pub fn get_next_volume_descriptor(sector: &[u8]) -> (r: Result<Option<VolumeDescriptor>, IsoError>)
    requires
        sector.len() == 2048,
    ensures
        sector@[0] == 255 ==> r == Ok::<Option<VolumeDescriptor>, IsoError>(None),
        sector@[0] == 2 ==> r == Ok::<Option<VolumeDescriptor>, IsoError>(
            Some(VolumeDescriptor::Supplementary),
        ),
        (sector@[0] != 0 && sector@[0] != 1 && sector@[0] != 2 && sector@[0] != 255) ==> r == Ok::<
            Option<VolumeDescriptor>,
            IsoError,
        >(Some(VolumeDescriptor::Unknown { type_id: sector@[0] })),
        sector@[0] == 0 ==> r is Err || r matches Ok(Some(VolumeDescriptor::Boot(_))),
        sector@[0] == 1 ==> r is Err || r matches Ok(Some(VolumeDescriptor::Primary(_))),
{
    let t = sector[0];
    if t == 0 {
        match BootVolumeDescriptor::parse(sector) {
            Ok(d) => Ok(Some(VolumeDescriptor::Boot(d))),
            Err(e) => Err(e),
        }
    } else if t == 1 {
        match PrimaryVolumeDescriptor::parse(sector) {
            Ok(d) => Ok(Some(VolumeDescriptor::Primary(d))),
            Err(e) => Err(e),
        }
    } else if t == 2 {
        Ok(Some(VolumeDescriptor::Supplementary))
    } else if t == 255 {
        Ok(None)
    } else {
        Ok(Some(VolumeDescriptor::Unknown { type_id: t }))
    }
}

/// The first primary volume descriptor.
pub fn get_primary_volume_descriptor(descriptors: &[VolumeDescriptor]) -> (r: Option<
    &PrimaryVolumeDescriptor,
>)
    ensures
        match r {
            Some(p) => exists|i: int|
                0 <= i < descriptors@.len() && descriptors@[i] == VolumeDescriptor::Primary(*p)
                    && forall|j: int|
                    0 <= j < i ==> !(#[trigger] descriptors@[j] is Primary),
            None => forall|j: int|
                0 <= j < descriptors@.len() ==> !(#[trigger] descriptors@[j] is Primary),
        },
{
    let mut i: usize = 0;
    while i < descriptors.len()
        invariant
            i <= descriptors.len(),
            forall|j: int| 0 <= j < i ==> !(#[trigger] descriptors@[j] is Primary),
        decreases descriptors.len() - i,
    {
        if let VolumeDescriptor::Primary(p) = &descriptors[i] {
            return Some(p);
        }
        i += 1;
    }
    None
}

/// Whether an image of `length` bytes holds all the sectors that its
/// primary volume descriptor declares.
pub fn image_is_complete(primary: &PrimaryVolumeDescriptor, length: u64) -> (r: bool)
    ensures
        r == (primary.volume_space_size * 2048 <= length),
{
    primary.volume_space_size <= length / 2048
}

// ---------------------------------------------------------------------------
// Paths
// ---------------------------------------------------------------------------

/// The `/`-separated pieces of a path.
pub open spec fn split_slash(s: Seq<char>) -> Seq<Seq<char>>
    decreases s.len(),
{
    let k = len_before(s, '/');
    if k >= s.len() {
        seq![s]
    } else {
        seq![s.take(k as int)] + split_slash(s.skip(k + 1 as int))
    }
}

/// Resolving `.`, `..` and empty components onto a stack of names.
pub open spec fn resolve_step(acc: Seq<Seq<char>>, c: Seq<char>) -> Seq<Seq<char>> {
    if c == ".."@ {
        if acc.len() > 0 {
            acc.drop_last()
        } else {
            acc
        }
    } else if c.len() == 0 || c == "."@ {
        acc
    } else {
        acc.push(c)
    }
}

pub open spec fn resolve_components(acc: Seq<Seq<char>>, cs: Seq<Seq<char>>) -> Seq<Seq<char>>
    decreases cs.len(),
{
    if cs.len() == 0 {
        acc
    } else {
        resolve_components(resolve_step(acc, cs[0]), cs.drop_first())
    }
}

/// Resolving two runs of components is resolving one, then the other.
pub proof fn lemma_resolve_compose(acc: Seq<Seq<char>>, a: Seq<Seq<char>>, b: Seq<Seq<char>>)
    ensures
        resolve_components(acc, a + b) == resolve_components(resolve_components(acc, a), b),
    decreases a.len(),
{
    if a.len() == 0 {
        assert(a + b =~= b);
    } else {
        assert((a + b)[0] == a[0]);
        assert((a + b).drop_first() =~= a.drop_first() + b);
        lemma_resolve_compose(resolve_step(acc, a[0]), a.drop_first(), b);
    }
}

pub open spec fn path_components_spec(s: Seq<char>) -> Seq<Seq<char>> {
    resolve_components(seq![], split_slash(s))
}

/// Splits a path into zero or more components, made relative, with all
/// `.` and `..` components resolved (`..` at the top is dropped).
pub fn path_components(s: &str) -> (r: Vec<&str>)
    ensures
        r@.map_values(|c: &str| c@) == path_components_spec(s@),
{
    let n = s.unicode_len();
    let mut v: Vec<char> = Vec::new();
    let mut k: usize = 0;
    while k < n
        invariant
            n == s@.len(),
            k <= n,
            v@ == s@.take(k as int),
        decreases n - k,
    {
        v.push(s.get_char(k));
        k += 1;
        assert(s@.take(k as int) == s@.take(k - 1).push(s@[k - 1]));
    }
    assert(s@.take(n as int) == s@);
    let dots = ['.', '.'];
    let mut ret: Vec<&str> = Vec::new();
    let mut i: usize = 0;
    assert(v@.skip(0) == v@);
    assert(ret@.map_values(|c: &str| c@) =~= Seq::<Seq<char>>::empty());
    loop
        invariant
            v@ == s@,
            n == s@.len(),
            i <= n,
            resolve_components(ret@.map_values(|c: &str| c@), split_slash(v@.skip(i as int)))
                == path_components_spec(s@),
        decreases n - i,
    {
        proof {
            reveal_strlit("..");
            reveal_strlit(".");
        }
        let ghost rest = v@.skip(i as int);
        let j = crate::text::find_char(&v, i, '/');
        let piece = s.substring_char(i, j);
        assert(piece@ == rest.take((j - i) as int));
        let ghost acc = ret@.map_values(|c: &str| c@);
        let is_dots = j - i == 2 && v[i] == '.' && v[i + 1] == '.';
        let is_dot = j - i == 1 && v[i] == '.';
        assert(is_dots == (piece@ == ".."@)) by {
            if piece@ == ".."@ {
                assert(piece@[0] == rest[0]);
                assert(piece@[1] == rest[1]);
            }
            if is_dots {
                assert(piece@ =~= ".."@);
            }
        }
        assert(is_dot == (piece@ == "."@)) by {
            if piece@ == "."@ {
                assert(piece@[0] == rest[0]);
            }
            if is_dot {
                assert(piece@ =~= "."@);
            }
        }
        if is_dots {
            if ret.len() > 0 {
                ret.pop();
                assert(ret@.map_values(|c: &str| c@) =~= acc.drop_last());
            }
        } else if j == i || is_dot {
        } else {
            ret.push(piece);
            assert(ret@.map_values(|c: &str| c@) =~= acc.push(piece@));
        }
        assert(ret@.map_values(|c: &str| c@) == resolve_step(acc, piece@));
        if j >= n {
            assert(split_slash(rest) == seq![rest]);
            assert(rest.take((j - i) as int) == rest);
            assert(seq![rest].drop_first() =~= Seq::<Seq<char>>::empty());
            assert(seq![rest][0] == piece@);
            assert(resolve_components(acc, seq![rest]) == resolve_components(
                resolve_step(acc, piece@),
                Seq::<Seq<char>>::empty(),
            ));
            return ret;
        }
        assert(split_slash(rest) == seq![rest.take((j - i) as int)] + split_slash(
            rest.skip((j - i) + 1),
        ));
        assert(rest.skip((j - i) + 1) == v@.skip(j + 1));
        assert((seq![rest.take((j - i) as int)] + split_slash(rest.skip((j - i) + 1))).drop_first()
            == split_slash(v@.skip(j + 1)));
        i = j + 1;
    }
}

} // verus!
