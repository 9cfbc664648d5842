//! The minimal-ISO data file: a table of the files that a minimal ISO
//! shares with the full ISO, and the packed bytes of the rest.

use crate::iso9660::{Address, File};
use crate::ignition::{bytes_eq, sha256_digest, sha256_of};
use crate::osmet::Sha256Digest;
use crate::unpack::{xz_decode_stream, xz_stream};
use vstd::prelude::*;

verus! {

/// Magic header value of a miniso data file.
pub const HEADER_MAGIC: [u8; 8] = [77, 73, 78, 73, 83, 79, 0, 0];

/// Version of the data format that this library reads and writes.
pub const HEADER_VERSION: u32 = 1;

/// Largest miniso data file we agree to read.
pub const DATA_MAX_SIZE: u64 = 1048576;

/// Why a miniso data file or table was refused.
#[derive(Debug, Clone, PartialEq, Eq)]
pub enum MinisoError {
    /// The file does not start with the miniso magic.
    NotMiniso,
    /// The file was written in another format version.
    IncompatibleVersion { found: u32, created_by: String },
    /// The two ISOs have no files in common.
    EmptyTable,
    /// Two files of the minimal ISO overlap.
    Overlap { first: u64, second: u64 },
    /// A file of the minimal ISO is missing from the full ISO.
    MissingFile { path: String },
    /// A file has different lengths in the two ISOs.
    LengthMismatch { path: String },
    /// A shared file runs past the end of the minimal ISO.
    PastEnd { offset: u64 },
    /// The xz encoder failed.
    Compress,
    /// The packed bytes are not an xz stream.
    Decompress,
    /// The packed bytes end before the gap at this offset of the minimal
    /// ISO is filled.
    PackedTooShort { offset: u64 },
    /// The full ISO ends before the shared file at this offset of it.
    FullTooShort { offset: u64 },
    /// The unpacked ISO does not have the digest recorded at packing.
    WrongDigest { expected: Vec<u8>, found: Vec<u8> },
}

/// Version-agnostic header of the data file.
#[derive(Debug, Clone)]
pub struct Header {
    pub magic: [u8; 8],
    pub version: u32,
    /// For information only.
    pub app_version: String,
}

impl Header {
    /// The header this library writes.
    pub fn new(app_version: &str) -> (r: Self)
        ensures
            r.magic@ == HEADER_MAGIC@,
            r.version == HEADER_VERSION,
            r.app_version@ == app_version@,
    {
        Header { magic: HEADER_MAGIC, version: HEADER_VERSION, app_version: app_version.to_owned() }
    }

    /// The header is one this library can read.
    pub fn validate(&self) -> (r: Result<(), MinisoError>)
        ensures
            self.magic@ != HEADER_MAGIC@ ==> r == Err::<(), MinisoError>(MinisoError::NotMiniso),
            self.magic@ == HEADER_MAGIC@ && self.version != HEADER_VERSION ==> (r matches Err(
                MinisoError::IncompatibleVersion { found, created_by },
            ) && found == self.version && created_by@ == self.app_version@),
            self.magic@ == HEADER_MAGIC@ && self.version == HEADER_VERSION ==> r is Ok,
    {
        let mut i: usize = 0;
        while i < 8
            invariant
                i <= 8,
                forall|k: int| 0 <= k < i ==> self.magic@[k] == HEADER_MAGIC@[k],
            decreases 8 - i,
        {
            if self.magic[i] != HEADER_MAGIC[i] {
                return Err(MinisoError::NotMiniso);
            }
            i += 1;
        }
        assert(self.magic@ =~= HEADER_MAGIC@);
        if self.version != HEADER_VERSION {
            return Err(
                MinisoError::IncompatibleVersion {
                    found: self.version,
                    created_by: self.app_version.clone(),
                },
            );
        }
        Ok(())
    }
}

/// A file that both ISOs hold: its place in each, and its length.
#[derive(Debug, Clone, Copy, PartialEq, Eq)]
pub struct TableEntry {
    pub minimal: Address,
    pub full: Address,
    pub length: u32,
}

/// Byte offset of an entry in the minimal ISO.
pub open spec fn minimal_offset(e: TableEntry) -> int {
    e.minimal.0 as int * 2048
}

/// The shared files, in the order of their place in the minimal ISO.
#[derive(Debug, Clone)]
pub struct Table {
    pub entries: Vec<TableEntry>,
}

/// No entry overlaps the next one in the minimal ISO.
pub open spec fn no_overlap(es: Seq<TableEntry>) -> bool {
    forall|i: int|
        0 <= i < es.len() - 1 ==> minimal_offset(#[trigger] es[i]) + es[i].length <= minimal_offset(
            es[i + 1],
        )
}

impl Table {
    /// The table is not empty, and no file overlaps the next one.
    pub fn validate(&self) -> (r: Result<(), MinisoError>)
        ensures
            self.entries@.len() == 0 ==> r == Err::<(), MinisoError>(MinisoError::EmptyTable),
            self.entries@.len() > 0 ==> (r is Ok <==> no_overlap(self.entries@)),
            r matches Err(MinisoError::Overlap { first, second }) ==> exists|i: int|
                0 <= i < self.entries@.len() - 1 && first == minimal_offset(#[trigger] self.entries@[i])
                    && second == minimal_offset(self.entries@[i + 1]) && minimal_offset(
                    self.entries@[i],
                ) + self.entries@[i].length > minimal_offset(self.entries@[i + 1]),
            r is Err ==> r == Err::<(), MinisoError>(MinisoError::EmptyTable) || r matches Err(
                MinisoError::Overlap { .. },
            ),
    {
        let n = self.entries.len();
        if n == 0 {
            return Err(MinisoError::EmptyTable);
        }
        let mut i: usize = 0;
        while i + 1 < n
            invariant
                n == self.entries@.len(),
                n > 0,
                i + 1 <= n,
                forall|k: int|
                    0 <= k < i ==> minimal_offset(#[trigger] self.entries@[k]) + self.entries@[k].length
                        <= minimal_offset(self.entries@[k + 1]),
            decreases n - i,
        {
            let e = &self.entries[i];
            let next = &self.entries[i + 1];
            let a = e.minimal.as_offset();
            let b = next.minimal.as_offset();
            if a + e.length as u64 > b {
                return Err(MinisoError::Overlap { first: a, second: b });
            }
            i += 1;
        }
        Ok(())
    }
}

/// The miniso data: the shared-file table, the digest of the minimal ISO
/// and the packed bytes of what is not shared.
#[derive(Debug, Clone)]
pub struct Data {
    pub table: Table,
    pub digest: Sha256Digest,
    pub xzpacked: Vec<u8>,
}

} // verus!

verus! {

/// The first file of `files` at `path`.
pub open spec fn lookup(files: Seq<(String, File)>, path: Seq<char>) -> Option<File>
    decreases files.len(),
{
    if files.len() == 0 {
        None
    } else if files[0].0@ == path {
        Some(files[0].1)
    } else {
        lookup(files.drop_first(), path)
    }
}

/// The file found at `path` is the one at the first index whose path is
/// `path`; none is found where no entry has that path.
pub proof fn lemma_lookup_first(files: Seq<(String, File)>, path: Seq<char>)
    ensures
        match lookup(files, path) {
            Some(f) => exists|i: int|
                0 <= i < files.len() && #[trigger] files[i].0@ == path && files[i].1 == f && forall|j: int|
                    0 <= j < i ==> #[trigger] files[j].0@ != path,
            None => forall|i: int| 0 <= i < files.len() ==> #[trigger] files[i].0@ != path,
        },
    decreases files.len(),
{
    if files.len() > 0 && files[0].0@ != path {
        let rest = files.drop_first();
        lemma_lookup_first(rest, path);
        match lookup(rest, path) {
            Some(f) => {
                let i = choose|i: int|
                    0 <= i < rest.len() && #[trigger] rest[i].0@ == path && rest[i].1 == f && forall|j: int|
                        0 <= j < i ==> #[trigger] rest[j].0@ != path;
                assert(files[i + 1] == rest[i]);
                assert forall|j: int| 0 <= j < i + 1 implies #[trigger] files[j].0@ != path by {
                    if j > 0 {
                        assert(files[j] == rest[j - 1]);
                    }
                }
            },
            None => {
                assert forall|i: int| 0 <= i < files.len() implies #[trigger] files[i].0@ != path by {
                    if i > 0 {
                        assert(files[i] == rest[i - 1]);
                    }
                }
            },
        }
    }
}

/// The checks of each minimal file from `i` on, in order: it is in the
/// full ISO, with the same length.
pub open spec fn match_check(full: Seq<(String, File)>, minimal: Seq<(String, File)>, i: int) -> Result<
    (),
    MinisoError,
>
    decreases minimal.len() - i,
{
    if i < 0 || i >= minimal.len() {
        Ok(())
    } else {
        match lookup(full, minimal[i].0@) {
            None => Err(MinisoError::MissingFile { path: minimal[i].0 }),
            Some(f) => if f.length != minimal[i].1.length {
                Err(MinisoError::LengthMismatch { path: minimal[i].0 })
            } else {
                match_check(full, minimal, i + 1)
            },
        }
    }
}

/// The table entry of a minimal file found in the full ISO as `f`.
pub open spec fn entry_of(m: File, f: File) -> TableEntry {
    TableEntry { minimal: m.address, full: f.address, length: f.length }
}

fn find_file(files: &[(String, File)], path: &str) -> (r: Option<usize>)
    ensures
        match r {
            Some(i) => i < files@.len() && lookup(files@, path@) == Some(files@[i as int].1),
            None => lookup(files@, path@) is None,
        },
{
    let p = crate::text::chars_of(path);
    let mut i: usize = 0;
    assert(files@.skip(0) =~= files@);
    while i < files.len()
        invariant
            i <= files@.len(),
            p@ == path@,
            lookup(files@, path@) == lookup(files@.skip(i as int), path@),
        decreases files@.len() - i,
    {
        assert(files@.skip(i as int)[0] == files@[i as int]);
        assert(files@.skip(i as int).drop_first() =~= files@.skip(i + 1));
        if crate::text::chars_eq(&crate::text::chars_of(files[i].0.as_str()), &p) {
            return Some(i);
        }
        i += 1;
    }
    None
}

fn entry_eq(a: &TableEntry, b: &TableEntry) -> (r: bool)
    ensures
        r == (*a == *b),
{
    a.minimal.0 == b.minimal.0 && a.full.0 == b.full.0 && a.length == b.length
}

/// The entry of minimal file `j`, with the full ISO's file at its path.
pub open spec fn entry_for(full: Seq<(String, File)>, minimal: Seq<(String, File)>, j: int) -> TableEntry {
    entry_of(minimal[j].1, lookup(full, minimal[j].0@).unwrap())
}

/// The entries of the minimal files, in order, or the first failed check.
fn lookup_entries(full_files: &[(String, File)], minimal_files: &[(String, File)]) -> (r: Result<
    Vec<TableEntry>,
    MinisoError,
>)
    ensures
        match_check(full_files@, minimal_files@, 0) matches Err(e) ==> r == Err::<
            Vec<TableEntry>,
            MinisoError,
        >(e),
        match_check(full_files@, minimal_files@, 0) is Ok ==> r is Ok,
        r matches Ok(entries) ==> {
            &&& match_check(full_files@, minimal_files@, 0) is Ok
            &&& entries@.len() == minimal_files@.len()
            &&& forall|j: int|
                0 <= j < minimal_files@.len() ==> lookup(full_files@, #[trigger] minimal_files@[j].0@) is Some
            &&& forall|j: int|
                0 <= j < entries@.len() ==> #[trigger] entries@[j] == entry_for(
                    full_files@,
                    minimal_files@,
                    j,
                ) && entries@[j].length == minimal_files@[j].1.length
        },
{
        let ghost full = full_files@;
        let ghost minimal = minimal_files@;
        // look up each minimal file
        let mut entries: Vec<TableEntry> = Vec::new();
        let mut i: usize = 0;
        while i < minimal_files.len()
            invariant
                i <= minimal.len(),
                full == full_files@,
                minimal == minimal_files@,
                match_check(full, minimal, 0) == match_check(full, minimal, i as int),
                entries@.len() == i,
                forall|j: int| 0 <= j < i ==> lookup(full, #[trigger] minimal[j].0@) is Some,
                forall|j: int| 0 <= j < i ==> #[trigger] entries@[j] == entry_for(full, minimal, j)
                    && entries@[j].length == minimal[j].1.length,
            decreases minimal.len() - i,
        {
            let m = &minimal_files[i].1;
            let f = match find_file(full_files, minimal_files[i].0.as_str()) {
                Some(k) => &full_files[k].1,
                None => return Err(MinisoError::MissingFile { path: minimal_files[i].0.clone() }),
            };
            if f.length != m.length {
                return Err(MinisoError::LengthMismatch { path: minimal_files[i].0.clone() });
            }
            entries.push(TableEntry { minimal: m.address, full: f.address, length: f.length });
            i += 1;
        }
        assert(match_check(full, minimal, i as int) is Ok);
        Ok(entries)
}

/// The entries by place in the minimal ISO, ties in their order.
fn sort_entries(entries: &Vec<TableEntry>) -> (sorted: Vec<TableEntry>)
    ensures
        sorted@.len() == entries@.len(),
        forall|a: int, b: int|
            0 <= a < b < sorted@.len() ==> (#[trigger] sorted@[a]).minimal.0
                <= (#[trigger] sorted@[b]).minimal.0,
        forall|a: int| 0 <= a < sorted@.len() ==> entries@.contains(#[trigger] sorted@[a]),
        forall|a: int| 0 <= a < entries@.len() ==> sorted@.contains(#[trigger] entries@[a]),
{
        // sort by place in the minimal ISO, keeping the order of ties
        let mut sorted: Vec<TableEntry> = Vec::new();
        let mut k: usize = 0;
        while k < entries.len()
            invariant
                k <= entries@.len(),
                sorted@.len() == k,
                forall|a: int, b: int|
                    0 <= a < b < sorted@.len() ==> (#[trigger] sorted@[a]).minimal.0
                        <= (#[trigger] sorted@[b]).minimal.0,
                forall|a: int| 0 <= a < sorted@.len() ==> entries@.contains(#[trigger] sorted@[a]),
                forall|a: int| 0 <= a < k ==> sorted@.contains(#[trigger] entries@[a]),
            decreases entries@.len() - k,
        {
            let x = entries[k];
            let mut j: usize = 0;
            while j < sorted.len() && sorted[j].minimal.0 <= x.minimal.0
                invariant
                    j <= sorted@.len(),
                    forall|a: int| 0 <= a < j ==> (#[trigger] sorted@[a]).minimal.0 <= x.minimal.0,
                decreases sorted@.len() - j,
            {
                j += 1;
            }
            let ghost old_s = sorted@;
            sorted.insert(j, x);
            proof {
                assert forall|a: int, b: int| 0 <= a < b < sorted@.len() implies (
                #[trigger] sorted@[a]).minimal.0 <= (#[trigger] sorted@[b]).minimal.0 by {
                    if a < j && b == j {
                    } else if a == j && b > j {
                        assert(sorted@[b] == old_s[b - 1]);
                        assert(old_s[j as int].minimal.0 > x.minimal.0);
                    } else if a < j && b > j {
                        assert(sorted@[a] == old_s[a] && sorted@[b] == old_s[b - 1]);
                    } else if b < j {
                        assert(sorted@[a] == old_s[a] && sorted@[b] == old_s[b]);
                    } else {
                        assert(sorted@[a] == old_s[a - 1] && sorted@[b] == old_s[b - 1]);
                    }
                }
                assert forall|a: int| 0 <= a < sorted@.len() implies entries@.contains(
                    #[trigger] sorted@[a],
                ) by {
                    if a < j {
                        assert(sorted@[a] == old_s[a]);
                    } else if a == j {
                        assert(entries@[k as int] == x);
                    } else {
                        assert(sorted@[a] == old_s[a - 1]);
                    }
                }
                assert forall|a: int| 0 <= a < k + 1 implies sorted@.contains(#[trigger] entries@[a]) by {
                    if a == k {
                        assert(sorted@[j as int] == x);
                    } else {
                        let m = choose|m: int| 0 <= m < old_s.len() && old_s[m] == entries@[a];
                        if m < j {
                            assert(sorted@[m] == entries@[a]);
                        } else {
                            assert(sorted@[m + 1] == entries@[a]);
                        }
                    }
                }
            }
            k += 1;
        }
        sorted
}

/// The non-empty entries, without repeats.
fn drop_repeats(sorted: &Vec<TableEntry>) -> (out: Vec<TableEntry>)
    requires
        forall|a: int, b: int|
            0 <= a < b < sorted@.len() ==> (#[trigger] sorted@[a]).minimal.0
                <= (#[trigger] sorted@[b]).minimal.0,
    ensures
        out@.len() <= sorted@.len(),
        forall|a: int, b: int|
            0 <= a < b < out@.len() ==> (#[trigger] out@[a]).minimal.0
                <= (#[trigger] out@[b]).minimal.0,
        forall|a: int| 0 <= a < out@.len() ==> (#[trigger] out@[a]).length > 0,
        forall|a: int| 0 <= a < out@.len() - 1 ==> #[trigger] out@[a] != out@[a + 1],
        forall|a: int| 0 <= a < out@.len() ==> sorted@.contains(#[trigger] out@[a]),
        forall|a: int|
            0 <= a < sorted@.len() && (#[trigger] sorted@[a]).length > 0 ==> out@.contains(sorted@[a]),
{
        // drop empty files and repeated entries
        let mut out: Vec<TableEntry> = Vec::new();
        let mut n: usize = 0;
        while n < sorted.len()
            invariant
                n <= sorted@.len(),
                out@.len() <= n,
                forall|a: int, b: int|
                    0 <= a < b < sorted@.len() ==> (#[trigger] sorted@[a]).minimal.0
                        <= (#[trigger] sorted@[b]).minimal.0,
                forall|a: int, b: int|
                    0 <= a < b < out@.len() ==> (#[trigger] out@[a]).minimal.0
                        <= (#[trigger] out@[b]).minimal.0,
                out@.len() > 0 ==> exists|m: int| 0 <= m < n && sorted@[m] == out@.last(),
                forall|a: int| 0 <= a < out@.len() ==> (#[trigger] out@[a]).length > 0,
                forall|a: int| 0 <= a < out@.len() - 1 ==> #[trigger] out@[a] != out@[a + 1],
                forall|a: int| 0 <= a < out@.len() ==> sorted@.contains(#[trigger] out@[a]),
                forall|a: int|
                    0 <= a < n && (#[trigger] sorted@[a]).length > 0 ==> out@.contains(sorted@[a]),
            decreases sorted@.len() - n,
        {
            let e = sorted[n];
            let ghost old_out = out@;
            if e.length > 0 && (out.len() == 0 || !entry_eq(&out[out.len() - 1], &e)) {
                out.push(e);
                proof {
                    assert forall|a: int, b: int| 0 <= a < b < out@.len() implies (
                    #[trigger] out@[a]).minimal.0 <= (#[trigger] out@[b]).minimal.0 by {
                        if b == old_out.len() {
                            let m = choose|m: int| 0 <= m < n && sorted@[m] == old_out.last();
                            if a < old_out.len() - 1 {
                                assert(out@[a] == old_out[a]);
                                assert(old_out[a].minimal.0 <= old_out.last().minimal.0);
                            }
                            assert(sorted@[m].minimal.0 <= sorted@[n as int].minimal.0);
                        } else {
                            assert(out@[a] == old_out[a] && out@[b] == old_out[b]);
                        }
                    }
                    assert(sorted@[n as int] == out@.last());
                    assert forall|a: int| 0 <= a < out@.len() implies sorted@.contains(#[trigger] out@[a]) by {
                        if a < old_out.len() {
                            assert(out@[a] == old_out[a]);
                        }
                    }
                    assert forall|a: int| 0 <= a < n + 1 && (#[trigger] sorted@[a]).length > 0 implies out@.contains(
                        sorted@[a],
                    ) by {
                        if a < n {
                            let m = choose|m: int| 0 <= m < old_out.len() && old_out[m] == sorted@[a];
                            assert(out@[m] == sorted@[a]);
                        } else {
                            assert(out@[old_out.len() as int] == sorted@[a]);
                        }
                    }
                    assert forall|a: int| 0 <= a < out@.len() - 1 implies #[trigger] out@[a] != out@[a + 1] by {
                        if a < old_out.len() - 1 {
                            assert(out@[a] == old_out[a] && out@[a + 1] == old_out[a + 1]);
                        }
                    }
                }
            } else {
                proof {
                    assert forall|a: int| 0 <= a < n + 1 && (#[trigger] sorted@[a]).length > 0 implies out@.contains(
                        sorted@[a],
                    ) by {
                        if a == n {
                            assert(out@[out@.len() - 1] == sorted@[a]);
                        }
                    }
                }
            }
            n += 1;
        }
        out
}

/// `es` is the table of the files that the minimal ISO shares with the
/// full one, and `extra` the number of minimal files it leaves out: every
/// minimal file is found in the full ISO with its length; the entries are
/// sorted by their place in the minimal ISO, none repeats the one before,
/// none is empty or overlaps the next; they are the entries of the
/// non-empty minimal files.
pub open spec fn table_of(
    full_files: Seq<(String, File)>,
    minimal_files: Seq<(String, File)>,
    es: Seq<TableEntry>,
    extra: int,
) -> bool {
    &&& match_check(full_files, minimal_files, 0) is Ok
    &&& es.len() > 0
    &&& no_overlap(es)
    &&& extra == minimal_files.len() - es.len()
    &&& forall|a: int, b: int|
        0 <= a < b < es.len() ==> (#[trigger] es[a]).minimal.0 <= (#[trigger] es[b]).minimal.0
    &&& forall|k: int| 0 <= k < es.len() - 1 ==> #[trigger] es[k] != es[k + 1]
    &&& forall|k: int|
        #![trigger es[k]]
        0 <= k < es.len() ==> es[k].length > 0 && exists|j: int|
            0 <= j < minimal_files.len() && es[k] == #[trigger] entry_for(full_files, minimal_files, j)
    &&& forall|j: int|
        #![trigger minimal_files[j]]
        0 <= j < minimal_files.len() && minimal_files[j].1.length > 0 ==> exists|k: int|
            0 <= k < es.len() && #[trigger] es[k] == entry_for(full_files, minimal_files, j)
}

impl Table {
    /// The table of the files that the minimal ISO shares with the full
    /// one, by their place in the minimal ISO; empty files and repeated
    /// entries (hard links) are left out, and their number returned.
    pub fn new(full_files: &[(String, File)], minimal_files: &[(String, File)]) -> (r: Result<
        (Table, usize),
        MinisoError,
    >)
        ensures
            match_check(full_files@, minimal_files@, 0) matches Err(e) ==> r == Err::<
                (Table, usize),
                MinisoError,
            >(e),
            r matches Ok((t, extra)) ==> table_of(full_files@, minimal_files@, t.entries@, extra as int),
            match_check(full_files@, minimal_files@, 0) is Ok && r is Err ==> r == Err::<
                (Table, usize),
                MinisoError,
            >(MinisoError::EmptyTable) || r matches Err(MinisoError::Overlap { .. }),
    {
        let ghost full = full_files@;
        let ghost minimal = minimal_files@;
        let entries = match lookup_entries(full_files, minimal_files) {
            Ok(e) => e,
            Err(e) => return Err(e),
        };
        let sorted = sort_entries(&entries);
        let out = drop_repeats(&sorted);
        let extra = minimal_files.len() - out.len();
        let table = Table { entries: out };
        match table.validate() {
            Ok(()) => {},
            Err(e) => return Err(e),
        }
        proof {
            assert forall|k: int|
                #![trigger table.entries@[k]]
                0 <= k < table.entries@.len() implies table.entries@[k].length > 0 && exists|j: int|
                    0 <= j < minimal.len() && table.entries@[k] == #[trigger] entry_for(full, minimal, j) by {
                assert(sorted@.contains(table.entries@[k]));
                let m = choose|m: int| 0 <= m < sorted@.len() && sorted@[m] == table.entries@[k];
                assert(entries@.contains(sorted@[m]));
                let j = choose|j: int| 0 <= j < entries@.len() && entries@[j] == sorted@[m];
                assert(entries@[j] == entry_for(full, minimal, j));
            }
            assert forall|j: int|
                #![trigger minimal_files@[j]]
                0 <= j < minimal.len() && minimal_files@[j].1.length > 0 implies exists|k: int|
                    0 <= k < table.entries@.len() && #[trigger] table.entries@[k] == entry_for(full, minimal, j) by {
                assert(entries@[j] == entry_for(full, minimal, j));
                assert(lookup(full, minimal[j].0@) is Some);
                assert(sorted@.contains(entries@[j]));
                let m = choose|m: int| 0 <= m < sorted@.len() && sorted@[m] == entries@[j];
                assert(sorted@[m].length > 0);
                assert(table.entries@.contains(sorted@[m]));
            }
        }
        Ok((table, extra))
    }
}

} // verus!

verus! {

/// Offset just past an entry in the minimal ISO.
pub open spec fn minimal_end(e: TableEntry) -> int {
    minimal_offset(e) + e.length
}

/// Byte offset of an entry in the full ISO.
pub open spec fn full_offset(e: TableEntry) -> int {
    e.full.0 as int * 2048
}

/// The last entry ends within the first `len` bytes.
pub open spec fn ends_within(es: Seq<TableEntry>, len: int) -> bool {
    es.len() > 0 ==> minimal_end(es.last()) <= len
}

/// The bytes of `m` from `off` on that the entries from `i` on leave out.
pub open spec fn gaps_from(m: Seq<u8>, es: Seq<TableEntry>, i: int, off: int) -> Seq<u8>
    decreases es.len() - i,
{
    if i < 0 || i >= es.len() {
        m.subrange(off, m.len() as int)
    } else {
        m.subrange(off, minimal_offset(es[i])) + gaps_from(m, es, i + 1, minimal_end(es[i]))
    }
}

/// What packing keeps of a minimal ISO: its bytes outside the shared
/// files, in order.
pub open spec fn packed_gaps(m: Seq<u8>, es: Seq<TableEntry>) -> Seq<u8> {
    gaps_from(m, es, 0, 0)
}

/// The total length of the first `i` entries.
pub open spec fn shared_len(es: Seq<TableEntry>, i: int) -> int
    decreases i,
{
    if i <= 0 {
        0
    } else {
        shared_len(es, i - 1) + es[i - 1].length
    }
}

/// What unpacking writes from entry `i` on, where `p` holds the packed
/// bytes not yet used and `off` is the offset reached in the minimal ISO:
/// before each entry the packed bytes up to its offset, then its bytes
/// from the full ISO; at the end the packed bytes left.
pub open spec fn rebuild_from(p: Seq<u8>, full: Seq<u8>, es: Seq<TableEntry>, i: int, off: int) -> Result<
    Seq<u8>,
    MinisoError,
>
    decreases es.len() - i,
{
    if i < 0 || i >= es.len() {
        Ok(p)
    } else {
        let g = if minimal_offset(es[i]) > off {
            minimal_offset(es[i]) - off
        } else {
            0
        };
        let f = full_offset(es[i]);
        if g > p.len() {
            Err(MinisoError::PackedTooShort { offset: off as u64 })
        } else if f + es[i].length > full.len() {
            Err(MinisoError::FullTooShort { offset: f as u64 })
        } else {
            match rebuild_from(p.skip(g), full, es, i + 1, off + g + es[i].length) {
                Ok(rest) => Ok(p.take(g) + full.subrange(f, f + es[i].length) + rest),
                Err(e) => Err(e),
            }
        }
    }
}

/// The minimal ISO rebuilt from the packed bytes and the full ISO.
pub open spec fn rebuilt(p: Seq<u8>, full: Seq<u8>, es: Seq<TableEntry>) -> Result<Seq<u8>, MinisoError> {
    rebuild_from(p, full, es, 0, 0)
}

/// The full ISO holds the bytes of the entry's file, at its place there.
pub open spec fn shares_file(m: Seq<u8>, full: Seq<u8>, e: TableEntry) -> bool {
    &&& full_offset(e) + e.length <= full.len()
    &&& full.subrange(full_offset(e), full_offset(e) + e.length) == m.subrange(
        minimal_offset(e),
        minimal_end(e),
    )
}

/// Entries that do not overlap end no later than the ones after them.
pub proof fn lemma_ends_ordered(es: Seq<TableEntry>, i: int, j: int)
    requires
        no_overlap(es),
        0 <= i <= j < es.len(),
    ensures
        minimal_end(es[i]) <= minimal_end(es[j]),
        i < j ==> minimal_end(es[i]) <= minimal_offset(es[j]),
    decreases j - i,
{
    if i < j {
        lemma_ends_ordered(es, i, j - 1);
        assert(minimal_end(es[j - 1]) <= minimal_offset(es[j]));
    }
}

proof fn lemma_rebuild_from(m: Seq<u8>, full: Seq<u8>, es: Seq<TableEntry>, i: int, off: int)
    requires
        no_overlap(es),
        ends_within(es, m.len() as int),
        forall|k: int| 0 <= k < es.len() ==> shares_file(m, full, #[trigger] es[k]),
        0 <= i <= es.len(),
        0 <= off <= m.len(),
        i < es.len() ==> off <= minimal_offset(es[i]),
    ensures
        rebuild_from(gaps_from(m, es, i, off), full, es, i, off) == Ok::<Seq<u8>, MinisoError>(
            m.subrange(off, m.len() as int),
        ),
    decreases es.len() - i,
{
    if i < es.len() {
        let e = es[i];
        lemma_ends_ordered(es, i, es.len() - 1);
        let a = minimal_offset(e);
        let end = minimal_end(e);
        if i + 1 < es.len() {
            lemma_ends_ordered(es, i, i + 1);
        }
        lemma_rebuild_from(m, full, es, i + 1, end);
        let p = gaps_from(m, es, i, off);
        let rest = gaps_from(m, es, i + 1, end);
        assert(p == m.subrange(off, a) + rest);
        assert(p.take(a - off) =~= m.subrange(off, a));
        assert(p.skip(a - off) =~= rest);
        assert(shares_file(m, full, e));
        assert(m.subrange(off, a) + m.subrange(a, end) + m.subrange(end, m.len() as int) =~= m.subrange(
            off,
            m.len() as int,
        ));
    }
}

/// Unpacking what packing kept of a minimal ISO, against a full ISO that
/// holds each shared file's bytes, gives back the minimal ISO.
pub proof fn lemma_unpack_inverts_pack(m: Seq<u8>, full: Seq<u8>, es: Seq<TableEntry>)
    requires
        no_overlap(es),
        ends_within(es, m.len() as int),
        forall|k: int| 0 <= k < es.len() ==> shares_file(m, full, #[trigger] es[k]),
    ensures
        rebuilt(packed_gaps(m, es), full, es) == Ok::<Seq<u8>, MinisoError>(m),
{
    lemma_rebuild_from(m, full, es, 0, 0);
    assert(m.subrange(0, m.len() as int) =~= m);
}

} // verus!

verus! {

/// The xz stream that `xz2::write::XzEncoder` at preset 9 writes for the
/// data.
pub uninterp spec fn xz_compressed(data: Seq<u8>) -> Seq<u8>;

/// `xz2::write::XzEncoder::new(Vec::new(), 9)`: the data written, then
/// `finish`. The output is `xz_compressed` of the data, and its xz stream
/// decodes to the data; `None` where the encoder fails.
#[verifier::external_body]
fn xz_compress(data: &[u8]) -> (r: Option<Vec<u8>>)
    ensures
        r matches Some(b) ==> b@ == xz_compressed(data@) && xz_stream(b@) is Some && xz_stream(
            b@,
        )->Some_0.0 == data@,
{
    let mut e = xz2::write::XzEncoder::new(Vec::new(), 9);
    std::io::Write::write_all(&mut e, data).ok()?;
    e.finish().ok()
}

/// Appends `src[start..end]` to `out`.
fn push_range(out: &mut Vec<u8>, src: &[u8], start: usize, end: usize)
    requires
        start <= end <= src@.len(),
    ensures
        final(out)@ == old(out)@ + src@.subrange(start as int, end as int),
{
    let mut k: usize = start;
    while k < end
        invariant
            start <= k <= end <= src@.len(),
            out@ == old(out)@ + src@.subrange(start as int, k as int),
        decreases end - k,
    {
        out.push(src[k]);
        k += 1;
        assert(out@ =~= old(out)@ + src@.subrange(start as int, k as int));
    }
}

/// The bytes of the minimal ISO outside the shared files, and the bytes
/// the shared files hold; `None` where a file runs past the end.
fn gaps_of(entries: &Vec<TableEntry>, miniso: &[u8]) -> (r: Option<(Vec<u8>, u64)>)
    requires
        no_overlap(entries@),
    ensures
        r is Some <==> ends_within(entries@, miniso@.len() as int),
        r matches Some((g, s)) ==> g@ == packed_gaps(miniso@, entries@) && s == shared_len(
            entries@,
            entries@.len() as int,
        ),
{
    let n = entries.len();
    if n > 0 {
        let last = entries[n - 1];
        if last.minimal.as_offset() + last.length as u64 > miniso.len() as u64 {
            return None;
        }
    }
    let ghost es = entries@;
    let ghost m = miniso@;
    let mlen = miniso.len();
    let mut out: Vec<u8> = Vec::new();
    let mut skipped: u64 = 0;
    let mut off: usize = 0;
    let mut i: usize = 0;
    while i < n
        invariant
            n == es.len(),
            es == entries@,
            m == miniso@,
            mlen == m.len(),
            i <= n,
            no_overlap(es),
            ends_within(es, m.len() as int),
            off <= m.len(),
            i < n ==> off <= minimal_offset(es[i as int]),
            out@ + gaps_from(m, es, i as int, off as int) == packed_gaps(m, es),
            skipped == shared_len(es, i as int),
            out@.len() + skipped == off,
        decreases n - i,
    {
        let e = entries[i];
        proof {
            lemma_ends_ordered(es, i as int, n - 1);
            assert(es.last() == es[n - 1]);
            assert(minimal_end(e) <= m.len());
            if i + 1 < n {
                lemma_ends_ordered(es, i as int, i + 1);
            }
        }
        let a64 = e.minimal.as_offset();
        assert(e == es[i as int]);
        assert(a64 == minimal_offset(e));
        assert(a64 + e.length <= m.len());
        let a = a64 as usize;
        let end = a + e.length as usize;
        assert(a == minimal_offset(e) && end == minimal_end(e));
        let ghost before = out@;
        push_range(&mut out, miniso, off, a);
        proof {
            let g1 = m.subrange(off as int, a as int);
            let rest = gaps_from(m, es, i + 1, end as int);
            assert(gaps_from(m, es, i as int, off as int) == g1 + rest);
            assert(out@ == before + g1);
            assert(out@ + rest =~= before + (g1 + rest));
        }
        skipped = skipped + e.length as u64;
        off = end;
        i += 1;
    }
    let ghost before = out@;
    push_range(&mut out, miniso, off, miniso.len());
    assert(out@ =~= before + gaps_from(m, es, i as int, off as int));
    Some((out, skipped))
}

/// The digest's bytes.
fn digest_bytes(d: &Sha256Digest) -> (r: Vec<u8>)
    ensures
        r@ == d.0@,
{
    let mut out: Vec<u8> = Vec::new();
    let mut k: usize = 0;
    while k < 32
        invariant
            k <= 32,
            out@ == d.0@.take(k as int),
        decreases 32 - k,
    {
        out.push(d.0[k]);
        k += 1;
        assert(out@ =~= d.0@.take(k as int));
    }
    assert(d.0@.take(32) =~= d.0@);
    out
}

/// A digest of 32 bytes.
fn digest_from(v: &Vec<u8>) -> (r: Sha256Digest)
    requires
        v@.len() == 32,
    ensures
        r.0@ == v@,
{
    let mut out: [u8; 32] = [0u8; 32];
    let mut k: usize = 0;
    while k < 32
        invariant
            k <= 32,
            v@.len() == 32,
            out@.len() == 32,
            forall|j: int| 0 <= j < k ==> out@[j] == v@[j],
        decreases 32 - k,
    {
        out[k] = v[k];
        k += 1;
    }
    assert(out@ =~= v@);
    Sha256Digest(out)
}

} // verus!

verus! {

/// Rebuilds the minimal ISO from the packed bytes and the full ISO.
fn rebuild(p: &[u8], full: &[u8], entries: &Vec<TableEntry>) -> (r: Result<Vec<u8>, MinisoError>)
    ensures
        match rebuilt(p@, full@, entries@) {
            Ok(v) => r matches Ok(o) && o@ == v,
            Err(e) => r == Err::<Vec<u8>, MinisoError>(e),
        },
{
    let ghost es = entries@;
    let n = entries.len();
    let plen = p.len();
    let flen = full.len();
    let mut out: Vec<u8> = Vec::new();
    let mut pos: usize = 0;
    let mut off: u128 = 0;
    let mut i: usize = 0;
    proof {
        assert(p@.skip(0) =~= p@);
        match rebuilt(p@, full@, es) {
            Ok(v) => {
                assert(out@ + v =~= v);
            },
            Err(_) => {},
        }
    }
    while i < n
        invariant
            es == entries@,
            n == es.len(),
            i <= n,
            plen == p@.len(),
            flen == full@.len(),
            pos <= plen,
            off <= 0x1000_0000_0000 + i * 0x1_0000_0000,
            match rebuild_from(p@.skip(pos as int), full@, es, i as int, off as int) {
                Ok(rest) => rebuilt(p@, full@, es) == Ok::<Seq<u8>, MinisoError>(out@ + rest),
                Err(e) => rebuilt(p@, full@, es) == Err::<Seq<u8>, MinisoError>(e),
            },
        decreases n - i,
    {
        let e = entries[i];
        assert(e == es[i as int]);
        let a = e.minimal.as_offset() as u128;
        let g: u128 = if a > off {
            a - off
        } else {
            0
        };
        let f = e.full.as_offset();
        let ghost q = p@.skip(pos as int);
        if g > (plen - pos) as u128 {
            return Err(MinisoError::PackedTooShort { offset: off as u64 });
        }
        if f + e.length as u64 > flen as u64 {
            return Err(MinisoError::FullTooShort { offset: f });
        }
        let gu = g as usize;
        let fu = f as usize;
        let len = e.length as usize;
        let ghost before = out@;
        push_range(&mut out, p, pos, pos + gu);
        push_range(&mut out, full, fu, fu + len);
        proof {
            let fs = full@.subrange(fu as int, fu + len);
            assert(q.take(gu as int) =~= p@.subrange(pos as int, pos + gu));
            assert(q.skip(gu as int) =~= p@.skip(pos + gu));
            assert(out@ == before + q.take(gu as int) + fs);
            match rebuild_from(q.skip(gu as int), full@, es, i + 1, off + gu + len) {
                Ok(rest) => {
                    assert(before + (q.take(gu as int) + fs + rest) =~= out@ + rest);
                },
                Err(_) => {},
            }
        }
        pos = pos + gu;
        off = off + g + e.length as u128;
        i += 1;
    }
    let ghost before = out@;
    push_range(&mut out, p, pos, plen);
    assert(p@.skip(pos as int) =~= p@.subrange(pos as int, plen as int));
    Ok(out)
}

impl Data {
    /// Packs a minimal ISO against a full one: the table of the files they
    /// share, the digest of the minimal ISO, and its other bytes,
    /// xz-compressed. Also returns the number of minimal files matched,
    /// the bytes the shared files hold, and the bytes compressed, before
    /// and after.
    pub fn xzpack(miniso: &[u8], full_files: &[(String, File)], minimal_files: &[(String, File)]) -> (r:
        Result<(Data, usize, u64, u64, u64), MinisoError>)
        ensures
            match_check(full_files@, minimal_files@, 0) matches Err(e) ==> r == Err::<
                (Data, usize, u64, u64, u64),
                MinisoError,
            >(e),
            r matches Ok((d, matches, skipped, written, compressed)) ==> {
                let es = d.table.entries@;
                let g = packed_gaps(miniso@, es);
                &&& table_of(full_files@, minimal_files@, es, minimal_files@.len() - es.len())
                &&& matches == minimal_files@.len()
                &&& ends_within(es, miniso@.len() as int)
                &&& d.digest.0@ == sha256_digest(miniso@)
                &&& d.xzpacked@ == xz_compressed(g)
                &&& xz_stream(d.xzpacked@) is Some
                &&& xz_stream(d.xzpacked@)->Some_0.0 == g
                &&& skipped == shared_len(es, es.len() as int)
                &&& written == g.len()
                &&& compressed == d.xzpacked@.len()
            },
            r matches Err(MinisoError::PastEnd { .. }) ==> exists|es: Seq<TableEntry>, extra: int|
                table_of(full_files@, minimal_files@, es, extra) && !ends_within(es, miniso@.len() as int),
            match_check(full_files@, minimal_files@, 0) is Ok && r is Err ==> {
                ||| r == Err::<(Data, usize, u64, u64, u64), MinisoError>(MinisoError::EmptyTable)
                ||| r matches Err(MinisoError::Overlap { .. })
                ||| r matches Err(MinisoError::PastEnd { .. })
                ||| r == Err::<(Data, usize, u64, u64, u64), MinisoError>(MinisoError::Compress)
            },
    {
        proof {
            lemma_match_check_errors(full_files@, minimal_files@, 0);
        }
        let (table, _) = match Table::new(full_files, minimal_files) {
            Ok(t) => t,
            Err(e) => return Err(e),
        };
        let digest = digest_from(&sha256_of(miniso));
        let (gaps, skipped) = match gaps_of(&table.entries, miniso) {
            Some(x) => x,
            None => {
                let last = table.entries[table.entries.len() - 1];
                return Err(MinisoError::PastEnd { offset: last.minimal.as_offset() });
            },
        };
        let xzpacked = match xz_compress(gaps.as_slice()) {
            Some(b) => b,
            None => return Err(MinisoError::Compress),
        };
        // every minimal file matched: the entries, and the empty files and
        // repeats left out of them
        let matches = minimal_files.len();
        let written = gaps.len() as u64;
        let compressed = xzpacked.len() as u64;
        Ok((Data { table, digest, xzpacked }, matches, skipped, written, compressed))
    }

    /// Rebuilds the minimal ISO from the packed bytes and the full ISO, and
    /// checks it against the digest recorded at packing.
    pub fn unxzpack(&self, full: &[u8]) -> (r: Result<Vec<u8>, MinisoError>)
        ensures
            match xz_stream(self.xzpacked@) {
                None => r == Err::<Vec<u8>, MinisoError>(MinisoError::Decompress),
                Some((p, _)) => match rebuilt(p, full@, self.table.entries@) {
                    Err(e) => r == Err::<Vec<u8>, MinisoError>(e),
                    Ok(v) => if sha256_digest(v) == self.digest.0@ {
                        r matches Ok(o) && o@ == v
                    } else {
                        r matches Err(MinisoError::WrongDigest { expected, found })
                            && expected@ == self.digest.0@ && found@ == sha256_digest(v)
                    },
                },
            },
    {
        let p = match xz_decode_stream(self.xzpacked.as_slice()) {
            Some((p, _)) => p,
            None => return Err(MinisoError::Decompress),
        };
        let v = match rebuild(p.as_slice(), full, &self.table.entries) {
            Ok(v) => v,
            Err(e) => return Err(e),
        };
        let found = sha256_of(v.as_slice());
        let expected = digest_bytes(&self.digest);
        if !bytes_eq(expected.as_slice(), found.as_slice()) {
            return Err(MinisoError::WrongDigest { expected, found });
        }
        Ok(v)
    }
}

/// The checks of the minimal files fail only on a missing file or a
/// length that differs.
proof fn lemma_match_check_errors(full: Seq<(String, File)>, minimal: Seq<(String, File)>, i: int)
    ensures
        match_check(full, minimal, i) is Err ==> match_check(full, minimal, i) matches Err(
            MinisoError::MissingFile { .. },
        ) || match_check(full, minimal, i) matches Err(MinisoError::LengthMismatch { .. }),
    decreases minimal.len() - i,
{
    if 0 <= i < minimal.len() {
        lemma_match_check_errors(full, minimal, i + 1);
    }
}

/// Extracting a minimal ISO from what packing it kept, against a full ISO
/// that holds each shared file's bytes, gives back the minimal ISO, whose
/// digest is the one recorded.
pub proof fn lemma_xzpack_roundtrip(m: Seq<u8>, full: Seq<u8>, d: Data)
    requires
        no_overlap(d.table.entries@),
        ends_within(d.table.entries@, m.len() as int),
        d.digest.0@ == sha256_digest(m),
        xz_stream(d.xzpacked@) is Some,
        xz_stream(d.xzpacked@)->Some_0.0 == packed_gaps(m, d.table.entries@),
        forall|k: int|
            0 <= k < d.table.entries@.len() ==> shares_file(m, full, #[trigger] d.table.entries@[k]),
    ensures
        rebuilt(xz_stream(d.xzpacked@)->Some_0.0, full, d.table.entries@) == Ok::<Seq<u8>, MinisoError>(m),
        sha256_digest(m) == d.digest.0@,
{
    lemma_unpack_inverts_pack(m, full, d.table.entries@);
}

} // verus!
