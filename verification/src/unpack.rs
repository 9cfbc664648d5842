//! Reading an initrd: a run of CPIO archives, each uncompressed or
//! compressed with gzip, xz or zstd, with zero padding between them.

use crate::initrd::{
    archive_spec, common_len, glob_match, lemma_pairs_map_append, new_dirs, pairs_map, parent_dirs,
    ArchiveError, GlobMatcher,
    Initrd, DIR_MODE, FILE_MODE,
};
use crate::io::{sniff_compression, sniff_spec, Compression};
use std::io::Read;
use vstd::prelude::*;

verus! {

/// The xz stream at the start of the bytes, decoded, and how many bytes
/// it took.
pub uninterp spec fn xz_stream(data: Seq<u8>) -> Option<(Seq<u8>, nat)>;

/// The gzip member at the start of the bytes, decoded, and how many bytes
/// it took.
pub uninterp spec fn gzip_member(data: Seq<u8>) -> Option<(Seq<u8>, nat)>;

/// The zstd frame at the start of the bytes, decoded, and how many bytes
/// it took.
pub uninterp spec fn zstd_frame(data: Seq<u8>) -> Option<(Seq<u8>, nat)>;

/// The newc CPIO entry at the start of the bytes: its name, mode and
/// contents, whether it is the trailer, and how many bytes it took.
pub uninterp spec fn cpio_entry(data: Seq<u8>) -> Option<(Seq<char>, u32, Seq<u8>, bool, nat)>;

/// One xz stream with `xz2::write::XzDecoder`: `write_all` of the data,
/// which ends with `ErrorKind::WriteZero` where the stream ended before
/// the data did (its `write` takes nothing after the end of the stream),
/// then `total_in` for the bytes taken and `finish` for the output.
/// `None` where the decoder fails.
#[verifier::external_body]
pub(crate) fn xz_decode_stream(data: &[u8]) -> (r: Option<(Vec<u8>, usize)>)
    ensures
        match r {
            Some((out, n)) => xz_stream(data@) == Some((out@, n as nat)) && n <= data@.len(),
            None => xz_stream(data@) is None,
        },
{
    let mut d = xz2::write::XzDecoder::new(Vec::new());
    if let Err(e) = std::io::Write::write_all(&mut d, data) {
        if e.kind() != std::io::ErrorKind::WriteZero {
            return None;
        }
    }
    let taken = d.total_in() as usize;
    d.finish().ok().map(|out| (out, taken))
}

/// One gzip member with `flate2::bufread::GzDecoder` over the bytes: the
/// output of `read_to_end`, and the length of the input the decoder left.
/// `None` where it fails.
#[verifier::external_body]
fn gzip_decode_member(data: &[u8]) -> (r: Option<(Vec<u8>, usize)>)
    ensures
        match r {
            Some((out, rest)) => rest <= data@.len() && gzip_member(data@) == Some(
                (out@, (data@.len() - rest) as nat),
            ),
            None => gzip_member(data@) is None,
        },
{
    let mut d = flate2::bufread::GzDecoder::new(data);
    let mut out = Vec::new();
    d.read_to_end(&mut out).ok()?;
    Some((out, d.into_inner().len()))
}

/// One zstd frame with `zstd::stream::read::Decoder` in single-frame mode:
/// the output of `read_to_end`, and the length of the input the decoder
/// left. `None` where it fails.
#[verifier::external_body]
fn zstd_decode_frame(data: &[u8]) -> (r: Option<(Vec<u8>, usize)>)
    ensures
        match r {
            Some((out, rest)) => rest <= data@.len() && zstd_frame(data@) == Some(
                (out@, (data@.len() - rest) as nat),
            ),
            None => zstd_frame(data@) is None,
        },
{
    let mut d = zstd::stream::read::Decoder::with_buffer(data).ok()?.single_frame();
    let mut out = Vec::new();
    d.read_to_end(&mut out).ok()?;
    Some((out, d.finish().len()))
}

/// One entry with `cpio::NewcReader`: its name, mode and contents (read
/// to the end), whether it is the trailer, and the bytes taken up to the
/// reader's `finish`, as the length of the input it left. `None` where
/// the reader fails.
#[verifier::external_body]
fn read_cpio_entry(data: &[u8]) -> (r: Option<(String, u32, Vec<u8>, bool, usize)>)
    ensures
        match r {
            Some((name, mode, contents, trailer, rest)) => rest <= data@.len() && cpio_entry(data@)
                == Some((name@, mode, contents@, trailer, (data@.len() - rest) as nat)),
            None => cpio_entry(data@) is None,
        },
{
    let mut reader = cpio::NewcReader::new(data).ok()?;
    let name = reader.entry().name().to_string();
    let mode = reader.entry().mode();
    let trailer = reader.entry().is_trailer();
    let mut contents = Vec::new();
    reader.read_to_end(&mut contents).ok()?;
    Some((name, mode, contents, trailer, reader.finish().ok()?.len()))
}

/// The entries of the CPIO archive at the start of the bytes, up to its
/// trailer, and the bytes it took.
pub open spec fn cpio_archive(data: Seq<u8>) -> Option<(Seq<(Seq<char>, u32, Seq<u8>)>, nat)>
    decreases data.len(),
{
    match cpio_entry(data) {
        None => None,
        Some((name, mode, contents, trailer, n)) => if n == 0 || n > data.len() {
            None
        } else if trailer {
            Some((seq![], n))
        } else {
            match cpio_archive(data.skip(n as int)) {
                None => None,
                Some((es, m)) => Some((seq![(name, mode, contents)] + es, n + m)),
            }
        },
    }
}

/// The zstd frames at the start of the bytes, one after another while
/// the next four bytes start a frame, decoded, and the bytes they took.
pub open spec fn zstd_frames(data: Seq<u8>) -> Option<(Seq<u8>, nat)>
    decreases data.len(),
{
    if data.len() < 4 || !is_zstd_start(data) {
        Some((seq![], 0))
    } else {
        match zstd_frame(data) {
            None => None,
            Some((out, n)) => if n == 0 || n > data.len() {
                None
            } else {
                match zstd_frames(data.skip(n as int)) {
                    None => None,
                    Some((rest, m)) => Some((out + rest, n + m)),
                }
            },
        }
    }
}

pub open spec fn is_zstd_start(data: Seq<u8>) -> bool {
    let w = crate::io::le_u32([data[0], data[1], data[2], data[3]]);
    w == crate::io::ZSTD_MAGIC || w & crate::io::ZSTD_MAGIC_SKIPPABLE_MASK
        == crate::io::ZSTD_MAGIC_SKIPPABLE_START
}

/// The bytes with their leading zeros removed.
pub open spec fn skip_zeros(data: Seq<u8>) -> Seq<u8>
    decreases data.len(),
{
    if data.len() > 0 && data[0] == 0 {
        skip_zeros(data.drop_first())
    } else {
        data
    }
}

/// The decompressed contents of the archive at the start of the bytes,
/// and the bytes it took; an uncompressed archive is its own contents.
pub open spec fn decompressed(data: Seq<u8>) -> Option<(Seq<u8>, nat)> {
    match sniff_spec(data.take(if data.len() < 6 { data.len() as int } else { 6 })) {
        Compression::Uncompressed => Some((data, 0)),
        Compression::Gzip => gzip_member(data),
        Compression::Xz => xz_stream(data),
        Compression::Zstd => zstd_frames(data),
    }
}

/// The entries of the archives in the bytes, in order: each archive is
/// followed by zero padding, and a compressed archive holds nothing but
/// zeros after its trailer.
pub open spec fn archives(data: Seq<u8>) -> Option<Seq<(Seq<char>, u32, Seq<u8>)>>
    decreases data.len(),
{
    if data.len() == 0 {
        Some(seq![])
    } else {
        let c = sniff_spec(data.take(if data.len() < 6 { data.len() as int } else { 6 }));
        match decompressed(data) {
            None => None,
            Some((contents, used)) => match cpio_archive(contents) {
                None => None,
                Some((es, m)) => {
                    let taken = if c == Compression::Uncompressed {
                        m
                    } else {
                        used
                    };
                    if c != Compression::Uncompressed && !all_zero(contents.skip(m as int)) {
                        None
                    } else if taken == 0 || taken > data.len() {
                        None
                    } else {
                        proof {
                            lemma_skip_zeros_len(data.skip(taken as int));
                        }
                        match archives(skip_zeros(data.skip(taken as int))) {
                            None => None,
                            Some(rest) => Some(es + rest),
                        }
                    }
                },
            },
        }
    }
}

pub open spec fn all_zero(b: Seq<u8>) -> bool {
    forall|i: int| 0 <= i < b.len() ==> b[i] == 0
}

/// A regular file.
pub open spec fn is_regular(mode: u32) -> bool {
    mode & 0o170000 == 0o100000
}

/// The files that the entries leave, a later entry replacing an earlier
/// one with the same name: the regular files whose names `keep` accepts.
pub open spec fn files_of(
    es: Seq<(Seq<char>, u32, Seq<u8>)>,
    keep: spec_fn(Seq<char>) -> bool,
) -> Map<Seq<char>, Seq<u8>>
    decreases es.len(),
{
    if es.len() == 0 {
        Map::empty()
    } else {
        let e = es.last();
        let m = files_of(es.drop_last(), keep);
        if is_regular(e.1) && keep(e.0) {
            m.insert(e.0, e.2)
        } else {
            m
        }
    }
}


/// One xz stream that holds a CPIO archive, entries `ms` up to its
/// trailer and nothing after, reads as the archives with those entries.
pub proof fn lemma_xz_archive_reads_back(b: Seq<u8>, contents: Seq<u8>, ms: Seq<(Seq<char>, u32, Seq<u8>)>)
    requires
        b.len() >= 6,
        b.take(6) == crate::io::xz_magic(),
        xz_stream(b) == Some((contents, b.len())),
        cpio_archive(contents) == Some((ms, contents.len())),
    ensures
        archives(b) == Some(ms),
{
    let k: int = if b.len() < 6 { b.len() as int } else { 6 };
    assert(k == 6);
    assert(b.take(6)[0] == 0xfdu8);
    assert(b.take(2) != crate::io::gzip_magic()) by {
        assert(b.take(2)[0] == b.take(6)[0]);
    }
    assert(sniff_spec(b.take(k)) == Compression::Xz) by {
        assert(b.take(k).take(2) =~= b.take(2));
        assert(b.take(k).take(6) =~= b.take(6));
    }
    assert(decompressed(b) == Some((contents, b.len())));
    assert(all_zero(contents.skip(contents.len() as int)));
    assert(b.skip(b.len() as int) =~= Seq::<u8>::empty());
    assert(skip_zeros(Seq::<u8>::empty()) == Seq::<u8>::empty());
    assert(archives(Seq::<u8>::empty()) == Some(Seq::<(Seq<char>, u32, Seq<u8>)>::empty()));
    assert(ms + Seq::<(Seq<char>, u32, Seq<u8>)>::empty() =~= ms);
}

/// The files of two runs of entries, one after the other: the second
/// run's files take the place of the first's.
pub proof fn lemma_files_of_append(
    a: Seq<(Seq<char>, u32, Seq<u8>)>,
    b: Seq<(Seq<char>, u32, Seq<u8>)>,
    keep: spec_fn(Seq<char>) -> bool,
)
    ensures
        files_of(a + b, keep) == files_of(a, keep).union_prefer_right(files_of(b, keep)),
    decreases b.len(),
{
    if b.len() == 0 {
        assert(a + b =~= a);
        assert(files_of(a, keep).union_prefer_right(files_of(b, keep)) =~= files_of(a, keep));
    } else {
        lemma_files_of_append(a, b.drop_last(), keep);
        assert((a + b).drop_last() =~= a + b.drop_last());
        assert((a + b).last() == b.last());
        assert(files_of(a + b, keep) =~= files_of(a, keep).union_prefer_right(files_of(b, keep)));
    }
}

/// Entries that are not regular files hold no files.
proof fn lemma_no_regular_no_files(es: Seq<(Seq<char>, u32, Seq<u8>)>, keep: spec_fn(Seq<char>) -> bool)
    requires
        forall|i: int| 0 <= i < es.len() ==> !is_regular(#[trigger] es[i].1),
    ensures
        files_of(es, keep) == Map::<Seq<char>, Seq<u8>>::empty(),
    decreases es.len(),
{
    if es.len() > 0 {
        assert(!is_regular(es[es.len() - 1].1));
        lemma_no_regular_no_files(es.drop_last(), keep);
    }
}

/// The files of the archive written for `fs` are the files that `fs`
/// describes, where `keep` accepts each of their paths.
proof fn lemma_archive_spec_files(
    fs: Seq<(Seq<char>, Seq<u8>)>,
    cwd: Seq<Seq<char>>,
    keep: spec_fn(Seq<char>) -> bool,
)
    requires
        forall|i: int| 0 <= i < fs.len() ==> keep(#[trigger] fs[i].0),
    ensures
        files_of(archive_spec(fs, cwd), keep) == pairs_map(fs),
    decreases fs.len(),
{
    if fs.len() == 0 {
        assert(files_of(archive_spec(fs, cwd), keep) =~= pairs_map(fs));
    } else {
        let d = parent_dirs(fs[0].0);
        let ds = new_dirs(d, common_len(cwd, d));
        let f = seq![(fs[0].0, FILE_MODE, fs[0].1)];
        let rest = fs.drop_first();
        assert forall|i: int| 0 <= i < rest.len() implies keep(#[trigger] rest[i].0) by {
            assert(rest[i] == fs[i + 1]);
        }
        lemma_archive_spec_files(rest, d, keep);
        lemma_files_of_append(ds + f, archive_spec(rest, d), keep);
        lemma_files_of_append(ds, f, keep);
        assert(!is_regular(DIR_MODE)) by (bit_vector);
        assert forall|k: int| 0 <= k < ds.len() implies !is_regular(#[trigger] ds[k].1) by {}
        lemma_no_regular_no_files(ds, keep);
        assert(is_regular(FILE_MODE)) by (bit_vector);
        assert(keep(fs[0].0));
        assert(f.drop_last() =~= Seq::<(Seq<char>, u32, Seq<u8>)>::empty());
        assert(files_of(f.drop_last(), keep) == Map::<Seq<char>, Seq<u8>>::empty());
        assert(f.last() == (fs[0].0, FILE_MODE, fs[0].1));
        assert(files_of(f, keep) =~= Map::<Seq<char>, Seq<u8>>::empty().insert(fs[0].0, fs[0].1));
        lemma_pairs_map_append(seq![fs[0]], rest);
        assert(seq![fs[0]] + rest =~= fs);
        assert(seq![fs[0]].drop_last() =~= Seq::<(Seq<char>, Seq<u8>)>::empty());
        assert(pairs_map(seq![fs[0]].drop_last()) == Map::<Seq<char>, Seq<u8>>::empty());
        assert(seq![fs[0]].last() == fs[0]);
        assert(pairs_map(seq![fs[0]]) =~= Map::<Seq<char>, Seq<u8>>::empty().insert(fs[0].0, fs[0].1));
        assert(Map::<Seq<char>, Seq<u8>>::empty().union_prefer_right(files_of(f, keep)) =~= files_of(f, keep));
    }
}

/// What `to_bytes` writes reads back as the same files: where the bytes
/// hold the archive of the initrd's entries (as `to_bytes` ensures of
/// what it writes), the files that `parse_initrd` keeps from them with a
/// filter that accepts each of the initrd's paths are the initrd's files.
pub proof fn lemma_initrd_roundtrip(i: Initrd, bytes: Seq<u8>, filter: GlobMatcher)
    requires
        i.wf(),
        archives(bytes) == Some(archive_spec(i.entries(), seq![])),
        forall|p: Seq<char>| i.files().contains_key(p) ==> #[trigger] filter.matches_spec(p),
    ensures
        files_of(archive_spec(i.entries(), seq![]), |p: Seq<char>| filter.matches_spec(p)) == i.files(),
{
    let keep = |p: Seq<char>| filter.matches_spec(p);
    i.lemma_files_entries();
    i.lemma_files_pairs();
    assert forall|k: int| 0 <= k < i.entries().len() implies keep(#[trigger] i.entries()[k].0) by {
        assert(i.files().contains_key(i.entries()[k].0));
    }
    lemma_archive_spec_files(i.entries(), seq![], keep);
}

pub proof fn lemma_skip_zeros_len(data: Seq<u8>)
    ensures
        skip_zeros(data).len() <= data.len(),
        skip_zeros(data) == data.skip(data.len() - skip_zeros(data).len()),
    decreases data.len(),
{
    if data.len() > 0 && data[0] == 0 {
        lemma_skip_zeros_len(data.drop_first());
        assert(data.drop_first().skip(data.drop_first().len() - skip_zeros(data).len()) =~= data.skip(
            data.len() - skip_zeros(data).len(),
        ));
    } else {
        assert(data.skip(0) =~= data);
    }
}

/// The position of the first non-zero byte at or after `pos`.
fn skip_zero_bytes(data: &[u8], pos: usize) -> (r: usize)
    requires
        pos <= data.len(),
    ensures
        pos <= r <= data.len(),
        data@.skip(r as int) == skip_zeros(data@.skip(pos as int)),
{
    let mut i: usize = pos;
    while i < data.len() && data[i] == 0
        invariant
            pos <= i <= data.len(),
            skip_zeros(data@.skip(pos as int)) == skip_zeros(data@.skip(i as int)),
        decreases data.len() - i,
    {
        assert(data@.skip(i as int).drop_first() =~= data@.skip(i + 1));
        i += 1;
    }
    i
}

/// Decodes zstd frames while the next four bytes start one.
fn decode_zstd_frames(data: &[u8]) -> (r: Option<(Vec<u8>, usize)>)
    ensures
        match r {
            Some((out, n)) => zstd_frames(data@) == Some((out@, n as nat)) && n <= data@.len(),
            None => zstd_frames(data@) is None,
        },
{
    let mut out: Vec<u8> = Vec::new();
    let mut pos: usize = 0;
    assert(data@.skip(0) =~= data@);
    loop
        invariant
            pos <= data@.len(),
            zstd_frames(data@) == match zstd_frames(data@.skip(pos as int)) {
                None => None,
                Some((rest, m)) => Some((out@ + rest, (pos + m) as nat)),
            },
        decreases data@.len() - pos,
    {
        let ghost s = data@.skip(pos as int);
        if data.len() - pos < 4 || !crate::io::is_zstd_magic([data[pos], data[pos + 1], data[pos + 2], data[pos + 3]]) {
            proof {
                if s.len() >= 4 {
                    assert(s[0] == data@[pos as int] && s[1] == data@[pos + 1] && s[2] == data@[pos + 2] && s[3] == data@[pos + 3]);
                }
                assert(out@ + Seq::<u8>::empty() =~= out@);
            }
            return Some((out, pos));
        }
        assert(s[0] == data@[pos as int] && s[1] == data@[pos + 1] && s[2] == data@[pos + 2] && s[3] == data@[pos + 3]);
        let (frame, n) = match zstd_decode_frame(&data[pos..data.len()]) {
            Some((f, rest)) => (f, data.len() - pos - rest),
            None => {
                assert(data@.subrange(pos as int, data@.len() as int) =~= s);
                return None;
            },
        };
        assert(data@.subrange(pos as int, data@.len() as int) =~= s);
        if n == 0 {
            return None;
        }
        let ghost before = out@;
        let mut k: usize = 0;
        while k < frame.len()
            invariant
                k <= frame@.len(),
                out@ == before + frame@.take(k as int),
            decreases frame@.len() - k,
        {
            out.push(frame[k]);
            assert(frame@.take(k + 1) =~= frame@.take(k as int).push(frame@[k as int]));
            k += 1;
        }
        assert(frame@.take(frame@.len() as int) =~= frame@);
        assert(s.skip(n as int) =~= data@.skip(pos + n));
        proof {
            match zstd_frames(data@.skip(pos + n)) {
                None => {},
                Some((rest, m)) => {
                    assert(before + (frame@ + rest) =~= (before + frame@) + rest);
                },
            }
        }
        pos = pos + n;
    }
}

/// Reads the entries of the CPIO archive at the start of the bytes, up to
/// its trailer.
fn read_archive(data: &[u8]) -> (r: Option<(Vec<(String, u32, Vec<u8>)>, usize)>)
    ensures
        match r {
            Some((es, n)) => cpio_archive(data@) == Some(
                (es@.map_values(|e: (String, u32, Vec<u8>)| (e.0@, e.1, e.2@)), n as nat),
            ) && n <= data@.len(),
            None => cpio_archive(data@) is None,
        },
{
    let mut out: Vec<(String, u32, Vec<u8>)> = Vec::new();
    let mut pos: usize = 0;
    assert(data@.skip(0) =~= data@);
    assert(out@.map_values(|e: (String, u32, Vec<u8>)| (e.0@, e.1, e.2@)) =~= Seq::<(Seq<char>, u32, Seq<u8>)>::empty());
    loop
        invariant
            pos <= data@.len(),
            cpio_archive(data@) == match cpio_archive(data@.skip(pos as int)) {
                None => None,
                Some((rest, m)) => Some(
                    (out@.map_values(|e: (String, u32, Vec<u8>)| (e.0@, e.1, e.2@)) + rest, (pos + m) as nat),
                ),
            },
        decreases data@.len() - pos,
    {
        let ghost s = data@.skip(pos as int);
        let ghost acc = out@.map_values(|e: (String, u32, Vec<u8>)| (e.0@, e.1, e.2@));
        let (name, mode, contents, trailer, n) = match read_cpio_entry(&data[pos..data.len()]) {
            Some((nm, md, ct, tr, rest)) => (nm, md, ct, tr, data.len() - pos - rest),
            None => {
                assert(data@.subrange(pos as int, data@.len() as int) =~= s);
                return None;
            },
        };
        assert(data@.subrange(pos as int, data@.len() as int) =~= s);
        if n == 0 {
            return None;
        }
        if trailer {
            assert(acc + Seq::<(Seq<char>, u32, Seq<u8>)>::empty() =~= acc);
            return Some((out, pos + n));
        }
        assert(s.skip(n as int) =~= data@.skip(pos + n));
        let ghost e = (name@, mode, contents@);
        out.push((name, mode, contents));
        assert(out@.map_values(|e: (String, u32, Vec<u8>)| (e.0@, e.1, e.2@)) =~= acc.push(e));
        proof {
            match cpio_archive(data@.skip(pos + n)) {
                None => {},
                Some((rest, m)) => {
                    assert(acc + (seq![e] + rest) =~= acc.push(e) + rest);
                },
            }
        }
        pos = pos + n;
    }
}

fn all_zero_from(b: &[u8], m: usize) -> (r: bool)
    requires
        m <= b@.len(),
    ensures
        r == all_zero(b@.skip(m as int)),
{
    let mut i: usize = m;
    while i < b.len()
        invariant
            m <= i <= b@.len(),
            forall|j: int| m <= j < i ==> b@[j] == 0,
        decreases b@.len() - i,
    {
        if b[i] != 0 {
            assert(b@.skip(m as int)[i - m] != 0);
            return false;
        }
        i += 1;
    }
    assert forall|j: int| 0 <= j < b@.skip(m as int).len() implies b@.skip(m as int)[j] == 0 by {
        assert(b@.skip(m as int)[j] == b@[m + j]);
    }
    true
}

/// The archive at the start of the bytes: its entries, and the bytes it
/// took.
fn read_one(data: &[u8]) -> (r: Option<(Vec<(String, u32, Vec<u8>)>, usize)>)
    requires
        data@.len() > 0,
    ensures
        match r {
            Some((es, n)) => 0 < n <= data@.len() && ({
                let c = sniff_spec(data@.take(if data@.len() < 6 { data@.len() as int } else { 6 }));
                &&& decompressed(data@) matches Some((contents, used))
                &&& cpio_archive(contents) matches Some((es2, m))
                &&& es2 == es@.map_values(|e: (String, u32, Vec<u8>)| (e.0@, e.1, e.2@))
                &&& c != Compression::Uncompressed ==> all_zero(contents.skip(m as int))
                &&& n == if c == Compression::Uncompressed { m } else { used }
            }),
            None => !({
                let c = sniff_spec(data@.take(if data@.len() < 6 { data@.len() as int } else { 6 }));
                &&& decompressed(data@) matches Some((contents, used))
                &&& cpio_archive(contents) matches Some((es2, m))
                &&& (c != Compression::Uncompressed ==> all_zero(contents.skip(m as int)))
                &&& (if c == Compression::Uncompressed { m } else { used }) > 0
            }),
        },
{
    let k: usize = if data.len() < 6 { data.len() } else { 6 };
    let c = sniff_compression(&data[0..k]);
    assert(data@.subrange(0, k as int) =~= data@.take(k as int));
    let ghost cs = data@.take(k as int);
    match c {
        Compression::Uncompressed => {
            match read_archive(data) {
                None => None,
                Some((es, m)) => if m == 0 {
                    None
                } else {
                    Some((es, m))
                },
            }
        },
        _ => {
            let dec = match c {
                Compression::Gzip => match gzip_decode_member(data) {
                    Some((o, rest)) => Some((o, data.len() - rest)),
                    None => None,
                },
                Compression::Xz => xz_decode_stream(data),
                _ => decode_zstd_frames(data),
            };
            let (contents, used) = match dec {
                Some(x) => x,
                None => return None,
            };
            let (es, m) = match read_archive(&contents) {
                Some(x) => x,
                None => return None,
            };
            if !all_zero_from(&contents, m) {
                return None;
            }
            if used == 0 {
                return None;
            }
            Some((es, used))
        },
    }
}

/// The files of an initrd held in `data` whose names `filter` accepts.
pub fn parse_initrd(data: &[u8], filter: &GlobMatcher) -> (r: Result<Initrd, ArchiveError>)
    requires
        filter.wf(),
    ensures
        match archives(data@) {
            Some(es) => r matches Ok(i) && i.wf() && i.files() == files_of(
                es,
                |p: Seq<char>| filter.matches_spec(p),
            ),
            None => r is Err,
        },
{
    let ghost keep = |p: Seq<char>| filter.matches_spec(p);
    let mut initrd = Initrd::new();
    let ghost mut done: Seq<(Seq<char>, u32, Seq<u8>)> = seq![];
    let mut pos: usize = 0;
    assert(data@.skip(0) =~= data@);
    while pos < data.len()
        invariant
            filter.wf(),
            keep == (|p: Seq<char>| filter.matches_spec(p)),
            pos <= data@.len(),
            initrd.wf(),
            initrd.files() == files_of(done, keep),
            archives(data@) == match archives(data@.skip(pos as int)) {
                None => None,
                Some(rest) => Some(done + rest),
            },
        decreases data@.len() - pos,
    {
        let ghost s = data@.skip(pos as int);
        assert(data@.subrange(pos as int, data@.len() as int) =~= s);
        let (es, n) = match read_one(&data[pos..data.len()]) {
            Some(x) => x,
            None => return Err(ArchiveError),
        };
        let ghost esv = es@.map_values(|e: (String, u32, Vec<u8>)| (e.0@, e.1, e.2@));
        let mut k: usize = 0;
        let ghost done0 = done;
        while k < es.len()
            invariant
                filter.wf(),
                keep == (|p: Seq<char>| filter.matches_spec(p)),
                k <= es@.len(),
                esv == es@.map_values(|e: (String, u32, Vec<u8>)| (e.0@, e.1, e.2@)),
                initrd.wf(),
                done == done0 + esv.take(k as int),
                initrd.files() == files_of(done, keep),
            decreases es@.len() - k,
        {
            let ghost before = done;
            proof {
                done = done0 + esv.take(k + 1);
                assert(done.drop_last() =~= before);
                assert(done.last() == esv[k as int]);
            }
            let e = &es[k];
            assert(esv[k as int] == (e.0@, e.1, e.2@));
            let reg = e.1 & 0o170000 == 0o100000;
            assert(reg == is_regular(e.1));
            if reg && filter.matches(e.0.as_str()) {
                let c = e.2.clone();
                assert(c@ =~= e.2@);
                assert(keep(e.0@));
                initrd.add(e.0.as_str(), c);
            } else {
                assert(!(is_regular(e.1) && keep(e.0@)));
            }
            k += 1;
        }
        assert(esv.take(es@.len() as int) =~= esv);
        let next = skip_zero_bytes(data, pos + n);
        assert(s.skip(n as int) =~= data@.skip(pos + n));
        proof {
            match archives(data@.skip(next as int)) {
                None => {},
                Some(rest) => {
                    assert(done0 + (esv + rest) =~= (done0 + esv) + rest);
                },
            }
        }
        pos = next;
    }
    assert(data@.skip(pos as int) =~= Seq::<u8>::empty());
    assert(done + Seq::<(Seq<char>, u32, Seq<u8>)>::empty() =~= done);
    Ok(initrd)
}


impl Initrd {
    /// Reads an initrd of compressed and/or uncompressed archives, keeping
    /// the regular files whose paths `filter` matches.
    pub fn from_reader_filtered<R: Read>(source: R, filter: &GlobMatcher) -> (r: Result<
        Initrd,
        ArchiveError,
    >)
        requires
            filter.wf(),
        ensures
            r matches Ok(i) ==> i.wf() && exists|data: Seq<u8>|
                #![trigger archives(data)]
                (archives(data) matches Some(es) && i.files() == files_of(
                    es,
                    |p: Seq<char>| filter.matches_spec(p),
                )),
    {
        let mut source = source;
        let mut data: Vec<u8> = Vec::new();
        match crate::io::read_to_end(&mut source, &mut data) {
            Ok(()) => {},
            Err(_) => return Err(ArchiveError),
        }
        parse_initrd(data.as_slice(), filter)
    }

    /// Reads an initrd of compressed and/or uncompressed archives.
    pub fn from_reader<R: Read>(source: R) -> (r: Result<Initrd, ArchiveError>)
        ensures
            r matches Ok(i) ==> i.wf() && exists|data: Seq<u8>, g: GlobMatcher|
                #![trigger archives(data), g.patterns()]
                g.patterns() == seq!["*"@] && (archives(data) matches Some(es) && i.files()
                    == files_of(es, |p: Seq<char>| g.matches_spec(p))),
    {
        let pats: [&str; 1] = ["*"];
        proof {
            reveal_strlit("*");
        }
        let all = match GlobMatcher::new(&pats) {
            Ok(g) => g,
            Err(_) => return Err(ArchiveError),
        };
        assert(pats@.map_values(|p: &str| p@) =~= seq!["*"@]);
        Initrd::from_reader_filtered(source, &all)
    }
}

} // verus!
