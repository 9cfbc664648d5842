//! Copying a stream while checking it against a list of chunk digests.
//!
//! The hash file reads:
//!
//! ```text
//! stream-hash sha256 <chunk-size>
//! <hexdigest>
//! <hexdigest>
//! ...
//! ```
//!
//! Each digest covers exactly `<chunk-size>` bytes, but the last, which
//! covers from one to `<chunk-size>` bytes. A chunk is written only after
//! its digest was checked.

use crate::io::joined;
use crate::osmet::{hex_text, push_hex_bytes};
use crate::ignition::{bytes_eq, hex_decode, hex_decodes, hex_decode_spec, sha256_digest, sha256_of};
use crate::text::{
    all_digits, chars_of, dec_string, dec_value, extend_chars, is_digit, parse_decimal,
    push_decimal, starts_with, starts_with_exec, string_of, sub_chars,
};
use std::io::{Read, Write};
use vstd::prelude::*;
use vstd::utf8::{decode_utf8, valid_utf8};

verus! {

/// Largest chunk we accept.
pub const MAX_CHUNK_SIZE: usize = 67108864;

/// Why a stream could not be copied.
#[derive(Debug, Clone, PartialEq, Eq)]
pub enum StreamHashError {
    /// The hash file could not be read.
    ReadHashFile,
    /// The hash file is empty.
    EmptyHashFile,
    /// The first line is not `stream-hash <algorithm> <chunk-size>`.
    BadHeader,
    /// The digest algorithm is not `sha256`.
    UnknownAlgorithm { name: String },
    /// The chunk size does not fit in memory.
    BadChunkSize,
    /// The chunk size is zero.
    ZeroChunkSize,
    /// The chunk size is over the limit.
    ChunkTooLarge { size: usize },
    /// A digest line is not UTF-8.
    BadHashLine,
    /// A digest line is not hexadecimal.
    BadDigest { line: String },
    /// The input ended before the last digest.
    PrematureEnd { offset: u64 },
    /// A chunk does not have its digest.
    Mismatch { offset: u64, expected: Vec<u8>, found: Vec<u8> },
    /// The input goes on after the last digest.
    ExtraInput { offset: u64 },
    /// The input could not be read.
    ReadInput,
    /// The input could not be read after the last digest.
    DrainInput,
    /// The output could not be written.
    WriteOutput,
    /// The stream is longer than 64-bit offsets reach.
    TooLong,
}

/// What `{:?}` prints for a string: the text in double quotes, with
/// quotes, backslashes and unprintable characters escaped.
pub uninterp spec fn debug_quoted(s: Seq<char>) -> Seq<char>;

/// Printable ASCII other than a double quote or a backslash: the
/// characters that `{:?}` prints as they are.
pub open spec fn plain_ascii(s: Seq<char>) -> bool {
    forall|i: int|
        0 <= i < s.len() ==> ' ' <= #[trigger] s[i] <= '~' && s[i] != '"' && s[i] != '\\'
}

/// `format!("{:?}", s)`, the `Debug` form of a string. Where every
/// character is printed as it is, that is the text between double quotes;
/// the escapes of the other characters are not stated.
#[verifier::external_body]
fn debug_string(s: &str) -> (r: String)
    ensures
        r@ == debug_quoted(s@),
        plain_ascii(s@) ==> r@ == seq!['"'] + s@ + seq!['"'],
{
    format!("{:?}", s)
}

/// The message that reports `e`.
pub open spec fn message(e: StreamHashError) -> Seq<char> {
    match e {
        StreamHashError::ReadHashFile => "reading hash file"@,
        StreamHashError::EmptyHashFile => "hash file is empty"@,
        StreamHashError::BadHeader => "couldn't parse hash file header"@,
        StreamHashError::UnknownAlgorithm { name } => "unknown digest algorithm "@ + name@,
        StreamHashError::BadChunkSize => "couldn't parse chunk size"@,
        StreamHashError::ZeroChunkSize => "chunk size cannot be zero"@,
        StreamHashError::ChunkTooLarge { size } => "chunk size "@ + dec_string(size as nat)
            + " is greater than maximum "@ + dec_string(MAX_CHUNK_SIZE as nat),
        StreamHashError::BadHashLine => "couldn't read hash from hash file"@,
        StreamHashError::BadDigest { line } => "couldn't decode hash: "@ + debug_quoted(line@),
        StreamHashError::PrematureEnd { offset } => "premature end of input data at offset "@
            + dec_string(offset as nat),
        StreamHashError::Mismatch { offset, expected, found } => "hash mismatch at offset "@
            + dec_string(offset as nat) + "; expected "@ + hex_text(expected@) + ", found "@
            + hex_text(found@),
        StreamHashError::ExtraInput { offset } => "found extra input data at offset "@
            + dec_string(offset as nat),
        StreamHashError::ReadInput => "reading input"@,
        StreamHashError::DrainInput => "draining input"@,
        StreamHashError::WriteOutput => "writing output"@,
        StreamHashError::TooLong => "input offset overflows 64 bits"@,
    }
}

impl StreamHashError {
    /// The message that reports the error.
    pub fn to_string(&self) -> (r: String)
        ensures
            r@ == message(*self),
    {
        let mut out: Vec<char> = Vec::new();
        match self {
            StreamHashError::ReadHashFile => extend_chars(&mut out, &chars_of("reading hash file")),
            StreamHashError::EmptyHashFile => extend_chars(&mut out, &chars_of("hash file is empty")),
            StreamHashError::BadHeader => extend_chars(
                &mut out,
                &chars_of("couldn't parse hash file header"),
            ),
            StreamHashError::UnknownAlgorithm { name } => {
                extend_chars(&mut out, &chars_of("unknown digest algorithm "));
                extend_chars(&mut out, &chars_of(name.as_str()));
            },
            StreamHashError::BadChunkSize => extend_chars(
                &mut out,
                &chars_of("couldn't parse chunk size"),
            ),
            StreamHashError::ZeroChunkSize => extend_chars(
                &mut out,
                &chars_of("chunk size cannot be zero"),
            ),
            StreamHashError::ChunkTooLarge { size } => {
                extend_chars(&mut out, &chars_of("chunk size "));
                push_decimal(&mut out, *size as u64);
                extend_chars(&mut out, &chars_of(" is greater than maximum "));
                push_decimal(&mut out, MAX_CHUNK_SIZE as u64);
            },
            StreamHashError::BadHashLine => extend_chars(
                &mut out,
                &chars_of("couldn't read hash from hash file"),
            ),
            StreamHashError::BadDigest { line } => {
                extend_chars(&mut out, &chars_of("couldn't decode hash: "));
                extend_chars(&mut out, &chars_of(debug_string(line.as_str()).as_str()));
            },
            StreamHashError::PrematureEnd { offset } => {
                extend_chars(&mut out, &chars_of("premature end of input data at offset "));
                push_decimal(&mut out, *offset);
            },
            StreamHashError::Mismatch { offset, expected, found } => {
                extend_chars(&mut out, &chars_of("hash mismatch at offset "));
                push_decimal(&mut out, *offset);
                extend_chars(&mut out, &chars_of("; expected "));
                push_hex_bytes(&mut out, expected.as_slice());
                extend_chars(&mut out, &chars_of(", found "));
                push_hex_bytes(&mut out, found.as_slice());
            },
            StreamHashError::ExtraInput { offset } => {
                extend_chars(&mut out, &chars_of("found extra input data at offset "));
                push_decimal(&mut out, *offset);
            },
            StreamHashError::ReadInput => extend_chars(&mut out, &chars_of("reading input")),
            StreamHashError::DrainInput => extend_chars(&mut out, &chars_of("draining input")),
            StreamHashError::WriteOutput => extend_chars(&mut out, &chars_of("writing output")),
            StreamHashError::TooLong => extend_chars(
                &mut out,
                &chars_of("input offset overflows 64 bits"),
            ),
        }
        assert(out@ =~= message(*self));
        string_of(&out)
    }
}

// ---------------------------------------------------------------------
// Lines of the hash file
// ---------------------------------------------------------------------
/// Index of the first newline byte, if any.
pub open spec fn first_newline(b: Seq<u8>) -> Option<nat>
    decreases b.len(),
{
    if b.len() == 0 {
        None
    } else if b[0] == 10 {
        Some(0)
    } else {
        match first_newline(b.drop_first()) {
            Some(k) => Some(k + 1),
            None => None,
        }
    }
}

/// The first line with its newline, as `BufRead::read_line` reads it.
pub open spec fn header_bytes(b: Seq<u8>) -> Seq<u8> {
    match first_newline(b) {
        Some(k) => b.take(k + 1int),
        None => b,
    }
}

/// A line without a `\r` that stood before its newline.
pub open spec fn strip_cr_bytes(l: Seq<u8>) -> Seq<u8> {
    if l.len() > 0 && l.last() == 13 {
        l.drop_last()
    } else {
        l
    }
}

/// The lines, as `BufRead::lines` splits them (before UTF-8 decoding).
pub open spec fn byte_lines(b: Seq<u8>) -> Seq<Seq<u8>>
    decreases b.len(),
{
    if b.len() == 0 {
        seq![]
    } else {
        match first_newline(b) {
            None => seq![b],
            Some(k) => if k < b.len() {
                seq![strip_cr_bytes(b.take(k as int))] + byte_lines(b.skip(k + 1int))
            } else {
                seq![]
            },
        }
    }
}

fn find_newline(b: &[u8], from: usize) -> (r: Option<usize>)
    requires
        from <= b.len(),
    ensures
        match first_newline(b@.skip(from as int)) {
            Some(k) => r == Some((from + k) as usize) && from + k < b@.len(),
            None => r is None,
        },
{
    let mut i = from;
    while i < b.len() && b[i] != 10
        invariant
            from <= i <= b@.len(),
            first_newline(b@.skip(from as int)) == match first_newline(b@.skip(i as int)) {
                Some(k) => Some((k + (i - from)) as nat),
                None => None,
            },
        decreases b@.len() - i,
    {
        assert(b@.skip(i as int).drop_first() =~= b@.skip(i + 1));
        i += 1;
    }
    if i < b.len() {
        Some(i)
    } else {
        None
    }
}

/// The lines after the header, as `BufRead::lines` gives them.
pub fn split_lines(b: &[u8], from: usize) -> (r: Vec<Vec<u8>>)
    requires
        from <= b.len(),
    ensures
        r@.map_values(|l: Vec<u8>| l@) == byte_lines(b@.skip(from as int)),
{
    let mut out: Vec<Vec<u8>> = Vec::new();
    let mut i = from;
    assert(out@.map_values(|l: Vec<u8>| l@) =~= Seq::<Seq<u8>>::empty());
    while i < b.len()
        invariant
            from <= i <= b@.len(),
            out@.map_values(|l: Vec<u8>| l@) + byte_lines(b@.skip(i as int)) == byte_lines(
                b@.skip(from as int),
            ),
        decreases b@.len() - i,
    {
        let ghost acc = out@.map_values(|l: Vec<u8>| l@);
        let ghost s = b@.skip(i as int);
        match find_newline(b, i) {
            None => {
                let mut l: Vec<u8> = Vec::new();
                let mut k = i;
                while k < b.len()
                    invariant
                        i <= k <= b@.len(),
                        l@ == b@.subrange(i as int, k as int),
                    decreases b@.len() - k,
                {
                    l.push(b[k]);
                    k += 1;
                }
                assert(l@ =~= s);
                out.push(l);
                assert(out@.map_values(|l: Vec<u8>| l@) =~= acc.push(s));
                assert(b@.skip(b@.len() as int) =~= Seq::<u8>::empty());
                assert(acc + seq![s] =~= acc.push(s));
                i = b.len();
            },
            Some(nl) => {
                let mut l: Vec<u8> = Vec::new();
                let mut k = i;
                while k < nl
                    invariant
                        i <= k <= nl,
                        nl < b@.len(),
                        l@ == b@.subrange(i as int, k as int),
                    decreases nl - k,
                {
                    l.push(b[k]);
                    k += 1;
                }
                if l.len() > 0 && l[l.len() - 1] == 13 {
                    l.pop();
                }
                assert(l@ =~= strip_cr_bytes(s.take(nl - i)));
                out.push(l);
                assert(out@.map_values(|l: Vec<u8>| l@) =~= acc.push(strip_cr_bytes(s.take(nl - i))));
                assert(s.skip(nl - i + 1) =~= b@.skip(nl + 1));
                assert(acc + (seq![strip_cr_bytes(s.take(nl - i))] + byte_lines(b@.skip(nl + 1)))
                    =~= acc.push(strip_cr_bytes(s.take(nl - i))) + byte_lines(b@.skip(nl + 1)));
                i = nl + 1;
            },
        }
    }
    assert(b@.skip(i as int) =~= Seq::<u8>::empty());
    assert(out@.map_values(|l: Vec<u8>| l@) + Seq::<Seq<u8>>::empty() =~= out@.map_values(
        |l: Vec<u8>| l@,
    ));
    out
}

// ---------------------------------------------------------------------
// The header
// ---------------------------------------------------------------------
/// A character of the algorithm name: a lowercase letter or a digit.
pub open spec fn is_alg_char(c: char) -> bool {
    ('a' <= c && c <= 'z') || ('0' <= c && c <= '9')
}

pub open spec fn alg_run(s: Seq<char>) -> nat
    decreases s.len(),
{
    if s.len() > 0 && is_alg_char(s[0]) {
        1 + alg_run(s.drop_first())
    } else {
        0
    }
}

pub open spec fn digit_run(s: Seq<char>) -> nat
    decreases s.len(),
{
    if s.len() > 0 && is_digit(s[0]) {
        1 + digit_run(s.drop_first())
    } else {
        0
    }
}

pub open spec fn header_prefix() -> Seq<char> {
    "stream-hash "@
}

/// What is wrong with a header line, if anything.
pub enum HeaderFault {
    Malformed,
    Unknown(Seq<char>),
    BadSize,
    Zero,
    TooLarge(nat),
}

/// `e` is the error that reports the header fault `f`.
pub open spec fn reports_header_fault(f: HeaderFault, e: StreamHashError) -> bool {
    match f {
        HeaderFault::Malformed => e == StreamHashError::BadHeader,
        HeaderFault::Unknown(a) => e matches StreamHashError::UnknownAlgorithm { name } && name@ == a,
        HeaderFault::BadSize => e == StreamHashError::BadChunkSize,
        HeaderFault::Zero => e == StreamHashError::ZeroChunkSize,
        HeaderFault::TooLarge(n) => e == StreamHashError::ChunkTooLarge { size: n as usize },
    }
}

/// The chunk size that the header line `s` (with its newline) gives.
pub open spec fn header_spec(s: Seq<char>) -> Result<nat, HeaderFault> {
    let p = header_prefix().len();
    let rest = s.skip(p as int);
    let a = alg_run(rest);
    let after = rest.skip(a as int + 1);
    let d = digit_run(after);
    if !starts_with(s, header_prefix()) || a == 0 || rest.len() < a + 1 || rest[a as int] != ' '
        || d == 0 || after.len() != d + 1 || after[d as int] != '\n' {
        Err(HeaderFault::Malformed)
    } else if rest.take(a as int) != "sha256"@ {
        Err(HeaderFault::Unknown(rest.take(a as int)))
    } else if dec_value(after.take(d as int)) > usize::MAX {
        Err(HeaderFault::BadSize)
    } else if dec_value(after.take(d as int)) == 0 {
        Err(HeaderFault::Zero)
    } else if dec_value(after.take(d as int)) > MAX_CHUNK_SIZE {
        Err(HeaderFault::TooLarge(dec_value(after.take(d as int))))
    } else {
        Ok(dec_value(after.take(d as int)))
    }
}

fn alg_run_exec(v: &[char], i: usize) -> (n: usize)
    requires
        i <= v.len(),
    ensures
        i + n <= v.len(),
        n == alg_run(v@.skip(i as int)),
{
    let mut j = i;
    while j < v.len() && (('a' <= v[j] && v[j] <= 'z') || ('0' <= v[j] && v[j] <= '9'))
        invariant
            i <= j <= v.len(),
            alg_run(v@.skip(i as int)) == (j - i) + alg_run(v@.skip(j as int)),
        decreases v.len() - j,
    {
        assert(v@.skip(j as int).drop_first() =~= v@.skip(j + 1));
        j += 1;
    }
    j - i
}

fn digit_run_exec(v: &[char], i: usize) -> (n: usize)
    requires
        i <= v.len(),
    ensures
        i + n <= v.len(),
        n == digit_run(v@.skip(i as int)),
{
    let mut j = i;
    while j < v.len() && ('0' <= v[j] && v[j] <= '9')
        invariant
            i <= j <= v.len(),
            digit_run(v@.skip(i as int)) == (j - i) + digit_run(v@.skip(j as int)),
        decreases v.len() - j,
    {
        assert(v@.skip(j as int).drop_first() =~= v@.skip(j + 1));
        j += 1;
    }
    j - i
}

proof fn lemma_digit_run(s: Seq<char>)
    ensures
        digit_run(s) <= s.len(),
        all_digits(s.take(digit_run(s) as int)),
    decreases s.len(),
{
    if s.len() > 0 && is_digit(s[0]) {
        lemma_digit_run(s.drop_first());
        let t = s.take(digit_run(s) as int);
        assert forall|i: int| 0 <= i < t.len() implies is_digit(#[trigger] t[i]) by {
            if i > 0 {
                assert(t[i] == s.drop_first().take(digit_run(s.drop_first()) as int)[i - 1]);
            }
        }
    }
}

/// The chunk size of a header line (with its newline).
pub fn parse_header(line: &str) -> (r: Result<usize, StreamHashError>)
    ensures
        match header_spec(line@) {
            Ok(n) => r == Ok::<usize, StreamHashError>(n as usize),
            Err(f) => r matches Err(e) && reports_header_fault(f, e),
        },
{
    let s = chars_of(line);
    proof {
        reveal_strlit("stream-hash ");
        reveal_strlit("sha256");
    }
    let p = chars_of("stream-hash ");
    if !starts_with_exec(&s, &p) {
        return Err(StreamHashError::BadHeader);
    }
    let pl = p.len();
    let ghost rest = s@.skip(pl as int);
    let a = alg_run_exec(&s, pl);
    if a == 0 || s.len() - pl < a + 1 || s[pl + a] != ' ' {
        return Err(StreamHashError::BadHeader);
    }
    assert(rest[a as int] == s@[pl + a]);
    let ds = pl + a + 1;
    let ghost after = rest.skip(a as int + 1);
    assert(after =~= s@.skip(ds as int));
    let d = digit_run_exec(&s, ds);
    if d == 0 || s.len() - ds != d + 1 || s[ds + d] != '\n' {
        return Err(StreamHashError::BadHeader);
    }
    assert(after[d as int] == s@[ds + d]);
    let alg = sub_chars(&s, pl, pl + a);
    assert(alg@ =~= rest.take(a as int));
    if !crate::text::chars_eq(&alg, &chars_of("sha256")) {
        return Err(StreamHashError::UnknownAlgorithm { name: string_of(&alg) });
    }
    let digits = sub_chars(&s, ds, ds + d);
    assert(digits@ =~= after.take(d as int));
    proof {
        lemma_digit_run(after);
    }
    let n = match parse_decimal(&digits, usize::MAX as u64) {
        Some(n) => n,
        None => return Err(StreamHashError::BadChunkSize),
    };
    if n == 0 {
        return Err(StreamHashError::ZeroChunkSize);
    }
    if n > MAX_CHUNK_SIZE as u64 {
        return Err(StreamHashError::ChunkTooLarge { size: n as usize });
    }
    Ok(n as usize)
}

// ---------------------------------------------------------------------
// The hash file
// ---------------------------------------------------------------------
/// What is wrong with a hash file, if anything.
pub enum HashFileFault {
    Empty,
    HeaderNotText,
    Header(HeaderFault),
}

/// The chunk size and the digest lines of a hash file.
pub open spec fn hash_file_spec(b: Seq<u8>) -> Result<(nat, Seq<Seq<u8>>), HashFileFault> {
    let h = header_bytes(b);
    if b.len() == 0 {
        Err(HashFileFault::Empty)
    } else if !valid_utf8(h) {
        Err(HashFileFault::HeaderNotText)
    } else {
        match header_spec(decode_utf8(h)) {
            Ok(n) => Ok((n, byte_lines(b.skip(h.len() as int)))),
            Err(f) => Err(HashFileFault::Header(f)),
        }
    }
}

/// `e` is the error that reports the hash file fault `f`.
pub open spec fn reports_hash_file_fault(f: HashFileFault, e: StreamHashError) -> bool {
    match f {
        HashFileFault::Empty => e == StreamHashError::EmptyHashFile,
        HashFileFault::HeaderNotText => e == StreamHashError::ReadHashFile,
        HashFileFault::Header(h) => reports_header_fault(h, e),
    }
}

/// The chunk size and the digest lines of the hash file `hf`.
pub fn parse_hash_file(hf: &[u8]) -> (r: Result<(usize, Vec<Vec<u8>>), StreamHashError>)
    ensures
        match hash_file_spec(hf@) {
            Ok((n, lines)) => r matches Ok((c, ls)) && c == n && ls@.map_values(|l: Vec<u8>| l@)
                == lines,
            Err(f) => r matches Err(e) && reports_hash_file_fault(f, e),
        },
{
    if hf.len() == 0 {
        return Err(StreamHashError::EmptyHashFile);
    }
    let end = match find_newline(hf, 0) {
        Some(k) => k + 1,
        None => hf.len(),
    };
    assert(hf@.skip(0) =~= hf@);
    assert(header_bytes(hf@) =~= hf@.subrange(0, end as int));
    let head = &hf[0..end];
    assert(head@ =~= header_bytes(hf@));
    let header = match crate::text::utf8_string(head) {
        Some(h) => h,
        None => return Err(StreamHashError::ReadHashFile),
    };
    let chunk = match parse_header(header.as_str()) {
        Ok(n) => n,
        Err(e) => return Err(e),
    };
    let lines = split_lines(hf, end);
    Ok((chunk, lines))
}

// ---------------------------------------------------------------------
// Chunks
// ---------------------------------------------------------------------
/// A digest line that decodes: UTF-8 text of hexadecimal digits.
pub open spec fn digest_line_ok(line: Seq<u8>) -> bool {
    valid_utf8(line) && hex_decodes(decode_utf8(line))
}

/// The digest that such a line holds.
pub open spec fn digest_of_line(line: Seq<u8>) -> Seq<u8> {
    hex_decode_spec(decode_utf8(line))
}

/// The digest a digest line holds.
pub fn decode_digest(line: &[u8]) -> (r: Result<Vec<u8>, StreamHashError>)
    ensures
        !valid_utf8(line@) ==> r == Err::<Vec<u8>, StreamHashError>(StreamHashError::BadHashLine),
        valid_utf8(line@) && !hex_decodes(decode_utf8(line@)) ==> (r matches Err(
            StreamHashError::BadDigest { line: l },
        ) && l@ == decode_utf8(line@)),
        digest_line_ok(line@) ==> (r matches Ok(d) && d@ == digest_of_line(line@)),
{
    let text = match crate::text::utf8_string(line) {
        Some(t) => t,
        None => return Err(StreamHashError::BadHashLine),
    };
    match hex_decode(text.as_str()) {
        Some(e) => Ok(e),
        None => Err(StreamHashError::BadDigest { line: text }),
    }
}

/// Checks the chunk at `offset` against the digest it should have.
pub fn check_digest(expected: Vec<u8>, data: &[u8], offset: u64) -> (r: Result<(), StreamHashError>)
    ensures
        r is Ok <==> sha256_digest(data@) == expected@,
        r is Err ==> (r matches Err(StreamHashError::Mismatch { offset: o, expected: e, found: f })
            && o == offset && e@ == expected@ && f@ == sha256_digest(data@)),
{
    let found = sha256_of(data);
    if !bytes_eq(expected.as_slice(), found.as_slice()) {
        return Err(StreamHashError::Mismatch { offset, expected, found });
    }
    Ok(())
}

/// The chunk matches the digest that its line holds.
pub open spec fn chunk_matches(line: Seq<u8>, data: Seq<u8>) -> bool {
    digest_line_ok(line) && sha256_digest(data) == digest_of_line(line)
}

/// Reads until `buf` is full or the input ends; the number of bytes read,
/// which stand at the start of `buf`.
fn fill_chunk<I: Read + ?Sized>(input: &mut I, buf: &mut Vec<u8>) -> (r: Result<usize, std::io::Error>)
    ensures
        final(buf)@.len() == old(buf)@.len(),
        r matches Ok(n) ==> n <= old(buf)@.len(),
        old(buf)@.len() == 0 ==> r matches Ok(0),
{
    let len = buf.len();
    let mut count: usize = 0;
    loop
        invariant
            count <= len,
            len == old(buf)@.len(),
            buf@.len() == len,
        decreases len - count,
    {
        if count == len {
            return Ok(count);
        }
        let n = match crate::io::read_retrying(input, buf.as_mut_slice(), count, len) {
            Ok(n) => n,
            Err(e) => return Err(e),
        };
        if n == 0 {
            return Ok(count);
        }
        count = count + n;
    }
}

/// Every chunk matched the digest on its line: one chunk per line, each
/// of one to `size` bytes.
pub open spec fn chunks_verified(size: nat, lines: Seq<Seq<u8>>, chunks: Seq<Seq<u8>>) -> bool {
    &&& chunks.len() == lines.len()
    &&& forall|i: int|
        0 <= i < chunks.len() ==> 1 <= (#[trigger] chunks[i]).len() <= size && chunk_matches(
            lines[i],
            chunks[i],
        )
}

/// The hash file `hf` is well formed and the chunks matched its digests.
pub open spec fn stream_verified(hf: Seq<u8>, chunks: Seq<Seq<u8>>) -> bool {
    match hash_file_spec(hf) {
        Ok((size, lines)) => chunks_verified(size, lines, chunks),
        Err(_) => false,
    }
}

// ---------------------------------------------------------------------
// The copy, a chunk at a time
// ---------------------------------------------------------------------
/// Where a copy stands: the chunk size, the digest lines still to check,
/// and the offset of the next chunk.
pub struct HasherView {
    pub size: nat,
    pub lines: Seq<Seq<u8>>,
    pub offset: nat,
}

/// Why a chunk, or the end of the input, was refused.
pub enum StreamFault {
    BadHashLine,
    BadDigest(Seq<char>),
    PrematureEnd(nat),
    Mismatch(nat, Seq<u8>, Seq<u8>),
    ExtraInput(nat),
    TooLong,
}

/// `e` is the error that reports the fault `f`.
pub open spec fn reports_stream_fault(f: StreamFault, e: StreamHashError) -> bool {
    match f {
        StreamFault::BadHashLine => e == StreamHashError::BadHashLine,
        StreamFault::BadDigest(l) => e matches StreamHashError::BadDigest { line } && line@ == l,
        StreamFault::PrematureEnd(o) => e == StreamHashError::PrematureEnd { offset: o as u64 },
        StreamFault::Mismatch(o, x, y) => e matches StreamHashError::Mismatch {
            offset,
            expected,
            found,
        } && offset == o && expected@ == x && found@ == y,
        StreamFault::ExtraInput(o) => e == StreamHashError::ExtraInput { offset: o as u64 },
        StreamFault::TooLong => e == StreamHashError::TooLong,
    }
}

/// One chunk, checked against the next digest line: the line must
/// decode, the chunk must not be empty, and it must have that digest;
/// then the copy goes on after it.
pub open spec fn step_spec(v: HasherView, chunk: Seq<u8>) -> Result<HasherView, StreamFault> {
    let line = v.lines[0];
    if !valid_utf8(line) {
        Err(StreamFault::BadHashLine)
    } else if !hex_decodes(decode_utf8(line)) {
        Err(StreamFault::BadDigest(decode_utf8(line)))
    } else if chunk.len() == 0 {
        Err(StreamFault::PrematureEnd(v.offset))
    } else if sha256_digest(chunk) != digest_of_line(line) {
        Err(StreamFault::Mismatch(v.offset, digest_of_line(line), sha256_digest(chunk)))
    } else if v.offset + chunk.len() > u64::MAX {
        Err(StreamFault::TooLong)
    } else {
        Ok(HasherView { size: v.size, lines: v.lines.drop_first(), offset: v.offset + chunk.len() })
    }
}

/// The next chunk of `input`: its first `size` bytes, or all of it where
/// it is shorter.
pub open spec fn next_chunk(size: nat, input: Seq<u8>) -> Seq<u8> {
    if input.len() < size {
        input
    } else {
        input.take(size as int)
    }
}

/// What copying the input stream `input` from `v` on writes, and how it
/// ends: each chunk is written once it matched its digest; after the last
/// digest the input must end.
pub open spec fn stream_outcome(v: HasherView, input: Seq<u8>) -> (Seq<u8>, Result<(), StreamFault>)
    decreases v.lines.len(),
{
    if v.lines.len() == 0 {
        (seq![], if input.len() > 0 {
            Err(StreamFault::ExtraInput(v.offset))
        } else {
            Ok(())
        })
    } else {
        let c = next_chunk(v.size, input);
        match step_spec(v, c) {
            Err(f) => (seq![], Err(f)),
            Ok(w) => {
                let (o, r) = stream_outcome(w, input.skip(c.len() as int));
                (c + o, r)
            },
        }
    }
}

/// What is written is always the start of the input: no byte is written
/// out of place.
pub proof fn lemma_output_is_prefix(v: HasherView, input: Seq<u8>)
    ensures
        stream_outcome(v, input).0.len() <= input.len(),
        stream_outcome(v, input).0 == input.take(stream_outcome(v, input).0.len() as int),
    decreases v.lines.len(),
{
    if v.lines.len() > 0 {
        let c = next_chunk(v.size, input);
        if let Ok(w) = step_spec(v, c) {
            let rest = input.skip(c.len() as int);
            lemma_output_is_prefix(w, rest);
            let o = stream_outcome(w, rest).0;
            assert(c == input.take(c.len() as int));
            assert(c + o =~= input.take((c + o).len() as int));
        }
    }
}

/// A copy that succeeds writes the whole input, and every chunk of it
/// matched its digest line.
pub proof fn lemma_success_writes_input(v: HasherView, input: Seq<u8>)
    requires
        stream_outcome(v, input).1 is Ok,
    ensures
        stream_outcome(v, input).0 == input,
    decreases v.lines.len(),
{
    if v.lines.len() > 0 {
        let c = next_chunk(v.size, input);
        if let Ok(w) = step_spec(v, c) {
            let rest = input.skip(c.len() as int);
            lemma_success_writes_input(w, rest);
            assert(c + rest =~= input);
        }
    }
}

/// A copy in progress: the chunk size, the digest lines and the next one
/// to check, and the offset reached.
pub struct StreamHasher {
    size: usize,
    lines: Vec<Vec<u8>>,
    next: usize,
    offset: u64,
}

impl View for StreamHasher {
    type V = HasherView;

    closed spec fn view(&self) -> HasherView {
        HasherView {
            size: self.size as nat,
            lines: self.lines@.skip(self.next as int).map_values(|l: Vec<u8>| l@),
            offset: self.offset as nat,
        }
    }
}

impl StreamHasher {
    pub closed spec fn wf(&self) -> bool {
        self.next <= self.lines@.len()
    }

    /// The copy that the hash file describes, before its first chunk.
    pub fn new(hash_file: &[u8]) -> (r: Result<StreamHasher, StreamHashError>)
        ensures
            match hash_file_spec(hash_file@) {
                Ok((n, ls)) => r matches Ok(h) && h.wf() && h@ == (HasherView {
                    size: n,
                    lines: ls,
                    offset: 0,
                }),
                Err(f) => r matches Err(e) && reports_hash_file_fault(f, e),
            },
    {
        match parse_hash_file(hash_file) {
            Ok((size, lines)) => {
                let h = StreamHasher { size, lines, next: 0, offset: 0 };
                assert(h.lines@.skip(0) =~= h.lines@);
                Ok(h)
            },
            Err(e) => Err(e),
        }
    }

    /// One more digest line, after those the hash file gave so far.
    pub fn push_line(&mut self, line: Vec<u8>)
        requires
            old(self).wf(),
        ensures
            final(self).wf(),
            final(self)@ == (HasherView {
                size: old(self)@.size,
                lines: old(self)@.lines.push(line@),
                offset: old(self)@.offset,
            }),
    {
        let ghost before = self.lines@;
        self.lines.push(line);
        assert(self.lines@.skip(self.next as int).map_values(|l: Vec<u8>| l@) =~= before.skip(
            self.next as int,
        ).map_values(|l: Vec<u8>| l@).push(line@));
    }

    /// The chunk size.
    pub fn chunk_size(&self) -> (r: usize)
        ensures
            r == self@.size,
    {
        self.size
    }

    /// Every digest was checked.
    pub fn is_done(&self) -> (r: bool)
        requires
            self.wf(),
        ensures
            r == (self@.lines.len() == 0),
    {
        self.next == self.lines.len()
    }

    /// Checks the next chunk against the next digest line; on success
    /// the chunk may be written, and the copy goes on after it.
    pub fn check_chunk(&mut self, chunk: &[u8]) -> (r: Result<(), StreamHashError>)
        requires
            old(self).wf(),
            old(self)@.lines.len() > 0,
        ensures
            final(self).wf(),
            match step_spec(old(self)@, chunk@) {
                Ok(v) => r is Ok && final(self)@ == v,
                Err(f) => r matches Err(e) && reports_stream_fault(f, e) && final(self)@ == old(self)@,
            },
    {
        let ghost v = self@;
        assert(self.next < self.lines@.len());
        assert(v.lines[0] == self.lines@[self.next as int]@);
        let expected = match decode_digest(self.lines[self.next].as_slice()) {
            Ok(d) => d,
            Err(e) => return Err(e),
        };
        if chunk.len() == 0 {
            return Err(StreamHashError::PrematureEnd { offset: self.offset });
        }
        match check_digest(expected, chunk, self.offset) {
            Ok(()) => {},
            Err(e) => return Err(e),
        }
        if chunk.len() as u64 > u64::MAX - self.offset {
            return Err(StreamHashError::TooLong);
        }
        let nlines = self.lines.len();
        assert(self.next < nlines);
        self.offset = self.offset + chunk.len() as u64;
        self.next = self.next + 1;
        assert(self@.lines =~= v.lines.drop_first());
        Ok(())
    }

    /// Ends the copy once every digest was checked: `extra` bytes were
    /// found after the last chunk.
    pub fn finish(&self, extra: usize) -> (r: Result<(), StreamHashError>)
        requires
            self.wf(),
            self@.lines.len() == 0,
        ensures
            extra == 0 ==> r is Ok,
            extra > 0 ==> r == Err::<(), StreamHashError>(StreamHashError::ExtraInput { offset: self@.offset as u64 }),
    {
        if extra != 0 {
            return Err(StreamHashError::ExtraInput { offset: self.offset });
        }
        Ok(())
    }
}

/// Copies the input held in memory: what is written, and how the copy
/// ends.
pub fn stream_hash_bytes(hash_file: &[u8], input: &[u8]) -> (r: (Vec<u8>, Result<(), StreamHashError>))
    ensures
        match hash_file_spec(hash_file@) {
            Err(f) => r.0@.len() == 0 && (r.1 matches Err(e) && reports_hash_file_fault(f, e)),
            Ok((n, ls)) => {
                let (o, res) = stream_outcome(HasherView { size: n, lines: ls, offset: 0 }, input@);
                &&& r.0@ == o
                &&& match res {
                    Ok(()) => r.1 is Ok,
                    Err(f) => r.1 matches Err(e) && reports_stream_fault(f, e),
                }
            },
        },
{
    let mut out: Vec<u8> = Vec::new();
    let mut h = match StreamHasher::new(hash_file) {
        Ok(h) => h,
        Err(e) => return (out, Err(e)),
    };
    let ghost v0 = h@;
    let size = h.chunk_size();
    let mut pos: usize = 0;
    assert(input@.skip(0) =~= input@);
    while !h.is_done()
        invariant
            h.wf(),
            h@.size == size,
            pos <= input@.len(),
            hash_file_spec(hash_file@) matches Ok((n, ls)) && v0 == (HasherView {
                size: n,
                lines: ls,
                offset: 0,
            }),
            ({
                let (o0, r0) = stream_outcome(v0, input@);
                let (o1, r1) = stream_outcome(h@, input@.skip(pos as int));
                o0 == out@ + o1 && r0 == r1
            }),
        decreases h@.lines.len(),
    {
        let end = if input.len() - pos < size {
            input.len()
        } else {
            pos + size
        };
        let chunk = &input[pos..end];
        let ghost v = h@;
        let ghost rest = input@.skip(pos as int);
        assert(chunk@ =~= next_chunk(size as nat, rest));
        match h.check_chunk(chunk) {
            Ok(()) => {},
            Err(e) => {
                proof {
                    assert(step_spec(v, chunk@) is Err);
                    assert(stream_outcome(v, rest).0 == Seq::<u8>::empty());
                    assert(stream_outcome(v, rest).1 == Err::<(), StreamFault>(step_spec(v, chunk@)->Err_0));
                    assert(out@ + Seq::<u8>::empty() =~= out@);
                    assert(stream_outcome(v0, input@).0 == out@);
                    assert(stream_outcome(v0, input@).1 == Err::<(), StreamFault>(step_spec(v, chunk@)->Err_0));
                    assert(reports_stream_fault(step_spec(v, chunk@)->Err_0, e));
                }
                return (out, Err(e));
            },
        }
        let ghost before = out@;
        let mut k = pos;
        while k < end
            invariant
                pos <= k <= end <= input@.len(),
                out@ == before + input@.subrange(pos as int, k as int),
            decreases end - k,
        {
            out.push(input[k]);
            k += 1;
            assert(out@ =~= before + input@.subrange(pos as int, k as int));
        }
        assert(rest.skip(chunk@.len() as int) =~= input@.skip(end as int));
        assert(before + (chunk@ + stream_outcome(h@, input@.skip(end as int)).0) =~= out@
            + stream_outcome(h@, input@.skip(end as int)).0);
        pos = end;
    }
    let extra = input.len() - pos;
    let res = h.finish(extra);
    assert(out@ + Seq::<u8>::empty() =~= out@);
    (out, res)
}

/// The line that `BufRead::lines` makes of the bytes read for it: without
/// its newline, and without a `\r` before that newline.
pub open spec fn line_of(l: Seq<u8>) -> Seq<u8> {
    if l.len() > 0 && l.last() == 10 {
        strip_cr_bytes(l.drop_last())
    } else {
        l
    }
}

/// Bytes read for one line: a newline, if any, only at the end.
pub open spec fn one_line(l: Seq<u8>) -> bool {
    first_newline(l) is None || first_newline(l) == Some((l.len() - 1) as nat)
}

/// The first newline of two runs of bytes, one after the other.
proof fn lemma_first_newline_append(a: Seq<u8>, b: Seq<u8>)
    ensures
        first_newline(a + b) == match first_newline(a) {
            Some(k) => Some(k),
            None => match first_newline(b) {
                Some(k) => Some(k + a.len()),
                None => None,
            },
        },
    decreases a.len(),
{
    if a.len() == 0 {
        assert(a + b =~= b);
    } else {
        assert((a + b)[0] == a[0]);
        assert((a + b).drop_first() =~= a.drop_first() + b);
        lemma_first_newline_append(a.drop_first(), b);
    }
}

/// A newline at the end of bytes with no newline before it is their
/// first.
proof fn lemma_first_newline_at_end(l: Seq<u8>)
    requires
        l.len() > 0,
        l.last() == 10,
        first_newline(l.drop_last()) is None,
    ensures
        first_newline(l) == Some((l.len() - 1) as nat),
{
    lemma_first_newline_append(l.drop_last(), seq![10u8]);
    assert(l.drop_last() + seq![10u8] =~= l);
}

/// A line read after whole lines adds one line.
proof fn lemma_lines_append(rest: Seq<u8>, l: Seq<u8>)
    requires
        rest.len() == 0 || rest.last() == 10,
        l.len() > 0,
        one_line(l),
    ensures
        byte_lines(rest + l) == byte_lines(rest).push(line_of(l)),
    decreases rest.len(),
{
    if rest.len() == 0 {
        assert(rest + l =~= l);
        assert(byte_lines(rest) =~= Seq::<Seq<u8>>::empty());
        match first_newline(l) {
            None => {
                if l.last() == 10 {
                    lemma_first_newline_at_last(l);
                }
                assert(byte_lines(l) =~= seq![l]);
            },
            Some(k) => {
                assert(k == l.len() - 1);
                assert(l[k as int] == 10) by {
                    lemma_first_newline_is_newline(l);
                }
                assert(l.take(k as int) =~= l.drop_last());
                assert(l.skip(k + 1int) =~= Seq::<u8>::empty());
                assert(byte_lines(l.skip(k + 1int)) =~= Seq::<Seq<u8>>::empty());
                assert(byte_lines(l) == seq![strip_cr_bytes(l.take(k as int))] + byte_lines(
                    l.skip(k + 1int),
                ));
                assert(byte_lines(l) =~= seq![strip_cr_bytes(l.drop_last())]);
            },
        }
        assert(byte_lines(rest).push(line_of(l)) =~= seq![line_of(l)]);
        assert(byte_lines(rest + l) == byte_lines(l));
    } else {
        lemma_first_newline_at_last(rest);
        let k = first_newline(rest)->Some_0;
        lemma_first_newline_append(rest, l);
        let x = rest + l;
        assert(x.take(k as int) =~= rest.take(k as int));
        let r2 = rest.skip(k + 1int);
        assert(x.skip(k + 1int) =~= r2 + l);
        assert(r2.len() == 0 || r2.last() == 10);
        lemma_lines_append(r2, l);
        assert(byte_lines(x) == seq![strip_cr_bytes(rest.take(k as int))] + byte_lines(r2 + l));
        assert(byte_lines(rest) == seq![strip_cr_bytes(rest.take(k as int))] + byte_lines(r2));
        assert(seq![strip_cr_bytes(rest.take(k as int))] + byte_lines(r2).push(line_of(l)) =~= (seq![
            strip_cr_bytes(rest.take(k as int)),
        ] + byte_lines(r2)).push(line_of(l)));
        assert(byte_lines(x) == byte_lines(rest).push(line_of(l)));
    }
}

/// The first newline is a newline, and lies in the bytes.
proof fn lemma_first_newline_is_newline(b: Seq<u8>)
    requires
        first_newline(b) is Some,
    ensures
        first_newline(b)->Some_0 < b.len(),
        b[first_newline(b)->Some_0 as int] == 10,
    decreases b.len(),
{
    if b[0] != 10 {
        lemma_first_newline_is_newline(b.drop_first());
    }
}

/// Bytes that end with a newline have a first one.
proof fn lemma_first_newline_at_last(b: Seq<u8>)
    requires
        b.len() > 0,
        b.last() == 10,
    ensures
        first_newline(b) is Some,
        first_newline(b)->Some_0 < b.len(),
    decreases b.len(),
{
    if b[0] != 10 {
        assert(b.drop_first().last() == 10);
        lemma_first_newline_at_last(b.drop_first());
    }
}

/// A line read after a hash file that ends with a newline (its header
/// and whole lines) adds that line to the digest lines.
proof fn lemma_hash_file_append(hf: Seq<u8>, l: Seq<u8>)
    requires
        hf.len() > 0,
        hf.last() == 10,
        l.len() > 0,
        one_line(l),
        hash_file_spec(hf) is Ok,
    ensures
        hash_file_spec(hf + l) == Ok::<(nat, Seq<Seq<u8>>), HashFileFault>(
            (hash_file_spec(hf)->Ok_0.0, hash_file_spec(hf)->Ok_0.1.push(line_of(l))),
        ),
{
    lemma_first_newline_at_last(hf);
    lemma_first_newline_append(hf, l);
    let k = first_newline(hf)->Some_0;
    let h = header_bytes(hf);
    assert(header_bytes(hf + l) =~= h);
    let rest = hf.skip(h.len() as int);
    assert((hf + l).skip(h.len() as int) =~= rest + l);
    assert(rest.len() == 0 || rest.last() == 10);
    lemma_lines_append(rest, l);
}

/// How far the hash file was read: not to its end yet, to its end, or
/// until a read of it failed.
pub enum HashEnd {
    Open,
    Ended,
    Failed,
}

/// What a copy from readers and a writer did: the bytes read from the
/// hash file, whole lines only, and how far it was read; the chunks read
/// from the input in order, the chunks handed to the output, and what the
/// read after the last digest gave (none where it was not made or
/// failed).
pub struct StreamTrace {
    pub hash_file: Seq<u8>,
    pub hash_end: HashEnd,
    pub chunks: Seq<Seq<u8>>,
    pub written: Seq<Seq<u8>>,
    pub extra: Option<nat>,
}

/// The chunks checked one after another from `v`: where the copy then
/// stands, or the index of the first chunk refused and why.
pub open spec fn run_chunks(v: HasherView, cs: Seq<Seq<u8>>) -> Result<HasherView, (nat, StreamFault)>
    decreases cs.len(),
{
    if cs.len() == 0 {
        Ok(v)
    } else {
        match run_chunks(v, cs.drop_last()) {
            Err(e) => Err(e),
            Ok(w) => match step_spec(w, cs.last()) {
                Ok(x) => Ok(x),
                Err(f) => Err(((cs.len() - 1) as nat, f)),
            },
        }
    }
}

/// Digest lines after those that the chunks are checked against change
/// nothing but the lines left.
proof fn lemma_run_more_lines(v: HasherView, more: Seq<Seq<u8>>, cs: Seq<Seq<u8>>)
    requires
        cs.len() <= v.lines.len(),
    ensures
        match run_chunks(v, cs) {
            Ok(w) => w.lines.len() == v.lines.len() - cs.len() && run_chunks(
                HasherView { size: v.size, lines: v.lines + more, offset: v.offset },
                cs,
            ) == Ok::<HasherView, (nat, StreamFault)>(
                HasherView { size: w.size, lines: w.lines + more, offset: w.offset },
            ),
            Err(e) => run_chunks(HasherView { size: v.size, lines: v.lines + more, offset: v.offset }, cs)
                == Err::<HasherView, (nat, StreamFault)>(e),
        },
    decreases cs.len(),
{
    let vx = HasherView { size: v.size, lines: v.lines + more, offset: v.offset };
    if cs.len() == 0 {
        assert(run_chunks(vx, cs) == Ok::<HasherView, (nat, StreamFault)>(vx));
    } else {
        lemma_run_more_lines(v, more, cs.drop_last());
        if let Ok(w1) = run_chunks(v, cs.drop_last()) {
            let w1x = HasherView { size: w1.size, lines: w1.lines + more, offset: w1.offset };
            assert(w1x.lines[0] == w1.lines[0]);
            assert(w1x.lines.drop_first() =~= w1.lines.drop_first() + more);
        }
    }
}

/// How a copy from `v` ends, given what it read and wrote (`t`), with
/// the result `r`: each digest line is read before its chunk; a chunk is
/// written only once it matched its digest, in order, and the first
/// refused chunk ends the copy with its fault; once the hash file ended,
/// the input must be at its end too. Failures of the hash file, the input
/// or the output end the copy where they happen.
pub open spec fn stream_reported(v: HasherView, t: StreamTrace, r: Result<(), StreamHashError>) -> bool {
    &&& t.chunks.len() <= v.lines.len()
    &&& forall|i: int| 0 <= i < t.chunks.len() ==> (#[trigger] t.chunks[i]).len() <= v.size
    &&& match run_chunks(v, t.chunks) {
        Err((k, f)) => {
            &&& k + 1 == t.chunks.len()
            &&& t.chunks.len() == v.lines.len()
            &&& t.written == t.chunks.take(k as int)
            &&& t.extra is None
            &&& r matches Err(e) && reports_stream_fault(f, e)
        },
        Ok(w) => if t.written.len() < t.chunks.len() {
            &&& t.chunks.len() == v.lines.len()
            &&& t.written == t.chunks.drop_last()
            &&& t.extra is None
            &&& r == Err::<(), StreamHashError>(StreamHashError::WriteOutput)
        } else if t.chunks.len() < v.lines.len() {
            &&& t.chunks.len() + 1 == v.lines.len()
            &&& t.written == t.chunks
            &&& t.extra is None
            &&& r == Err::<(), StreamHashError>(StreamHashError::ReadInput)
        } else {
            &&& t.written == t.chunks
            &&& match t.hash_end {
                HashEnd::Failed => t.extra is None && r == Err::<(), StreamHashError>(
                    StreamHashError::BadHashLine,
                ),
                HashEnd::Open => false,
                HashEnd::Ended => match t.extra {
                    None => r == Err::<(), StreamHashError>(StreamHashError::DrainInput),
                    Some(x) => if x == 0 {
                        r is Ok
                    } else {
                        r == Err::<(), StreamHashError>(StreamHashError::ExtraInput { offset: w.offset as u64 })
                    },
                },
            }
        },
    }
}

/// How a copy ends, given the trace `t` of what it read and wrote: a
/// header that could not be read, or a hash file that does not parse,
/// ends it before any input is read; otherwise `stream_reported` from the
/// first chunk, with the digest lines read.
pub open spec fn stream_result(t: StreamTrace, r: Result<(), StreamHashError>) -> bool {
    if t.hash_end == HashEnd::Failed && t.hash_file.len() == 0 {
        &&& r == Err::<(), StreamHashError>(StreamHashError::ReadHashFile)
        &&& t.chunks.len() == 0
        &&& t.written.len() == 0
    } else {
        match hash_file_spec(t.hash_file) {
            Err(f) => {
                &&& r matches Err(e) && reports_hash_file_fault(f, e)
                &&& t.chunks.len() == 0
                &&& t.written.len() == 0
            },
            Ok((n, ls)) => stream_reported(HasherView { size: n, lines: ls, offset: 0 }, t, r),
        }
    }
}

/// Reads the bytes of the next line of `r`: up to and with the next
/// newline, or up to the end; none at the end. `Read::read` is asked for
/// one byte at a time, so nothing after the line is taken from `r`.
fn read_line_bytes<R: Read + ?Sized>(r: &mut R) -> (res: Result<Vec<u8>, std::io::Error>)
    ensures
        res matches Ok(l) ==> one_line(l@),
{
    let mut line: Vec<u8> = Vec::new();
    let mut one: Vec<u8> = vec![0u8; 1];
    loop
        invariant
            one@.len() == 1,
            first_newline(line@) is None,
        decreases usize::MAX - line@.len(),
    {
        let n = match crate::io::read_retrying(r, one.as_mut_slice(), 0, 1) {
            Ok(n) => n,
            Err(e) => return Err(e),
        };
        if n == 0 {
            return Ok(line);
        }
        if line.len() == usize::MAX {
            return Err(crate::io::too_large_error());
        }
        let b = one[0];
        let ghost before = line@;
        line.push(b);
        proof {
            lemma_first_newline_append(before, seq![b]);
            assert(before + seq![b] =~= line@);
            assert(seq![b][0] == b);
            assert(seq![b].drop_first() =~= Seq::<u8>::empty());
            assert(first_newline(Seq::<u8>::empty()) is None);
        }
        if b == 10 {
            return Ok(line);
        }
    }
}

/// `line_of`, computed.
fn line_text(l: &Vec<u8>) -> (r: Vec<u8>)
    ensures
        r@ == line_of(l@),
{
    let mut out = l.clone();
    assert(out@ == l@);
    if out.len() > 0 && out[out.len() - 1] == 10 {
        out.pop();
        if out.len() > 0 && out[out.len() - 1] == 13 {
            out.pop();
        }
    }
    out
}

/// Copies `input` to `output`, a chunk at a time, writing each chunk only
/// after it matched its digest in `hash_file`, which is read a line at a
/// time as the copy goes; after the last digest the input must end. The
/// second result records what was read and written, and `stream_result`
/// says how the copy ended for it.
pub fn do_stream_hash<H: Read + ?Sized, I: Read + ?Sized, O: Write + ?Sized>(
    hash_file: &mut H,
    input: &mut I,
    output: &mut O,
) -> (r: (Result<(), StreamHashError>, Ghost<StreamTrace>))
    ensures
        stream_result(r.1@, r.0),
{
    let ghost mut t = StreamTrace {
        hash_file: seq![],
        hash_end: HashEnd::Open,
        chunks: seq![],
        written: seq![],
        extra: None,
    };
    let header = match read_line_bytes(hash_file) {
        Ok(l) => l,
        Err(_) => {
            proof {
                t.hash_end = HashEnd::Failed;
            }
            return (Err(StreamHashError::ReadHashFile), Ghost(t));
        },
    };
    let more = header.len() > 0 && header[header.len() - 1] == 10;
    proof {
        t.hash_file = header@;
        if !more {
            t.hash_end = HashEnd::Ended;
        }
    }
    let size = match parse_hash_file(header.as_slice()) {
        Ok((n, _)) => n,
        Err(e) => return (Err(e), Ghost(t)),
    };
    let mut h = StreamHasher { size, lines: Vec::new(), next: 0, offset: 0 };
    assert(h@.lines =~= Seq::<Seq<u8>>::empty());
    let mut buf: Vec<u8> = vec![0u8; size];
    proof {
        assert(hash_file_spec(t.hash_file)->Ok_0.1 =~= Seq::<Seq<u8>>::empty()) by {
            if more {
                lemma_first_newline_at_last(header@);
                lemma_first_newline_is_newline(header@);
                assert(header_bytes(header@) =~= header@);
            } else {
                if first_newline(header@) is Some {
                    lemma_first_newline_is_newline(header@);
                }
            }
            assert(header@.skip(header_bytes(header@).len() as int) =~= Seq::<u8>::empty());
        }
    }
    if more {
        loop
            invariant_except_break
                t.hash_end == HashEnd::Open,
            invariant
                h.wf(),
                h@.lines.len() == 0,
                h@.size == size,
                buf@.len() == size,
                t.extra is None,
                t.hash_end != HashEnd::Failed,
                t.hash_file.len() > 0,
                t.hash_end == HashEnd::Open ==> t.hash_file.last() == 10,
                hash_file_spec(t.hash_file) matches Ok((n, ls)) && n == size && ls.len() == t.chunks.len()
                    && run_chunks(HasherView { size: n, lines: ls, offset: 0 }, t.chunks) == Ok::<
                    HasherView,
                    (nat, StreamFault),
                >(h@),
                t.written == t.chunks,
                forall|i: int| 0 <= i < t.chunks.len() ==> (#[trigger] t.chunks[i]).len() <= size,
            ensures
                t.hash_end == HashEnd::Ended,
            decreases u64::MAX - h@.offset,
        {
            let line = match read_line_bytes(hash_file) {
                Ok(l) => l,
                Err(_) => {
                    proof {
                        t.hash_end = HashEnd::Failed;
                    }
                    return (Err(StreamHashError::BadHashLine), Ghost(t));
                },
            };
            if line.len() == 0 {
                proof {
                    t.hash_end = HashEnd::Ended;
                }
                break;
            }
            let last = line[line.len() - 1] == 10;
            let ghost (n0, ls0) = hash_file_spec(t.hash_file)->Ok_0;
            let ghost v0 = h@;
            proof {
                lemma_hash_file_append(t.hash_file, line@);
                lemma_run_more_lines(HasherView { size: n0, lines: ls0, offset: 0 }, seq![line_of(line@)], t.chunks);
                assert(ls0 + seq![line_of(line@)] =~= ls0.push(line_of(line@)));
                assert(h@.lines + seq![line_of(line@)] =~= seq![line_of(line@)]);
                t.hash_file = t.hash_file + line@;
                if !last {
                    t.hash_end = HashEnd::Ended;
                }
            }
            h.push_line(line_text(&line));
            assert(h@.lines =~= seq![line_of(line@)]);
            let count = match fill_chunk(input, &mut buf) {
                Ok(n) => n,
                Err(_) => return (Err(StreamHashError::ReadInput), Ghost(t)),
            };
            let data = &buf.as_slice()[0..count];
            let ghost before = t.chunks;
            let ghost v = h@;
            proof {
                t.chunks = t.chunks.push(data@);
                assert(t.chunks.drop_last() =~= before);
                assert(t.chunks.last() == data@);
            }
            match h.check_chunk(data) {
                Ok(()) => {},
                Err(e) => {
                    assert(t.chunks.take(before.len() as int) =~= before);
                    return (Err(e), Ghost(t));
                },
            }
            match crate::io::write_all_from(output, buf.as_slice(), count) {
                Ok(()) => {},
                Err(_) => return (Err(StreamHashError::WriteOutput), Ghost(t)),
            }
            proof {
                t.written = t.written.push(data@);
            }
            if !last {
                break;
            }
        }
    }
    // ran out of digests; the input must end here too
    let mut one: Vec<u8> = vec![0u8; 1];
    let extra = match crate::io::read_into(input, one.as_mut_slice(), 1) {
        Ok(n) => n,
        Err(_) => return (Err(StreamHashError::DrainInput), Ghost(t)),
    };
    proof {
        t.extra = Some(extra as nat);
    }
    (h.finish(extra), Ghost(t))
}

/// The chunks were read from an input holding `input` a whole chunk at a
/// time: each is the next `size` bytes, or all that is left where less
/// is.
pub open spec fn chunked(size: nat, input: Seq<u8>, cs: Seq<Seq<u8>>) -> bool
    decreases cs.len(),
{
    cs.len() == 0 || (chunked(size, input, cs.drop_last()) && cs.last() == next_chunk(
        size,
        input.skip(joined(cs.drop_last()).len() as int),
    ))
}

/// Checking the chunks read a whole chunk at a time follows
/// `stream_outcome`: a refused chunk ends the outcome with its fault after
/// the chunks before it, and otherwise the outcome goes on from where the
/// checks stand, after the bytes read.
proof fn lemma_run_follows_outcome(v: HasherView, input: Seq<u8>, cs: Seq<Seq<u8>>)
    requires
        chunked(v.size, input, cs),
        cs.len() <= v.lines.len(),
    ensures
        match run_chunks(v, cs) {
            Ok(w) => {
                let j = joined(cs);
                &&& w.size == v.size
                &&& w.lines == v.lines.skip(cs.len() as int)
                &&& w.offset == v.offset + j.len()
                &&& j.len() <= input.len()
                &&& j == input.take(j.len() as int)
                &&& stream_outcome(v, input) == (j + stream_outcome(w, input.skip(j.len() as int)).0,
                    stream_outcome(w, input.skip(j.len() as int)).1)
            },
            Err((k, f)) => k < cs.len() && stream_outcome(v, input) == (joined(cs.take(k as int)), Err::<
                (),
                StreamFault,
            >(f)),
        },
    decreases cs.len(),
{
    if cs.len() == 0 {
        assert(v.lines.skip(0) =~= v.lines);
        assert(input.skip(0) =~= input);
        assert(input.take(0) =~= joined(cs));
        assert(joined(cs) + stream_outcome(v, input).0 =~= stream_outcome(v, input).0);
    } else {
        let p = cs.drop_last();
        let c = cs.last();
        lemma_run_follows_outcome(v, input, p);
        match run_chunks(v, p) {
            Err((k, f)) => {
                assert(cs.take(k as int) =~= p.take(k as int));
            },
            Ok(w1) => {
                let j1 = joined(p);
                let rest = input.skip(j1.len() as int);
                assert(w1.lines.len() > 0);
                assert(c == next_chunk(v.size, rest));
                assert(c == rest.take(c.len() as int));
                match step_spec(w1, c) {
                    Err(f) => {
                        assert(cs.take(p.len() as int) =~= p);
                        assert(j1 + Seq::<u8>::empty() =~= j1);
                    },
                    Ok(w) => {
                        let j = joined(cs);
                        assert(j == j1 + c);
                        assert(w.lines =~= v.lines.skip(cs.len() as int));
                        assert(rest.skip(c.len() as int) =~= input.skip(j.len() as int));
                        assert(j =~= input.take(j.len() as int));
                        let o2 = stream_outcome(w, input.skip(j.len() as int));
                        assert(j1 + (c + o2.0) =~= j + o2.0);
                    },
                }
            },
        }
    }
}

/// A copy whose input hands out the bytes `input` a whole chunk at a
/// time, and where neither the hash file, the input nor the output
/// failed, ends as `stream_outcome` says of `input` with the digest lines
/// it read (every line of the hash file, where the copy got to its end):
/// it wrote the bytes of the outcome and succeeds exactly when the
/// outcome does, and otherwise fails with the outcome's fault.
pub proof fn lemma_copy_follows_outcome(t: StreamTrace, r: Result<(), StreamHashError>, input: Seq<u8>)
    requires
        stream_result(t, r),
        t.hash_end != HashEnd::Failed,
        hash_file_spec(t.hash_file) is Ok,
        chunked(hash_file_spec(t.hash_file)->Ok_0.0, input, t.chunks),
        t.extra matches Some(x) ==> (x == 0 <==> input.len() <= joined(t.chunks).len()),
        r != Err::<(), StreamHashError>(StreamHashError::ReadInput),
        r != Err::<(), StreamHashError>(StreamHashError::WriteOutput),
        r != Err::<(), StreamHashError>(StreamHashError::DrainInput),
    ensures
        ({
            let (n, ls) = hash_file_spec(t.hash_file)->Ok_0;
            let (o, res) = stream_outcome(HasherView { size: n, lines: ls, offset: 0 }, input);
            &&& joined(t.written) == o
            &&& r is Ok <==> res is Ok
            &&& res matches Err(f) ==> (r matches Err(e) && reports_stream_fault(f, e))
        }),
{
    let (n, ls) = hash_file_spec(t.hash_file)->Ok_0;
    let v0 = HasherView { size: n, lines: ls, offset: 0 };
    lemma_run_follows_outcome(v0, input, t.chunks);
    match run_chunks(v0, t.chunks) {
        Err((k, f)) => {},
        Ok(w) => {
            let j = joined(t.chunks);
            assert(t.written == t.chunks);
            assert(w.lines.len() == 0);
            assert(j + Seq::<u8>::empty() =~= j);
        },
    }
}

/// Checks that all went through: each chunk was one to `size` bytes and
/// matched the digest on its line, and the copy stands after them.
proof fn lemma_run_ok_matches(v: HasherView, cs: Seq<Seq<u8>>)
    requires
        run_chunks(v, cs) is Ok,
        cs.len() <= v.lines.len(),
    ensures
        run_chunks(v, cs)->Ok_0.lines == v.lines.skip(cs.len() as int),
        run_chunks(v, cs)->Ok_0.size == v.size,
        forall|i: int| 0 <= i < cs.len() ==> 1 <= (#[trigger] cs[i]).len() && chunk_matches(v.lines[i], cs[i]),
    decreases cs.len(),
{
    if cs.len() == 0 {
        assert(v.lines.skip(0) =~= v.lines);
    } else {
        let p = cs.drop_last();
        lemma_run_ok_matches(v, p);
        let w1 = run_chunks(v, p)->Ok_0;
        assert(w1.lines[0] == v.lines[p.len() as int]);
        assert(w1.lines.drop_first() =~= v.lines.skip(cs.len() as int));
        assert forall|i: int| 0 <= i < cs.len() implies 1 <= (#[trigger] cs[i]).len() && chunk_matches(
            v.lines[i],
            cs[i],
        ) by {
            if i < p.len() {
                assert(cs[i] == p[i]);
            }
        }
    }
}

/// A copy that succeeds read the whole hash file, checked one chunk of
/// one to `size` bytes against each of its digest lines, and wrote
/// exactly those chunks: nothing was written that was not checked.
pub proof fn lemma_success_verified(t: StreamTrace, r: Result<(), StreamHashError>)
    requires
        stream_result(t, r),
        r is Ok,
    ensures
        t.hash_end == HashEnd::Ended,
        stream_verified(t.hash_file, t.chunks),
        t.written == t.chunks,
{
    let (n, ls) = hash_file_spec(t.hash_file)->Ok_0;
    let v0 = HasherView { size: n, lines: ls, offset: 0 };
    lemma_run_ok_matches(v0, t.chunks);
}

} // verus!
