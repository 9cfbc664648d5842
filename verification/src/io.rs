//! Stream helpers: bounded copies, readers and writers that refuse to run
//! past a limit, a reader that copies what it reads, and compression
//! format detection.

use crate::text::{chars_of, dec_string, extend_chars, push_decimal, string_of};
use std::io::{Read, Seek, Write};
use vstd::prelude::*;

verus! {

#[verifier::external_type_specification]
#[verifier::external_body]
pub struct ExIoError(std::io::Error);

/// An owned copy of the bytes.
pub fn owned_bytes(b: &[u8]) -> (r: Vec<u8>)
    ensures
        r@ == b@,
{
    let mut out: Vec<u8> = Vec::new();
    let mut i: usize = 0;
    while i < b.len()
        invariant
            i <= b@.len(),
            out@ == b@.take(i as int),
        decreases b@.len() - i,
    {
        out.push(b[i]);
        i += 1;
        assert(out@ =~= b@.take(i as int));
    }
    assert(b@.take(b@.len() as int) =~= b@);
    out
}

/// Default size of I/O buffers.
pub const BUFFER_SIZE: usize = 262144;

/// `Read::read` into `buf[..len]`. The `Read` documentation guarantees
/// that a successful call reports at most `len` bytes; nothing is stated
/// about the bytes written, which depend on the reader.
#[verifier::external_body]
pub(crate) fn read_into<R: Read + ?Sized>(r: &mut R, buf: &mut [u8], len: usize) -> (res: Result<
    usize,
    std::io::Error,
>)
    requires
        len <= old(buf)@.len(),
    ensures
        final(buf)@.len() == old(buf)@.len(),
        res matches Ok(n) ==> n <= len,
{
    r.read(&mut buf[..len])
}

/// `Read::read` into `buf[start..end]`, once. A success reports at most
/// `end - start` bytes.
#[verifier::external_body]
pub(crate) fn read_range<R: Read + ?Sized>(r: &mut R, buf: &mut [u8], start: usize, end: usize) -> (res:
    Result<usize, std::io::Error>)
    requires
        start <= end <= old(buf)@.len(),
    ensures
        final(buf)@.len() == old(buf)@.len(),
        res matches Ok(n) ==> n <= end - start,
{
    r.read(&mut buf[start..end])
}

#[verifier::external_type_specification]
#[verifier::external_body]
pub struct ExSeekFrom(std::io::SeekFrom);

/// `Seek::seek`; what it returns depends on the stream.
#[verifier::external_body]
pub(crate) fn seek_to<S: Seek + ?Sized>(s: &mut S, pos: std::io::SeekFrom) -> (res: Result<u64, std::io::Error>) {
    s.seek(pos)
}

/// Whether the error's `kind()` is `ErrorKind::Interrupted`, the error
/// after which `std::io::Read` says a read may simply be issued again.
#[verifier::external_body]
fn is_interrupted(e: &std::io::Error) -> (r: bool) {
    e.kind() == std::io::ErrorKind::Interrupted
}

/// `Read::read` into `buf[start..end]`, issued again each time it fails
/// with `ErrorKind::Interrupted` (as `std::io::copy` does), up to
/// `u64::MAX` times. A success reports at most `end - start` bytes.
pub(crate) fn read_retrying<R: Read + ?Sized>(
    r: &mut R,
    buf: &mut [u8],
    start: usize,
    end: usize,
) -> (res: Result<usize, std::io::Error>)
    requires
        start <= end <= old(buf)@.len(),
    ensures
        final(buf)@.len() == old(buf)@.len(),
        res matches Ok(n) ==> n <= end - start,
{
    let mut tries: u64 = u64::MAX;
    loop
        invariant
            start <= end <= buf@.len(),
            buf@.len() == old(buf)@.len(),
        decreases tries,
    {
        match read_range(r, buf, start, end) {
            Ok(n) => return Ok(n),
            Err(e) => {
                if tries == 0 || !is_interrupted(&e) {
                    return Err(e);
                }
                tries = tries - 1;
            },
        }
    }
}

/// `Write::write` of `buf[..len]`. The `Write` documentation guarantees
/// that a successful call reports at most `len` bytes written.
#[verifier::external_body]
fn write_from<W: Write + ?Sized>(w: &mut W, buf: &[u8], len: usize) -> (res: Result<
    usize,
    std::io::Error,
>)
    requires
        len <= buf@.len(),
    ensures
        res matches Ok(n) ==> n <= len,
{
    w.write(&buf[..len])
}

/// `Write::write_all` of `buf[..len]`.
#[verifier::external_body]
pub(crate) fn write_all_from<W: Write + ?Sized>(w: &mut W, buf: &[u8], len: usize) -> (res: Result<
    (),
    std::io::Error,
>)
    requires
        len <= buf@.len(),
{
    w.write_all(&buf[..len])
}

/// `Write::flush`.
#[verifier::external_body]
fn flush_writer<W: Write + ?Sized>(w: &mut W) -> (res: Result<(), std::io::Error>) {
    w.flush()
}

/// `std::io::Error::new` with kind `Other` and the given message, which
/// is what the error's `Display` shows.
#[verifier::external_body]
fn other_error(message: String) -> (e: std::io::Error) {
    std::io::Error::new(std::io::ErrorKind::Other, message)
}

/// The message of a collision at the limit: `collision with <conflict>
/// at offset <offset>`.
pub open spec fn collision_text(conflict: Seq<char>, offset: u64) -> Seq<char> {
    "collision with "@ + conflict + " at offset "@ + dec_string(offset as nat)
}

/// The message of a collision with `conflict` at `offset`.
pub fn collision_message(conflict: &str, offset: u64) -> (r: String)
    ensures
        r@ == collision_text(conflict@, offset),
{
    let mut out: Vec<char> = Vec::new();
    extend_chars(&mut out, &chars_of("collision with "));
    extend_chars(&mut out, &chars_of(conflict));
    extend_chars(&mut out, &chars_of(" at offset "));
    push_decimal(&mut out, offset);
    string_of(&out)
}

/// `std::io::Error::new` with kind `OutOfMemory`: the data read does not
/// fit in memory.
#[verifier::external_body]
pub(crate) fn too_large_error() -> (e: std::io::Error) {
    std::io::Error::new(std::io::ErrorKind::OutOfMemory, "input too large")
}

/// Reads `r` to its end, appending what it gives to `data`; the bytes
/// already in `data` stay.
pub fn read_to_end<R: Read + ?Sized>(r: &mut R, data: &mut Vec<u8>) -> (res: Result<
    (),
    std::io::Error,
>)
    ensures
        final(data)@.len() >= old(data)@.len(),
        final(data)@.take(old(data)@.len() as int) == old(data)@,
{
    let mut buf: Vec<u8> = vec![0u8; 4096];
    loop
        invariant
            buf@.len() == 4096,
            data@.len() >= old(data)@.len(),
            data@.take(old(data)@.len() as int) == old(data)@,
        decreases usize::MAX - data@.len(),
    {
        let n = match read_retrying(r, buf.as_mut_slice(), 0, 4096) {
            Ok(n) => n,
            Err(e) => return Err(e),
        };
        if n == 0 {
            return Ok(());
        }
        if n > usize::MAX - data.len() {
            return Err(too_large_error());
        }
        let ghost before = data@;
        let mut i: usize = 0;
        while i < n
            invariant
                i <= n,
                n <= buf@.len(),
                data@.len() == before.len() + i,
                before.len() + n <= usize::MAX,
                data@.take(before.len() as int) == before,
            decreases n - i,
        {
            data.push(buf[i]);
            assert(data@.take(before.len() as int) =~= before);
            i += 1;
        }
        assert(data@.take(old(data)@.len() as int) =~= before.take(old(data)@.len() as int));
    }
}

/// Why a copy failed.
#[derive(Debug)]
pub enum CopyError {
    /// The reader or the writer failed.
    Io(std::io::Error),
    /// The reader ran out before `expected` bytes were copied.
    Short { expected: u64, copied: u64 },
}

/// Where a copy of at most `n` bytes stands: the bytes still allowed, the
/// bytes copied, and (as a record) which bytes they were.
pub struct CopyN {
    left: u64,
    written: u64,
    copied: Ghost<Seq<u8>>,
}

/// A copy in progress: the bytes still allowed, the bytes copied, and
/// which bytes they were, in order.
pub struct CopyNView {
    pub left: u64,
    pub written: u64,
    pub copied: Seq<u8>,
}

impl View for CopyN {
    type V = CopyNView;

    closed spec fn view(&self) -> CopyNView {
        CopyNView { left: self.left, written: self.written, copied: self.copied@ }
    }
}

impl CopyN {
    /// A copy of at most `n` bytes, before anything was read.
    pub fn new(n: u64) -> (r: Self)
        ensures
            r@.left == n,
            r@.written == 0,
            r@.copied == Seq::<u8>::empty(),
    {
        CopyN { left: n, written: 0, copied: Ghost(Seq::empty()) }
    }

    /// How many bytes to ask the reader for, into a buffer of `buf_len`:
    /// no more than are still allowed.
    pub fn request(&self, buf_len: usize) -> (r: usize)
        ensures
            r as int == if (self@.left as int) < buf_len as int {
                self@.left as int
            } else {
                buf_len as int
            },
    {
        if self.left < buf_len as u64 {
            self.left as usize
        } else {
            buf_len
        }
    }

    /// Takes the bytes the reader gave, once they were written; whether to
    /// read on: not after an empty read (the end of the input) nor once
    /// nothing more is allowed.
    pub fn took(&mut self, chunk: &[u8]) -> (more: bool)
        requires
            chunk@.len() <= old(self)@.left,
            old(self)@.written + old(self)@.left <= u64::MAX,
        ensures
            final(self)@.left == old(self)@.left - chunk@.len(),
            final(self)@.written == old(self)@.written + chunk@.len(),
            final(self)@.copied == old(self)@.copied + chunk@,
            more == (chunk@.len() > 0 && final(self)@.left > 0),
    {
        let k = chunk.len() as u64;
        self.left = self.left - k;
        self.written = self.written + k;
        self.copied = Ghost(self.copied@ + chunk@);
        k > 0 && self.left > 0
    }

    /// The bytes copied.
    pub fn written(&self) -> (r: u64)
        ensures
            r == self@.written,
    {
        self.written
    }
}

/// The bytes that the reads gave, in order.
pub open spec fn joined(reads: Seq<Seq<u8>>) -> Seq<u8>
    decreases reads.len(),
{
    if reads.len() == 0 {
        seq![]
    } else {
        joined(reads.drop_last()) + reads.last()
    }
}

/// The reads of a copy of at most `n` bytes through a buffer of
/// `buf_len` bytes: none gave more than a buffer, only the last may be
/// empty, and together they gave at most `n` bytes.
pub open spec fn copy_reads_ok(n: u64, buf_len: nat, reads: Seq<Seq<u8>>) -> bool {
    &&& joined(reads).len() <= n
    &&& forall|i: int| 0 <= i < reads.len() ==> (#[trigger] reads[i]).len() <= buf_len
    &&& forall|i: int| 0 <= i < reads.len() - 1 ==> (#[trigger] reads[i]).len() > 0
}

/// The copy ran its course: `n` bytes were copied, or the input ended
/// (a read gave nothing).
pub open spec fn copy_finished(n: u64, reads: Seq<Seq<u8>>) -> bool {
    joined(reads).len() == n || (reads.len() > 0 && reads.last().len() == 0)
}

/// Copies at most `n` bytes from `reader` to `writer` through `buf`,
/// stopping early at end of input; returns the number of bytes copied.
/// Each step is that of `CopyN` on the bytes read. The second result
/// records the reads whose bytes were written, in order.
pub fn copy_n<R: Read + ?Sized, W: Write + ?Sized>(
    reader: &mut R,
    writer: &mut W,
    n: u64,
    buf: &mut [u8],
) -> (r: (Result<u64, CopyError>, Ghost<Seq<Seq<u8>>>))
    ensures
        copy_reads_ok(n, old(buf)@.len(), r.1@),
        r.0 matches Ok(w) ==> w == joined(r.1@).len() && copy_finished(n, r.1@),
        r.0 is Err ==> (r.0 matches Err(CopyError::Io(_))) && !copy_finished(n, r.1@),
        n == 0 ==> (r.0 matches Ok(0) && r.1@.len() == 0),
        final(buf)@.len() == old(buf)@.len(),
{
    let ghost mut reads: Seq<Seq<u8>> = seq![];
    let mut state = CopyN::new(n);
    if n == 0 {
        return (Ok(0), Ghost(reads));
    }
    loop
        invariant
            state@.written + state@.left == n,
            state@.left > 0,
            state@.copied == joined(reads),
            state@.written == joined(reads).len(),
            buf@.len() == old(buf)@.len(),
            forall|i: int| 0 <= i < reads.len() ==> (#[trigger] reads[i]).len() <= old(buf)@.len(),
            forall|i: int| 0 <= i < reads.len() ==> (#[trigger] reads[i]).len() > 0,
        decreases state@.left,
    {
        let len = state.request(buf.len());
        let count = match read_retrying(reader, buf, 0, len) {
            Ok(count) => count,
            Err(e) => {
                return (Err(CopyError::Io(e)), Ghost(reads));
            },
        };
        if count > 0 {
            if let Err(e) = write_all_from(writer, buf, count) {
                return (Err(CopyError::Io(e)), Ghost(reads));
            }
        }
        let ghost before = reads;
        let more = state.took(&buf[0..count]);
        proof {
            reads = reads.push(buf@.subrange(0, count as int));
            assert(reads.drop_last() =~= before);
        }
        if !more {
            return (Ok(state.written()), Ghost(reads));
        }
    }
}

/// The result of a copy that had to copy exactly `n` bytes and copied
/// `copied`: `n` where they are equal, else the shortfall.
pub fn exactly_n(n: u64, copied: u64) -> (r: Result<u64, CopyError>)
    ensures
        copied == n ==> (r matches Ok(w) && w == n),
        copied != n ==> (r matches Err(CopyError::Short { expected, copied: c }) && expected == n
            && c == copied),
{
    if copied != n {
        Err(CopyError::Short { expected: n, copied })
    } else {
        Ok(n)
    }
}

/// Like `copy_n`, but fails unless exactly `n` bytes were copied.
pub fn copy_exactly_n<R: Read + ?Sized, W: Write + ?Sized>(
    reader: &mut R,
    writer: &mut W,
    n: u64,
    buf: &mut [u8],
) -> (r: (Result<u64, CopyError>, Ghost<Seq<Seq<u8>>>))
    ensures
        copy_reads_ok(n, old(buf)@.len(), r.1@),
        r.0 matches Ok(w) ==> w == n && joined(r.1@).len() == n,
        r.0 matches Err(CopyError::Short { expected, copied }) ==> expected == n && copied
            == joined(r.1@).len() && copied < n && copy_finished(n, r.1@),
        r.0 matches Err(CopyError::Io(_)) ==> !copy_finished(n, r.1@),
        n == 0 ==> r.0 matches Ok(0),
        final(buf)@.len() == old(buf)@.len(),
{
    let (res, reads) = copy_n(reader, writer, n, buf);
    match res {
        Ok(copied) => (exactly_n(n, copied), reads),
        Err(e) => (Err(e), reads),
    }
}

/// What a read of a `LimitReader` answers once the source answered
/// `count` bytes: below the limit (`remaining > 0`) the count itself; at
/// the limit, where the source was asked for one byte, no bytes when the
/// source is at its end, and `None`, a collision, when it had more.
pub open spec fn limit_answer_spec(remaining: u64, count: nat) -> Option<nat> {
    if remaining > 0 {
        Some(count)
    } else if count == 0 {
        Some(0)
    } else {
        None
    }
}

/// `limit_answer_spec`, computed.
pub fn limit_answer(remaining: u64, count: usize) -> (r: Option<usize>)
    ensures
        r matches Some(n) ==> limit_answer_spec(remaining, count as nat) == Some(n as nat),
        r is None ==> limit_answer_spec(remaining, count as nat) is None,
{
    if remaining > 0 {
        Some(count)
    } else if count == 0 {
        Some(0)
    } else {
        None
    }
}

/// A reader that yields at most `length` bytes of `source` and fails if
/// `source` holds more.
pub struct LimitReader<R> {
    source: R,
    length: u64,
    remaining: u64,
    conflict: String,
    /// The bytes handed out so far.
    delivered: Ghost<Seq<u8>>,
    /// What the source's successful reads answered, in order.
    answers: Ghost<Seq<nat>>,
}

impl<R> LimitReader<R> {
    pub closed spec fn length(&self) -> u64 {
        self.length
    }

    /// The bytes that reads have handed out, in order.
    pub closed spec fn delivered(&self) -> Seq<u8> {
        self.delivered@
    }

    /// The byte counts that the source's successful reads gave, in order.
    pub closed spec fn source_answers(&self) -> Seq<nat> {
        self.answers@
    }

    /// What was handed out and what may still be read make up the limit.
    pub closed spec fn wf(&self) -> bool {
        self.delivered@.len() + self.remaining == self.length
    }

    /// Bytes that may still be read.
    pub closed spec fn remaining(&self) -> u64 {
        self.remaining
    }

    /// A reader at the start of `source`; nothing is read yet.
    pub fn new(source: R, length: u64, conflict: String) -> (r: Self)
        ensures
            r.length() == length,
            r.remaining() == length,
            r.delivered() == Seq::<u8>::empty(),
            r.source_answers() == Seq::<nat>::empty(),
            r.wf(),
    {
        LimitReader {
            source,
            length,
            remaining: length,
            conflict,
            delivered: Ghost(Seq::empty()),
            answers: Ghost(Seq::empty()),
        }
    }
}

/// How a read of a limit reader with `old` state ends, into a buffer of
/// `buf_len` bytes that holds `data` after it: an empty buffer reads
/// nothing from the source; otherwise the source is asked once, for at
/// most what is still allowed (one byte at the limit), and a failure of
/// the source is passed on; its answer decides as `limit_answer_spec`
/// says, and the bytes answered are handed out.
pub open spec fn limit_read_ends<R>(
    old: LimitReader<R>,
    new: LimitReader<R>,
    buf_len: nat,
    data: Seq<u8>,
    r: Result<usize, std::io::Error>,
) -> bool {
    &&& new.length() == old.length()
    &&& if buf_len == 0 {
        &&& r matches Ok(0)
        &&& new.source_answers() == old.source_answers()
        &&& new.remaining() == old.remaining()
        &&& new.delivered() == old.delivered()
    } else if new.source_answers() == old.source_answers() {
        &&& r is Err
        &&& new.remaining() == old.remaining()
        &&& new.delivered() == old.delivered()
    } else {
        let k = new.source_answers().last();
        &&& new.source_answers() == old.source_answers().push(k)
        &&& k <= (if old.remaining() == 0 {
            1
        } else if old.remaining() < buf_len {
            old.remaining() as nat
        } else {
            buf_len
        })
        &&& match limit_answer_spec(old.remaining(), k) {
            Some(n) => {
                &&& r matches Ok(m) && m == n
                &&& new.remaining() == old.remaining() - n
                &&& new.delivered() == old.delivered() + data.take(n as int)
            },
            None => {
                &&& r is Err
                &&& new.remaining() == old.remaining()
                &&& new.delivered() == old.delivered()
            },
        }
    }
}

impl<R: Read> LimitReader<R> {
    /// Reads up to the remaining allowance. At the limit, succeeds with
    /// 0 only if `source` is at its end, and fails otherwise with the
    /// error whose message is `collision_message(conflict, length)`.
    pub fn read_limited(&mut self, buf: &mut [u8]) -> (r: Result<usize, std::io::Error>)
        ensures
            old(self).wf() ==> final(self).wf(),
            final(buf)@.len() == old(buf)@.len(),
            limit_read_ends(*old(self), *final(self), old(buf)@.len(), final(buf)@, r),
    {
        if buf.len() == 0 {
            assert(self.delivered@ + buf@.take(0) =~= self.delivered@);
            return Ok(0);
        }
        let allowed: u64 = if self.remaining == 0 {
            1
        } else if self.remaining < buf.len() as u64 {
            self.remaining
        } else {
            buf.len() as u64
        };
        let count = match read_into(&mut self.source, buf, allowed as usize) {
            Ok(count) => count,
            Err(e) => {
                return Err(e);
            },
        };
        self.answers = Ghost(self.answers@.push(count as nat));
        match limit_answer(self.remaining, count) {
            Some(n) => {
                assert(n <= self.remaining);
                self.remaining = self.remaining - n as u64;
                self.delivered = Ghost(self.delivered@ + buf@.take(n as int));
                Ok(n)
            },
            None => Err(other_error(collision_message(self.conflict.as_str(), self.length))),
        }
    }
}

impl<R: Read> Read for LimitReader<R> {
    /// `read_limited`.
    fn read(&mut self, buf: &mut [u8]) -> (r: Result<usize, std::io::Error>)
        ensures
            old(self).wf() ==> final(self).wf(),
            final(buf)@.len() == old(buf)@.len(),
            limit_read_ends(*old(self), *final(self), old(buf)@.len(), final(buf)@, r),
    {
        self.read_limited(buf)
    }
}

/// A writer that accepts at most `length` bytes for `sink` and fails
/// once they have been written.
pub struct LimitWriter<W> {
    sink: W,
    length: u64,
    remaining: u64,
    conflict: String,
    /// The bytes the sink has taken so far.
    sent: Ghost<Seq<u8>>,
    /// What the sink's successful writes answered, in order.
    answers: Ghost<Seq<nat>>,
}

impl<W> LimitWriter<W> {
    pub closed spec fn length(&self) -> u64 {
        self.length
    }

    /// The bytes that writes have handed to the sink and it took, in
    /// order.
    pub closed spec fn sent(&self) -> Seq<u8> {
        self.sent@
    }

    /// The byte counts that the sink's successful writes gave, in order.
    pub closed spec fn sink_answers(&self) -> Seq<nat> {
        self.answers@
    }

    /// What the sink took and what may still be written make up the
    /// limit.
    pub closed spec fn wf(&self) -> bool {
        self.sent@.len() + self.remaining == self.length
    }

    /// Bytes that may still be written.
    pub closed spec fn remaining(&self) -> u64 {
        self.remaining
    }

    /// A writer at the start of `sink`; nothing is written yet.
    pub fn new(sink: W, length: u64, conflict: String) -> (r: Self)
        ensures
            r.length() == length,
            r.remaining() == length,
            r.sent() == Seq::<u8>::empty(),
            r.sink_answers() == Seq::<nat>::empty(),
            r.wf(),
    {
        LimitWriter {
            sink,
            length,
            remaining: length,
            conflict,
            sent: Ghost(Seq::empty()),
            answers: Ghost(Seq::empty()),
        }
    }
}

/// How a write of a limit writer with `old` state ends, for the bytes
/// `data`: no bytes succeed at once; at the limit it fails, with the
/// message `collision_message(conflict, length)`, without a write to the
/// sink; otherwise the sink is asked once to take at most what is still
/// allowed, a failure of the sink is passed on, and what it answered is
/// the answer, those bytes being sent.
pub open spec fn limit_write_ends<W>(
    old: LimitWriter<W>,
    new: LimitWriter<W>,
    data: Seq<u8>,
    r: Result<usize, std::io::Error>,
) -> bool {
    &&& new.length() == old.length()
    &&& if data.len() == 0 {
        &&& r matches Ok(0)
        &&& new.sink_answers() == old.sink_answers()
        &&& new.remaining() == old.remaining()
        &&& new.sent() == old.sent()
    } else if old.remaining() == 0 || new.sink_answers() == old.sink_answers() {
        &&& r is Err
        &&& new.sink_answers() == old.sink_answers()
        &&& new.remaining() == old.remaining()
        &&& new.sent() == old.sent()
    } else {
        let k = new.sink_answers().last();
        &&& new.sink_answers() == old.sink_answers().push(k)
        &&& k <= (if old.remaining() < data.len() {
            old.remaining() as nat
        } else {
            data.len()
        })
        &&& r matches Ok(m) && m == k
        &&& new.remaining() == old.remaining() - k
        &&& new.sent() == old.sent() + data.take(k as int)
    }
}

impl<W: Write> LimitWriter<W> {
    /// Writes up to the remaining allowance; fails when none is left.
    pub fn write_limited(&mut self, buf: &[u8]) -> (r: Result<usize, std::io::Error>)
        ensures
            old(self).wf() ==> final(self).wf(),
            limit_write_ends(*old(self), *final(self), buf@, r),
    {
        if buf.len() == 0 {
            assert(self.sent@ + buf@.take(0) =~= self.sent@);
            return Ok(0);
        }
        let allowed: u64 = if self.remaining < buf.len() as u64 {
            self.remaining
        } else {
            buf.len() as u64
        };
        if allowed == 0 {
            return Err(other_error(collision_message(self.conflict.as_str(), self.length)));
        }
        let count = match write_from(&mut self.sink, buf, allowed as usize) {
            Ok(count) => count,
            Err(e) => {
                return Err(e);
            },
        };
        self.answers = Ghost(self.answers@.push(count as nat));
        self.remaining = self.remaining - count as u64;
        self.sent = Ghost(self.sent@ + buf@.take(count as int));
        Ok(count)
    }
}

impl<W: Write> Write for LimitWriter<W> {
    /// `write_limited`.
    fn write(&mut self, buf: &[u8]) -> (r: Result<usize, std::io::Error>)
        ensures
            old(self).wf() ==> final(self).wf(),
            limit_write_ends(*old(self), *final(self), buf@, r),
    {
        self.write_limited(buf)
    }

    fn flush(&mut self) -> Result<(), std::io::Error> {
        flush_writer(&mut self.sink)
    }
}

/// A reader that copies everything it reads to a writer.
pub struct TeeReader<R, W> {
    source: R,
    dest: W,
    /// The bytes handed to the destination so far.
    copied: Ghost<Seq<u8>>,
    /// What each successful read of the source gave, in order.
    taken: Ghost<Seq<Seq<u8>>>,
}

impl<R, W> TeeReader<R, W> {
    pub closed spec fn source(&self) -> R {
        self.source
    }

    pub closed spec fn dest(&self) -> W {
        self.dest
    }

    /// The bytes that reads have returned and written to the destination,
    /// in order.
    pub closed spec fn copied(&self) -> Seq<u8> {
        self.copied@
    }

    /// What each successful read of the source gave, in order.
    pub closed spec fn taken(&self) -> Seq<Seq<u8>> {
        self.taken@
    }

    pub fn new(source: R, dest: W) -> (r: Self)
        ensures
            r.source() == source,
            r.dest() == dest,
            r.copied() == Seq::<u8>::empty(),
            r.taken() == Seq::<Seq<u8>>::empty(),
    {
        TeeReader { source, dest, copied: Ghost(Seq::empty()), taken: Ghost(Seq::empty()) }
    }

    pub fn into_inner(self) -> (r: (R, W))
        ensures
            r == (self.source(), self.dest()),
    {
        (self.source, self.dest)
    }
}

/// How a read of a tee reader with `old` state ends, into a buffer of
/// `buf_len` bytes that holds `data` after it: an empty buffer reads
/// nothing; otherwise the source is read once, and a failure of the
/// source is passed on; the bytes it gave are then written to the
/// destination, and the read succeeds with their count only where they
/// were copied, and fails with nothing copied otherwise.
pub open spec fn tee_read_ends<R, W>(
    old: TeeReader<R, W>,
    new: TeeReader<R, W>,
    buf_len: nat,
    data: Seq<u8>,
    r: Result<usize, std::io::Error>,
) -> bool {
    if buf_len == 0 {
        &&& r matches Ok(0)
        &&& new.taken() == old.taken()
        &&& new.copied() == old.copied()
    } else if new.taken() == old.taken() {
        &&& r is Err
        &&& new.copied() == old.copied()
    } else {
        let c = new.taken().last();
        &&& new.taken() == old.taken().push(c)
        &&& c.len() <= buf_len
        &&& c == data.take(c.len() as int)
        &&& r matches Ok(m) ==> m == c.len() && new.copied() == old.copied() + c
        &&& r is Err ==> new.copied() == old.copied()
    }
}

impl<R: Read, W: Write> TeeReader<R, W> {
    /// Reads from the source and writes the same bytes to the destination.
    pub fn read_tee(&mut self, buf: &mut [u8]) -> (r: Result<usize, std::io::Error>)
        ensures
            final(buf)@.len() == old(buf)@.len(),
            tee_read_ends(*old(self), *final(self), old(buf)@.len(), final(buf)@, r),
            r matches Ok(n) ==> final(self).copied() == old(self).copied() + final(buf)@.take(n as int),
            r is Err ==> final(self).copied() == old(self).copied(),
    {
        if buf.len() == 0 {
            assert(self.copied@ + buf@.take(0) =~= self.copied@);
            return Ok(0);
        }
        let len = buf.len();
        let count = match read_into(&mut self.source, buf, len) {
            Ok(count) => count,
            Err(e) => {
                return Err(e);
            },
        };
        self.taken = Ghost(self.taken@.push(buf@.take(count as int)));
        assert(self.taken@.last() == buf@.take(count as int));
        match write_all_from(&mut self.dest, buf, count) {
            Ok(()) => {
                self.copied = Ghost(self.copied@ + buf@.take(count as int));
                Ok(count)
            },
            Err(e) => Err(e),
        }
    }
}

impl<R: Read, W: Write> Read for TeeReader<R, W> {
    /// `read_tee`.
    fn read(&mut self, buf: &mut [u8]) -> (r: Result<usize, std::io::Error>)
        ensures
            final(buf)@.len() == old(buf)@.len(),
            tee_read_ends(*old(self), *final(self), old(buf)@.len(), final(buf)@, r),
            r matches Ok(n) ==> final(self).copied() == old(self).copied() + final(buf)@.take(n as int),
            r is Err ==> final(self).copied() == old(self).copied(),
    {
        self.read_tee(buf)
    }
}

// ---------------------------------------------------------------------------
// Compression format detection
// ---------------------------------------------------------------------------

/// zstd frame magic number (RFC 8878, section 3.1.1).
pub const ZSTD_MAGIC: u32 = 0xFD2FB528;

/// Start of the skippable-frame magic number range (RFC 8878, 3.1.2).
pub const ZSTD_MAGIC_SKIPPABLE_START: u32 = 0x184D2A50;

/// Mask selecting the fixed part of a skippable-frame magic number.
pub const ZSTD_MAGIC_SKIPPABLE_MASK: u32 = 0xFFFFFFF0;

pub open spec fn le_u32(b: [u8; 4]) -> u32 {
    (b[0] as u32) | (b[1] as u32) << 8 | (b[2] as u32) << 16 | (b[3] as u32) << 24
}

/// Does the little-endian word start a zstd frame or a skippable frame?
pub fn is_zstd_magic(buf: [u8; 4]) -> (r: bool)
    ensures
        r == (le_u32(buf) == ZSTD_MAGIC || le_u32(buf) & ZSTD_MAGIC_SKIPPABLE_MASK
            == ZSTD_MAGIC_SKIPPABLE_START),
{
    let val: u32 = (buf[0] as u32) | (buf[1] as u32) << 8 | (buf[2] as u32) << 16 | (
    buf[3] as u32) << 24;
    val == ZSTD_MAGIC || val & ZSTD_MAGIC_SKIPPABLE_MASK == ZSTD_MAGIC_SKIPPABLE_START
}

/// Compression formats recognized by their leading bytes.
#[derive(Clone, Copy, Debug, PartialEq, Eq)]
pub enum Compression {
    Uncompressed,
    Gzip,
    Xz,
    Zstd,
}

pub open spec fn gzip_magic() -> Seq<u8> {
    seq![0x1fu8, 0x8bu8]
}

pub open spec fn xz_magic() -> Seq<u8> {
    seq![0xfdu8, 0x37u8, 0x7au8, 0x58u8, 0x5au8, 0x00u8]
}

/// The format that the first bytes of a stream announce.
pub open spec fn sniff_spec(b: Seq<u8>) -> Compression {
    if b.len() >= 2 && b.take(2) == gzip_magic() {
        Compression::Gzip
    } else if b.len() >= 6 && b.take(6) == xz_magic() {
        Compression::Xz
    } else if b.len() > 4 && (le_u32([b[0], b[1], b[2], b[3]]) == ZSTD_MAGIC || le_u32(
        [b[0], b[1], b[2], b[3]],
    ) & ZSTD_MAGIC_SKIPPABLE_MASK == ZSTD_MAGIC_SKIPPABLE_START) {
        Compression::Zstd
    } else {
        Compression::Uncompressed
    }
}

/// Detects the compression format from up to the first six bytes.
pub fn sniff_compression(sniff: &[u8]) -> (r: Compression)
    ensures
        r == sniff_spec(sniff@),
{
    if sniff.len() >= 2 && sniff[0] == 0x1f && sniff[1] == 0x8b {
        assert(sniff@.take(2) =~= gzip_magic());
        return Compression::Gzip;
    }
    assert(sniff@.len() >= 2 ==> sniff@.take(2) != gzip_magic()) by {
        if sniff@.len() >= 2 && sniff@.take(2) == gzip_magic() {
            assert(sniff@.take(2)[0] == sniff@[0]);
            assert(sniff@.take(2)[1] == sniff@[1]);
        }
    }
    if sniff.len() >= 6 && sniff[0] == 0xfd && sniff[1] == 0x37 && sniff[2] == 0x7a && sniff[3]
        == 0x58 && sniff[4] == 0x5a && sniff[5] == 0x00 {
        assert(sniff@.take(6) =~= xz_magic());
        return Compression::Xz;
    }
    assert(sniff@.len() >= 6 ==> sniff@.take(6) != xz_magic()) by {
        if sniff@.len() >= 6 && sniff@.take(6) == xz_magic() {
            assert(sniff@.take(6)[0] == sniff@[0]);
            assert(sniff@.take(6)[1] == sniff@[1]);
            assert(sniff@.take(6)[2] == sniff@[2]);
            assert(sniff@.take(6)[3] == sniff@[3]);
            assert(sniff@.take(6)[4] == sniff@[4]);
            assert(sniff@.take(6)[5] == sniff@[5]);
        }
    }
    if sniff.len() > 4 && is_zstd_magic([sniff[0], sniff[1], sniff[2], sniff[3]]) {
        return Compression::Zstd;
    }
    Compression::Uncompressed
}

} // verus!
