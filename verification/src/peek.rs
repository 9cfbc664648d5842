//! A reader that can look ahead in its stream without consuming what it
//! looked at, on top of a buffered reader of its source.

use crate::io::{read_range, seek_to};
use std::io::{Read, Seek, SeekFrom};
use vstd::prelude::*;

verus! {

/// Reads `source` through a buffer of a fixed capacity, with room for
/// bytes that were looked at but not consumed.
pub struct PeekReader<R> {
    source: R,
    buf: Vec<u8>,
    pos: usize,
    filled: usize,
    peeked: Vec<u8>,
    ppos: usize,
}

impl<R> PeekReader<R> {
    /// The positions lie within their buffers.
    pub closed spec fn wf(&self) -> bool {
        &&& self.pos <= self.filled <= self.buf@.len()
        &&& self.ppos <= self.peeked@.len()
    }

    /// The bytes looked at and not consumed yet; they come first.
    pub closed spec fn pending(&self) -> Seq<u8> {
        self.peeked@.subrange(self.ppos as int, self.peeked@.len() as int)
    }

    /// The bytes the buffer holds after those, read from the source and
    /// not consumed yet.
    pub closed spec fn buffered(&self) -> Seq<u8> {
        self.buf@.subrange(self.pos as int, self.filled as int)
    }

    pub closed spec fn capacity(&self) -> nat {
        self.buf@.len()
    }

}

impl<R: Read> PeekReader<R> {
    /// A reader of `inner` with a buffer of `capacity` bytes.
    pub fn with_capacity(capacity: usize, inner: R) -> (r: Self)
        ensures
            r.wf(),
            r.pending().len() == 0,
            r.buffered().len() == 0,
            r.capacity() == capacity,
    {
        PeekReader {
            source: inner,
            buf: vec![0u8; capacity],
            pos: 0,
            filled: 0,
            peeked: Vec::new(),
            ppos: 0,
        }
    }

    /// Refills the buffer from the source where it is empty.
    fn fill(&mut self) -> (r: Result<(), std::io::Error>)
        requires
            old(self).wf(),
        ensures
            final(self).wf(),
            final(self).pending() == old(self).pending(),
            final(self).capacity() == old(self).capacity(),
            final(self).peeked == old(self).peeked,
            final(self).ppos == old(self).ppos,
            old(self).buffered().len() > 0 ==> final(self).buffered() == old(self).buffered() && r is Ok,
    {
        if self.pos < self.filled {
            return Ok(());
        }
        let cap = self.buf.len();
        let n = match read_range(&mut self.source, self.buf.as_mut_slice(), 0, cap) {
            Ok(n) => n,
            Err(e) => return Err(e),
        };
        self.pos = 0;
        self.filled = n;
        Ok(())
    }

    /// Reads into `out` as a buffered reader does: from the buffer where
    /// it holds something, else from a refilled buffer, or straight from
    /// the source for a read at least as large as the buffer.
    fn buffered_read(&mut self, out: &mut [u8]) -> (r: Result<usize, std::io::Error>)
        requires
            old(self).wf(),
        ensures
            final(self).wf(),
            final(self).pending() == old(self).pending(),
            final(self).capacity() == old(self).capacity(),
            final(self).peeked == old(self).peeked,
            final(self).ppos == old(self).ppos,
            final(out)@.len() == old(out)@.len(),
            r matches Ok(n) ==> n <= old(out)@.len(),
            old(self).buffered().len() > 0 ==> ({
                let n = if old(out)@.len() < old(self).buffered().len() {
                    old(out)@.len()
                } else {
                    old(self).buffered().len()
                };
                &&& r == Ok::<usize, std::io::Error>(n as usize)
                &&& final(out)@.take(n as int) == old(self).buffered().take(n as int)
                &&& final(self).buffered() == old(self).buffered().skip(n as int)
            }),
    {
        if self.pos == self.filled && out.len() >= self.buf.len() {
            self.pos = 0;
            self.filled = 0;
            let len = out.len();
            return read_range(&mut self.source, out, 0, len);
        }
        match self.fill() {
            Ok(()) => {},
            Err(e) => return Err(e),
        }
        let avail = self.filled - self.pos;
        let n = if out.len() < avail {
            out.len()
        } else {
            avail
        };
        let ghost before = self.buffered();
        let mut i: usize = 0;
        while i < n
            invariant
                i <= n,
                n <= out@.len(),
                self.pos + n <= self.filled <= self.buf@.len(),
                before == self.buf@.subrange(self.pos as int, self.filled as int),
                out@.len() == old(out)@.len(),
                forall|j: int| 0 <= j < i ==> out@[j] == self.buf@[self.pos + j],
            decreases n - i,
        {
            out[i] = self.buf[self.pos + i];
            i += 1;
        }
        assert(out@.take(n as int) =~= before.take(n as int));
        self.pos = self.pos + n;
        assert(self.buffered() =~= before.skip(n as int));
        Ok(n)
    }

    /// The next `amt` bytes, without consuming them; fewer at the end of
    /// the stream.
    pub fn peek(&mut self, amt: usize) -> (r: Result<&[u8], std::io::Error>)
        requires
            old(self).wf(),
        ensures
            final(self).wf(),
            final(self).capacity() == old(self).capacity(),
            old(self).pending().len() >= amt ==> final(self).pending() == old(self).pending()
                && final(self).buffered() == old(self).buffered() && r is Ok,
            old(self).pending().len() < amt && old(self).pending().len() + old(self).buffered().len()
                >= amt ==> (r matches Ok(s) && s@ == old(self).pending() + old(self).buffered().take(
                amt - old(self).pending().len(),
            )),
            r matches Ok(s) ==> {
                &&& final(self).pending().take(old(self).pending().len() as int) == old(self).pending()
                &&& s@ == final(self).pending().take(s@.len() as int)
                &&& s@.len() == (if amt < final(self).pending().len() {
                    amt as nat
                } else {
                    final(self).pending().len()
                })
            },
    {
        let remaining = self.peeked.len() - self.ppos;
        if remaining < amt {
            // keep only the pending bytes, then extend them to `amt`
            let mut p: Vec<u8> = Vec::new();
            let mut i = self.ppos;
            while i < self.peeked.len()
                invariant
                    self.ppos <= i <= self.peeked@.len(),
                    p@ == self.peeked@.subrange(self.ppos as int, i as int),
                decreases self.peeked@.len() - i,
            {
                p.push(self.peeked[i]);
                i += 1;
            }
            let ghost old_pending = p@;
            let ghost covered = old(self).pending().len() + old(self).buffered().len() >= amt;
            assert(old_pending == old(self).pending());
            while p.len() < amt
                invariant
                    old_pending.len() <= p@.len() <= amt,
                    p@.take(old_pending.len() as int) == old_pending,
                decreases amt - p@.len(),
            {
                p.push(0u8);
                assert(p@.take(old_pending.len() as int) =~= old_pending);
            }
            self.ppos = 0;
            self.peeked = p;
            assert(self.peeked@.subrange(0, self.peeked@.len() as int) =~= self.peeked@);
            let mut extend = amt - remaining;
            let mut done = false;
            while extend > 0 && !done
                invariant
                    self.wf(),
                    self.ppos == 0,
                    old(self).pending().len() < amt,
                    old_pending.len() + extend <= amt,
                    self.peeked@.len() >= old_pending.len(),
                    self.peeked@.take(old_pending.len() as int) == old_pending,
                    !done ==> self.peeked@.len() == amt,
                    self.capacity() == old(self).capacity(),
                    old_pending == old(self).pending(),
                    covered == (old(self).pending().len() + old(self).buffered().len() >= amt),
                    covered ==> !done,
                    covered && extend > 0 ==> extend == amt - old_pending.len() && self.buffered()
                        == old(self).buffered(),
                    covered && extend == 0 ==> self.peeked@ == old_pending + old(self).buffered().take(
                        amt - old_pending.len(),
                    ),
                decreases extend + (if done {
                    0int
                } else {
                    1int
                }),
            {
                let start = amt - extend;
                let mut tmp: Vec<u8> = vec![0u8; extend];
                let ghost bufd = self.buffered();
                let count = match self.buffered_read(tmp.as_mut_slice()) {
                    Ok(c) => c,
                    Err(e) => return Err(e),
                };
                if count == 0 {
                    self.peeked.truncate(start);
                    assert(self.peeked@.take(old_pending.len() as int) =~= old_pending);
                    done = true;
                } else {
                    let mut j: usize = 0;
                    while j < count
                        invariant
                            self.wf(),
                            self.ppos == 0,
                            self.capacity() == old(self).capacity(),
                            j <= count,
                            count <= extend,
                            tmp@.len() == extend,
                            start + extend == amt,
                            self.peeked@.len() == amt,
                            start >= old_pending.len(),
                            self.peeked@.take(old_pending.len() as int) == old_pending,
                            covered ==> start == old_pending.len() && count == extend,
                            forall|k: int| 0 <= k < j ==> self.peeked@[start + k] == tmp@[k],
                        decreases count - j,
                    {
                        self.peeked.set(start + j, tmp[j]);
                        assert(self.peeked@.take(old_pending.len() as int) =~= old_pending);
                        j += 1;
                    }
                    proof {
                        if covered {
                            assert(tmp@.take(count as int) == bufd.take(count as int));
                            assert(self.peeked@ =~= old_pending + old(self).buffered().take(
                                amt - old_pending.len(),
                            )) by {
                                assert forall|k: int| 0 <= k < amt implies self.peeked@[k] == (
                                old_pending + old(self).buffered().take(amt - old_pending.len()))[k] by {
                                    if k >= old_pending.len() {
                                        assert(self.peeked@[start + (k - start)] == tmp@[k - start]);
                                        assert(tmp@.take(count as int)[k - start] == tmp@[k - start]);
                                    } else {
                                        assert(self.peeked@.take(old_pending.len() as int)[k] == self.peeked@[k]);
                                    }
                                }
                            }
                        }
                    }
                    extend = extend - count;
                }
            }
            assert(self.peeked@.subrange(0, self.peeked@.len() as int) =~= self.peeked@);
        }
        let len = self.peeked.len();
        let end = if len - self.ppos < amt {
            len
        } else {
            self.ppos + amt
        };
        let s = &self.peeked.as_slice()[self.ppos..end];
        proof {
            let pend = self.peeked@.subrange(self.ppos as int, len as int);
            assert(s@ =~= pend.take(s@.len() as int));
            if remaining < amt {
                assert(pend =~= self.peeked@);
            }
        }
        Ok(s)
    }

    /// Reads what is pending first, then from the buffered source.
    pub fn read(&mut self, out: &mut [u8]) -> (r: Result<usize, std::io::Error>)
        requires
            old(self).wf(),
        ensures
            final(self).wf(),
            final(self).capacity() == old(self).capacity(),
            final(out)@.len() == old(out)@.len(),
            r matches Ok(n) ==> n <= old(out)@.len(),
            old(out)@.len() == 0 ==> r == Ok::<usize, std::io::Error>(0) && final(self).pending()
                == old(self).pending(),
            old(out)@.len() > 0 && old(self).pending().len() > 0 ==> ({
                let n = if old(out)@.len() < old(self).pending().len() {
                    old(out)@.len()
                } else {
                    old(self).pending().len()
                };
                &&& r == Ok::<usize, std::io::Error>(n as usize)
                &&& final(out)@.take(n as int) == old(self).pending().take(n as int)
                &&& final(self).pending() == old(self).pending().skip(n as int)
                &&& final(self).buffered() == old(self).buffered()
            }),
            old(out)@.len() > 0 && old(self).pending().len() == 0 && old(self).buffered().len() > 0
                ==> ({
                let n = if old(out)@.len() < old(self).buffered().len() {
                    old(out)@.len()
                } else {
                    old(self).buffered().len()
                };
                &&& r == Ok::<usize, std::io::Error>(n as usize)
                &&& final(out)@.take(n as int) == old(self).buffered().take(n as int)
                &&& final(self).buffered() == old(self).buffered().skip(n as int)
            }),
    {
        if out.len() == 0 {
            return Ok(0);
        }
        let remaining = self.peeked.len() - self.ppos;
        if remaining > 0 {
            let n = if out.len() < remaining {
                out.len()
            } else {
                remaining
            };
            let ghost before = self.pending();
            let mut i: usize = 0;
            while i < n
                invariant
                    i <= n,
                    n <= out@.len(),
                    self.ppos + n <= self.peeked.len(),
                    before == self.peeked@.subrange(self.ppos as int, self.peeked@.len() as int),
                    out@.len() == old(out)@.len(),
                    forall|j: int| 0 <= j < i ==> out@[j] == self.peeked@[self.ppos + j],
                decreases n - i,
            {
                out[i] = self.peeked[self.ppos + i];
                i += 1;
            }
            assert(out@.take(n as int) =~= before.take(n as int));
            self.ppos = self.ppos + n;
            assert(self.pending() =~= before.skip(n as int));
            return Ok(n);
        }
        self.buffered_read(out)
    }

    /// What can be read without going to the source: the pending bytes,
    /// or else the buffer, refilled where it is empty.
    pub fn fill_buf(&mut self) -> (r: Result<&[u8], std::io::Error>)
        requires
            old(self).wf(),
        ensures
            final(self).wf(),
            final(self).capacity() == old(self).capacity(),
            old(self).pending().len() > 0 ==> final(self).pending() == old(self).pending()
                && final(self).buffered() == old(self).buffered() && (r matches Ok(s) && s@
                == old(self).pending()),
            old(self).pending().len() == 0 ==> final(self).pending().len() == 0 && (r matches Ok(s)
                ==> s@ == final(self).buffered()),
            old(self).pending().len() == 0 && old(self).buffered().len() > 0 ==> final(self).buffered()
                == old(self).buffered(),
    {
        if self.ppos < self.peeked.len() {
            let len = self.peeked.len();
            let s = &self.peeked.as_slice()[self.ppos..len];
            return Ok(s);
        }
        match self.fill() {
            Ok(()) => {},
            Err(e) => return Err(e),
        }
        let s = &self.buf.as_slice()[self.pos..self.filled];
        Ok(s)
    }

    /// Marks `amt` bytes of what `fill_buf` gave as consumed.
    pub fn consume(&mut self, amt: usize)
        requires
            old(self).wf(),
            old(self).pending().len() > 0 ==> amt <= old(self).pending().len(),
        ensures
            final(self).wf(),
            final(self).capacity() == old(self).capacity(),
            old(self).pending().len() > 0 ==> final(self).pending() == old(self).pending().skip(
                amt as int,
            ) && final(self).buffered() == old(self).buffered(),
            old(self).pending().len() == 0 ==> final(self).pending().len() == 0 && final(self).buffered()
                == old(self).buffered().skip(
                if (amt as nat) < old(self).buffered().len() {
                    amt as int
                } else {
                    old(self).buffered().len() as int
                },
            ),
    {
        if self.ppos < self.peeked.len() {
            let ghost before = self.pending();
            self.ppos = self.ppos + amt;
            assert(self.pending() =~= before.skip(amt as int));
        } else {
            let ghost before = self.buffered();
            let avail = self.filled - self.pos;
            let k = if amt < avail {
                amt
            } else {
                avail
            };
            self.pos = self.pos + k;
            assert(self.buffered() =~= before.skip(k as int));
        }
    }
}

impl<R: Read + Seek> PeekReader<R> {
    /// Seeks the source, dropping what was pending or buffered.
    pub fn seek(&mut self, pos: SeekFrom) -> (r: Result<u64, std::io::Error>)
        requires
            old(self).wf(),
        ensures
            final(self).wf(),
            final(self).capacity() == old(self).capacity(),
            final(self).pending().len() == 0,
            final(self).buffered().len() == 0,
    {
        self.peeked = Vec::new();
        self.ppos = 0;
        self.pos = 0;
        self.filled = 0;
        seek_to(&mut self.source, pos)
    }
}

/// Peeking does not consume: after `peek` gave `peeked` (the start of the
/// pending bytes), a read that takes `n` pending bytes gives them, so it
/// begins with what was peeked.
pub proof fn lemma_peeked_bytes_are_read_next(pending: Seq<u8>, peeked: Seq<u8>, read: Seq<u8>, n: int)
    requires
        peeked.len() <= pending.len(),
        peeked == pending.take(peeked.len() as int),
        0 <= n <= pending.len(),
        n <= read.len(),
        read.take(n) == pending.take(n),
    ensures
        forall|i: int| 0 <= i < n && i < peeked.len() ==> read[i] == peeked[i],
{
    assert forall|i: int| 0 <= i < n && i < peeked.len() implies read[i] == peeked[i] by {
        assert(read.take(n)[i] == read[i]);
        assert(pending.take(n)[i] == pending[i]);
        assert(read.take(n)[i] == pending.take(n)[i]);
        assert(peeked[i] == pending.take(peeked.len() as int)[i]);
    }
}

} // verus!
