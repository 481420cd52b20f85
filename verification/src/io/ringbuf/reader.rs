//! A chunk reader that reads a source through a ring buffer.

use vstd::prelude::*;

use super::buf::{grown, grown_within, RingBuf};
use crate::io::{ChunkReader, Source};

verus! {

/// A chunk reader that owns a ring buffer and a byte source.
///
/// Generic over the source so the same struct serves both the chunks of an
/// input of known size and the single-threaded parse of a stream. The
/// fill/grow/consume logic is identical for both; only the source of bytes
/// differs.
///
/// `file_remaining = None` signals an unbounded source — the reader will
/// keep reading until it gets nothing. For an input of known size it is
/// supplied as `Some`.
pub struct RingBufChunkReader<R: Source> {
    buf: RingBuf,
    src: R,
    /// Bytes remaining in the source from the current read position,
    /// `None` for unbounded sources (streams).
    file_remaining: Option<usize>,
    /// Bytes remaining until the nominal chunk boundary.
    chunk_remaining: usize,
    /// Maximum bytes per read.
    read_cap: usize,
    /// Why the last fill failed.
    failure: Ghost<Option<std::io::Error>>,
}

impl<R: Source> RingBufChunkReader<R> {
    /// The buffer is in order, reads make progress, and a known size is the
    /// size there is.
    pub closed spec fn in_order(self) -> bool {
        &&& self.buf.wf()
        &&& self.read_cap > 0
        &&& self.file_remaining matches Some(n) ==> n == self.src.pending().len()
    }

    /// The bytes buffered, and the bytes still in the source.
    pub closed spec fn ahead(self) -> Seq<u8> {
        self.buf@ + self.src.pending()
    }

    /// How many bytes are buffered.
    pub closed spec fn buffered(self) -> nat {
        self.buf@.len()
    }

    /// Bytes remaining before the chunk boundary.
    pub closed spec fn before_boundary(self) -> nat {
        self.chunk_remaining as nat
    }

    /// Why the last fill failed, if it did.
    pub closed spec fn reason(self) -> Option<std::io::Error> {
        self.failure@
    }

    /// The source does not fail.
    pub closed spec fn reliable(self) -> bool {
        self.src.reliable()
    }

    /// Whether only a read tells that the source is at its end.
    pub closed spec fn unbounded(self) -> bool {
        self.file_remaining is None
    }

    /// What the buffer can grow to.
    pub closed spec fn room_at_most(self) -> nat {
        grown(self.buf.size(), self.buf.cap()) as nat
    }

    /// Create a chunk reader from the given buffer and source.
    pub fn new(
        buf: RingBuf,
        src: R,
        file_remaining: Option<usize>,
        chunk_remaining: usize,
        read_cap: usize,
    ) -> (r: Self)
        requires
            buf.wf(),
            read_cap > 0,
            file_remaining matches Some(n) ==> n == src.pending().len(),
        ensures
            r.in_order(),
            r.ahead() == buf@ + src.pending(),
            r.buffered() == buf@.len(),
            r.before_boundary() == chunk_remaining,
            r.reliable() == src.reliable(),
            r.unbounded() == (file_remaining is None),
            r.room_at_most() == grown(buf.size(), buf.cap()),
            r.reason() is None,
    {
        proof {
            buf.stays_within();
            grown_within(buf.size(), buf.cap());
        }
        Self { buf, src, file_remaining, chunk_remaining, read_cap, failure: Ghost(None) }
    }

    /// Read from the source into the ring buffer's unused space.
    fn read_into_buf(&mut self) -> (r: std::io::Result<usize>)
        requires
            old(self).in_order(),
        ensures
            final(self).in_order(),
            final(self).ahead() == old(self).ahead(),
            final(self).buf.size() == old(self).buf.size(),
            final(self).buf.cap() == old(self).buf.cap(),
            final(self).chunk_remaining == old(self).chunk_remaining,
            final(self).unbounded() == old(self).unbounded(),
            final(self).failure == old(self).failure,
            old(self).src.reliable() ==> r is Ok && final(self).src.reliable(),
            match r {
                Ok(n) => {
                    &&& final(self).buf@.len() == old(self).buf@.len() + n
                    &&& n == 0 ==> old(self).buf@.len() == old(self).buf.size() || old(
                        self).src.pending().len() == 0
                },
                Err(_) => final(self).buf@ == old(self).buf@,
            },
    {
        let ghost before = *self;
        let writable: usize = self.buf.writable();
        let mut to_read: usize = if writable < self.read_cap {
            writable
        } else {
            self.read_cap
        };
        if let Some(rem) = self.file_remaining {
            if rem < to_read {
                to_read = rem;
            }
        }
        if to_read == 0 {
            return Ok(0);
        }
        let unused = self.buf.unused_mut();
        let (target, _) = unused.split_at_mut(to_read);
        match self.src.read(target) {
            Ok(n) => {
                let ghost read = target@;
                proof {
                    let room = self.buf.room();
                    let came = before.src.pending();
                    assert(room.take(to_read as int) =~= read);
                    assert(room.take(n as int) =~= read.take(n as int));
                    assert((before.buf@ + came.take(n as int)) + came.skip(n as int)
                        =~= before.buf@ + came);
                }
                self.buf.produce(n);
                if let Some(rem) = self.file_remaining {
                    self.file_remaining = Some(rem - n);
                }
                Ok(n)
            },
            Err(e) => Err(e),
        }
    }
}

impl<R: Source> ChunkReader for RingBufChunkReader<R> {
    open spec fn wf(&self) -> bool {
        self.in_order()
    }

    open spec fn rest(&self) -> Seq<u8> {
        self.ahead()
    }

    open spec fn shown(&self) -> nat {
        self.buffered()
    }

    open spec fn left(&self) -> nat {
        self.before_boundary()
    }

    open spec fn reach(&self) -> nat {
        if self.reliable() {
            self.room_at_most()
        } else {
            0
        }
    }

    open spec fn most(&self) -> nat {
        self.room_at_most()
    }

    open spec fn failure(&self) -> Option<std::io::Error> {
        self.reason()
    }

    fn buffer(&self) -> (r: &[u8]) {
        proof {
            self.buf.stays_within();
            grown_within(self.buf.size(), self.buf.cap());
        }
        assert(self.ahead().take(self.buffered() as int) =~= self.buf@);
        self.buf.data()
    }

    fn buffer_mut(&mut self) -> (r: &mut [u8]) {
        proof {
            self.buf.stays_within();
            grown_within(self.buf.size(), self.buf.cap());
            assert(self.ahead().take(self.buffered() as int) =~= self.buf@);
            assert(self.ahead().skip(self.buffered() as int) =~= self.src.pending());
        }
        self.buf.data_mut()
    }

    /// With a reliable source, this succeeds just if what is asked for, or all there
    /// is, fits what the buffer can grow to. Where only a read tells the end, there must
    /// be room for one byte more.
    fn fill(&mut self, n: usize) -> (r: std::io::Result<()>)
        ensures
            final(self).unbounded() == old(self).unbounded(),
            old(self).reliable() ==> (r is Ok <==> {
                ||| n <= old(self).room_at_most()
                ||| old(self).ahead().len() + (if old(self).unbounded() {
                    1int
                } else {
                    0
                }) <= old(self).room_at_most()
            }),
    {
        let ghost top = self.room_at_most();
        loop
            invariant
                self.in_order(),
                self.ahead() == old(self).ahead(),
                self.chunk_remaining == old(self).chunk_remaining,
                self.buffered() >= old(self).buffered(),
                old(self).reliable() ==> self.reliable(),
                self.unbounded() == old(self).unbounded(),
                self.failure == old(self).failure,
                self.room_at_most() == top == old(self).room_at_most(),
            ensures
                self.buffered() >= n || self.src.pending().len() == 0,
                n <= top || self.ahead().len() + (if self.unbounded() {
                    1int
                } else {
                    0
                }) <= top,
            decreases self.ahead().len() - self.buffered(),
        {
            proof {
                self.buf.stays_within();
                grown_within(self.buf.size(), self.buf.cap());
            }
            let at_end = match self.file_remaining {
                Some(r) => r == 0,
                None => false,
            };
            if self.buf.readable() >= n || at_end {
                break;
            }
            if self.buf.writable() == 0 {
                if let Err(e) = self.buf.grow() {
                    self.failure = Ghost(Some(e));
                    return Err(e);
                }
                proof {
                    self.buf.stays_within();
                    grown_within(self.buf.size(), self.buf.cap());
                }
            }
            let read: usize = match self.read_into_buf() {
                Ok(read) => read,
                Err(e) => {
                    self.failure = Ghost(Some(e));
                    return Err(e);
                },
            };
            if read == 0 {
                break;
            }
        }
        Ok(())
    }

    fn consume(&mut self, n: usize) {
        let ghost before = *self;
        self.chunk_remaining = self.chunk_remaining.saturating_sub(n);
        self.buf.consume(n);
        assert(self.ahead() =~= before.ahead().skip(n as int));
    }

    fn remaining_in_chunk(&self) -> (r: usize) {
        self.chunk_remaining
    }
}

} // verus!
