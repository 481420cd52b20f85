//! Where the bytes of a chunk come from.
//!
//! What the traits here say of a source of bytes they say in terms of ghost
//! functions. Those have defaults, so that code outside the proofs can implement a
//! trait by its executable functions alone. The defaults describe an empty input
//! that is never in order: what is proved of a parse says nothing of one that reads
//! through such an implementation, and a verified one has to define them.

pub mod memory;
pub mod mmap;
pub mod ringbuf;
pub mod slice;

use vstd::arithmetic::power2::pow2;
use vstd::prelude::*;

use self::ringbuf::buf::{
    grown, grown_within, growth_is_tight, ring_size, ring_size_some, within,
};
use self::ringbuf::settings::RingBufSettings;

verus! {

/// `a - b`, or zero.
pub open spec fn monus(a: int, b: int) -> int {
    if a >= b {
        a - b
    } else {
        0
    }
}

/// What there is to say of reading an input: how many bytes at a time are sure to be
/// had, and how many are held at most.
pub struct Access {
    pub reach: nat,
    pub most: nat,
}

/// `n` if `sure`, or nothing.
pub open spec fn all_if(sure: bool, n: nat) -> nat {
    if sure {
        n
    } else {
        0
    }
}

/// A ring buffer with these settings can be made.
pub open spec fn ring_fits(settings: RingBufSettings, granularity: usize) -> bool {
    let size = ring_size(settings.buffer_size as int, granularity as int);
    within(size, settings.buffer_limit) && 2 * size <= usize::MAX
}

/// How many bytes a ring buffer with these settings can hold at most; none if it
/// cannot be made.
pub open spec fn ring_room(settings: RingBufSettings, granularity: usize) -> nat {
    if ring_fits(settings, granularity) {
        grown(
            ring_size(settings.buffer_size as int, granularity as int),
            settings.buffer_limit,
        ) as nat
    } else {
        0
    }
}

/// A ring buffer that can be made has room.
pub proof fn ring_has_room(settings: RingBufSettings, granularity: usize)
    ensures
        ring_fits(settings, granularity) <==> ring_room(settings, granularity) > 0,
        within(ring_room(settings, granularity) as int, settings.buffer_limit),
{
    let size = ring_size(settings.buffer_size as int, granularity as int);
    ring_size_some(settings.buffer_size as int, granularity as int);
    if ring_fits(settings, granularity) {
        grown_within(size, settings.buffer_limit);
    }
}

/// A per-thread I/O context that creates chunk readers.
pub trait IoContext {
    type Reader: ChunkReader;

    /// The context is in order.
    open spec fn wf(&self) -> bool {
        false
    }

    /// The whole input.
    open spec fn data(&self) -> Seq<u8> {
        Seq::empty()
    }

    /// Making readers is sure to succeed, unless this is zero; and so many bytes at a
    /// time are sure to be had from them.
    open spec fn reach(&self) -> nat {
        0
    }

    /// No reader holds more bytes at a time.
    open spec fn most(&self) -> nat {
        usize::MAX as nat
    }

    /// Create a chunk reader for the byte range [chunk_start, chunk_end).
    fn chunk_reader(&mut self, chunk_start: usize, chunk_end: usize) -> (r: std::io::Result<
        Self::Reader,
    >)
        requires
            old(self).wf(),
            chunk_start <= chunk_end <= old(self).data().len(),
        ensures
            final(self).wf(),
            final(self).data() == old(self).data(),
            final(self).reach() == old(self).reach(),
            final(self).most() == old(self).most(),
            old(self).reach() > 0 ==> r is Ok,
            r matches Ok(reader) ==> {
                &&& reader.wf()
                &&& reader.rest() == old(self).data().skip(chunk_start as int)
                &&& reader.left() == chunk_end - chunk_start
                &&& reader.reach() >= old(self).reach()
                &&& reader.most() == old(self).most()
            },
    ;
}

/// An input that I/O contexts can be made over, one per thread.
pub trait Input {
    type Ctx: IoContext;

    /// The whole input.
    open spec fn data(&self) -> Seq<u8> {
        Seq::empty()
    }

    /// Making contexts, and readers from them, is sure to succeed, unless this is zero;
    /// and so many bytes at a time are sure to be had from them.
    open spec fn reach(&self) -> nat {
        0
    }

    /// No reader holds more bytes at a time; without room for any, there is no context.
    open spec fn most(&self) -> nat {
        usize::MAX as nat
    }

    /// Make an I/O context over the input.
    fn context(&self) -> (r: std::io::Result<Self::Ctx>)
        ensures
            self.reach() > 0 ==> r is Ok,
            self.most() == 0 ==> r is Err,
            r matches Ok(ctx) ==> {
                &&& ctx.wf()
                &&& ctx.data() == self.data()
                &&& ctx.reach() == self.reach()
                &&& ctx.most() == self.most()
            },
    ;
}

/// A file, and the ways there are to read it.
pub trait FileInput {
    type Mapped: Input;

    type Ring: Input;

    type Memory: Input;

    /// What is in the file.
    open spec fn content(&self) -> Seq<u8> {
        Seq::empty()
    }

    /// Asking for the size is sure to succeed.
    open spec fn sized(&self) -> bool {
        false
    }

    /// Reading the file through memory maps is sure to succeed.
    open spec fn maps(&self) -> bool {
        false
    }

    /// Reading the file through ring buffers is sure to succeed, as long as they have
    /// room.
    open spec fn rings(&self, settings: ringbuf::settings::RingBufSettings, granularity: usize) -> bool {
        false
    }

    /// Reading the file into memory is sure to succeed.
    open spec fn loads(&self) -> bool {
        false
    }

    /// The size of the file.
    fn size(&self) -> (r: std::io::Result<usize>)
        ensures
            self.sized() ==> r is Ok,
            r matches Ok(n) ==> n == self.content().len(),
    ;

    /// Read the file through memory maps.
    fn mapped(&self) -> (r: Self::Mapped)
        ensures
            r.data() == self.content(),
            r.reach() == all_if(self.maps(), usize::MAX as nat),
            r.most() == usize::MAX,
    ;

    /// Read the file through ring buffers.
    fn ring(&self, settings: ringbuf::settings::RingBufSettings, granularity: usize) -> (r:
        Self::Ring)
        requires
            settings.buffer_size > 0,
        ensures
            r.data() == self.content(),
            r.reach() == all_if(
                self.rings(settings, granularity),
                ring_room(settings, granularity),
            ),
            r.most() == ring_room(settings, granularity),
    ;

    /// Read the file into memory.
    fn memory(&self) -> (r: Self::Memory)
        ensures
            r.data() == self.content(),
            r.reach() == all_if(self.loads(), usize::MAX as nat),
            r.most() == usize::MAX,
    ;
}

/// A region of memory that a reader takes over: a file mapped for one chunk, or
/// the bytes themselves.
pub trait Region {
    /// The bytes of the region.
    open spec fn bytes(&self) -> Seq<u8> {
        Seq::empty()
    }

    /// The region.
    fn whole(&self) -> (r: &[u8])
        ensures
            r@ == self.bytes(),
    ;

    /// The region, to be written to.
    fn whole_mut(&mut self) -> (r: &mut [u8])
        ensures
            r@ == old(self).bytes(),
            final(self).bytes() == final(r)@,
    ;
}

impl Region for Vec<u8> {
    open spec fn bytes(&self) -> Seq<u8> {
        self@
    }

    fn whole(&self) -> (r: &[u8]) {
        self.as_slice()
    }

    fn whole_mut(&mut self) -> (r: &mut [u8]) {
        self.as_mut_slice()
    }
}

/// A source of bytes without random access.
pub trait Source {
    /// The bytes still to come.
    open spec fn pending(&self) -> Seq<u8> {
        Seq::empty()
    }

    /// Reading is sure to succeed, now and later.
    open spec fn reliable(&self) -> bool {
        false
    }

    /// Read some bytes into the start of `buf`; none only at the end of the source.
    fn read(&mut self, buf: &mut [u8]) -> (r: std::io::Result<usize>)
        ensures
            final(buf)@.len() == old(buf)@.len(),
            old(self).reliable() ==> r is Ok && final(self).reliable(),
            match r {
                Ok(n) => {
                    &&& n <= old(buf)@.len()
                    &&& n <= old(self).pending().len()
                    &&& final(buf)@.take(n as int) == old(self).pending().take(n as int)
                    &&& final(self).pending() == old(self).pending().skip(n as int)
                    &&& n == 0 ==> old(buf)@.len() == 0 || old(self).pending().len() == 0
                },
                Err(_) => final(self).pending() == old(self).pending(),
            },
    ;
}

/// A reader that provides sequential access to a chunk's data.
///
/// Implementations must allow reading past the nominal chunk boundary
/// so the parser can finish the last owned record.
pub trait ChunkReader {
    /// The reader is in order.
    open spec fn wf(&self) -> bool {
        false
    }

    /// All bytes from the current position to the end of the input.
    open spec fn rest(&self) -> Seq<u8> {
        Seq::empty()
    }

    /// How many of them are in the buffer.
    open spec fn shown(&self) -> nat {
        0
    }

    /// Bytes remaining before the nominal chunk boundary.
    open spec fn left(&self) -> nat {
        0
    }

    /// So many bytes at a time are sure to be had, now and later.
    open spec fn reach(&self) -> nat {
        0
    }

    /// The buffer never holds more bytes.
    open spec fn most(&self) -> nat {
        usize::MAX as nat
    }

    /// Why `fill` failed, if it did.
    open spec fn failure(&self) -> Option<std::io::Error> {
        None
    }

    /// Returns all data available from the current position.
    ///
    /// For mmap, this is the remainder of the mapped region.
    /// For ring buffers, this is the consumable buffer contents.
    fn buffer(&self) -> (r: &[u8])
        requires
            self.wf(),
        ensures
            self.shown() <= self.rest().len(),
            self.shown() <= self.most(),
            r@ == self.rest().take(self.shown() as int),
    ;

    /// Returns a mutable view of the available data.
    ///
    /// Needed for in-place escape character removal.
    fn buffer_mut(&mut self) -> (r: &mut [u8])
        requires
            old(self).wf(),
        ensures
            old(self).shown() <= old(self).rest().len(),
            old(self).shown() <= old(self).most(),
            r@ == old(self).rest().take(old(self).shown() as int),
            final(r)@.len() == r@.len() ==> {
                &&& final(self).wf()
                &&& final(self).rest() == final(r)@ + old(self).rest().skip(
                    old(self).shown() as int,
                )
                &&& final(self).shown() == old(self).shown()
                &&& final(self).left() == old(self).left()
                &&& final(self).reach() >= old(self).reach()
                &&& final(self).most() == old(self).most()
                &&& final(self).failure() == old(self).failure()
            },
    ;

    /// Fills the buffer so that `buffer()` holds at least `n` bytes.
    ///
    /// Implementations must keep reading until the request is met, growing
    /// their storage if needed; more may be left available. Returning short
    /// is permitted **only** at EOF — that is how the parser detects EOF. A reader that
    /// failed is of no more use.
    fn fill(&mut self, n: usize) -> (r: std::io::Result<()>)
        requires
            old(self).wf(),
        ensures
            match r {
                Ok(_) => {
                    &&& final(self).wf()
                    &&& final(self).rest() == old(self).rest()
                    &&& final(self).left() == old(self).left()
                    &&& final(self).shown() >= old(self).shown()
                    &&& final(self).shown() >= n || final(self).shown() == old(self).rest().len()
                    &&& final(self).reach() >= old(self).reach()
                    &&& final(self).most() == old(self).most()
                    &&& final(self).failure() == old(self).failure()
                },
                Err(e) => n > old(self).reach() && final(self).failure() == Some(e),
            },
    ;

    /// Advance the read position by `n` bytes, releasing processed data.
    ///
    /// For ring buffers, this advances the consumer pointer.
    fn consume(&mut self, n: usize)
        requires
            old(self).wf(),
            n <= old(self).shown(),
        ensures
            final(self).wf(),
            final(self).rest() == old(self).rest().skip(n as int),
            final(self).shown() == old(self).shown() - n,
            final(self).left() == monus(old(self).left() as int, n as int),
            final(self).reach() >= old(self).reach(),
            final(self).most() == old(self).most(),
            final(self).failure() == old(self).failure(),
    ;

    /// Bytes remaining before the nominal chunk boundary.
    ///
    /// Returns 0 when the reader has advanced past the chunk boundary.
    /// The parser stops starting new records once this reaches 0.
    fn remaining_in_chunk(&self) -> (r: usize)
        requires
            self.wf(),
        ensures
            r == self.left(),
    ;
}

/// A ring buffer has the room that doubling its size leads to, within its limit and within
/// what a machine word counts, and as far as that goes. One whose size is over the limit
/// has none.
pub proof fn rings_have_room(settings: RingBufSettings, granularity: usize)
    ensures
        ({
            let size = ring_size(settings.buffer_size as int, granularity as int);
            let room = ring_room(settings, granularity);
            let fits = (settings.buffer_limit matches Some(l) ==> size <= l) && 2 * size
                <= usize::MAX;
            &&& !fits ==> room == 0
            &&& fits ==> (exists|k: nat| room == size * #[trigger] pow2(k))
            &&& fits ==> (settings.buffer_limit matches Some(l) ==> room <= l)
            &&& fits ==> ((settings.buffer_limit matches Some(l) && 2 * room > l) || 4 * room
                > usize::MAX)
        }),
{
    let size = ring_size(settings.buffer_size as int, granularity as int);
    ring_size_some(settings.buffer_size as int, granularity as int);
    if within(size, settings.buffer_limit) {
        growth_is_tight(size, settings.buffer_limit);
        grown_within(size, settings.buffer_limit);
    }
}

} // verus!
