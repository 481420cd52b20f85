//! Reading chunks of a byte slice.

use vstd::prelude::*;

use super::memory::InMemoryIo;
use super::mmap::MmapIo;
use super::ringbuf::buf::RingBuf;
use super::ringbuf::reader::RingBufChunkReader;
use super::ringbuf::settings::RingBufSettings;
use super::{ring_fits, ring_has_room, ring_room, FileInput, Input, IoContext, Source};

verus! {

/// A source that reads on in a slice.
pub struct SliceSource<'a> {
    data: &'a [u8],
    pos: usize,
}

impl<'a> SliceSource<'a> {
    /// The position is in the slice.
    #[verifier::type_invariant]
    spec fn inside(self) -> bool {
        self.pos <= self.data@.len()
    }

    /// The bytes not yet read.
    pub closed spec fn ahead(self) -> Seq<u8> {
        self.data@.skip(self.pos as int)
    }

    /// A source of the bytes of `data` from `pos` on.
    pub fn new(data: &'a [u8], pos: usize) -> (r: Self)
        requires
            pos <= data@.len(),
        ensures
            r.ahead() == data@.skip(pos as int),
    {
        SliceSource { data, pos }
    }
}

impl<'a> Source for SliceSource<'a> {
    open spec fn pending(&self) -> Seq<u8> {
        self.ahead()
    }

    open spec fn reliable(&self) -> bool {
        true
    }

    fn read(&mut self, buf: &mut [u8]) -> (r: std::io::Result<usize>) {
        proof {
            use_type_invariant(&*self);
        }
        let len: usize = self.data.len();
        let ahead: usize = len - self.pos;
        let room: usize = buf.len();
        let n: usize = if ahead < room {
            ahead
        } else {
            room
        };
        let ghost before = self.ahead();
        let mut i: usize = 0;
        while i < n
            invariant
                i <= n <= buf@.len(),
                buf@.len() == room,
                self.pos + n <= len == self.data@.len(),
                before == self.data@.skip(self.pos as int),
                forall|j: int| 0 <= j < i ==> buf@[j] == before[j],
            decreases n - i,
        {
            buf[i] = self.data[self.pos + i];
            i += 1;
        }
        assert(buf@.take(n as int) =~= before.take(n as int));
        self.pos = self.pos + n;
        assert(self.ahead() =~= before.skip(n as int));
        Ok(n)
    }
}

/// Per-thread I/O context over a caller-supplied byte slice.
///
/// This copies per *chunk*, through the same kind of ring buffer that the
/// streaming path uses.
pub struct SliceIo<'a> {
    data: &'a [u8],
    settings: RingBufSettings,
    granularity: usize,
}

impl<'a> SliceIo<'a> {
    /// The slice.
    pub closed spec fn bytes(self) -> Seq<u8> {
        self.data@
    }

    /// Buffers can be made, and a read makes progress.
    pub closed spec fn ready(self) -> bool {
        &&& self.settings.buffer_size > 0
        &&& ring_fits(self.settings, self.granularity)
    }

    /// What a buffer can grow to.
    pub closed spec fn room(self) -> nat {
        ring_room(self.settings, self.granularity)
    }

    /// A context over `data`; an error if no ring buffer can be made.
    pub fn new(data: &'a [u8], settings: RingBufSettings, granularity: usize) -> (r:
        std::io::Result<Self>)
        requires
            settings.buffer_size > 0,
        ensures
            r is Ok <==> ring_fits(settings, granularity),
            r matches Ok(io) ==> {
                &&& io.ready()
                &&& io.bytes() == data@
                &&& io.room() == ring_room(settings, granularity)
            },
    {
        RingBuf::new(settings.buffer_size, settings.buffer_limit, granularity)?;
        Ok(SliceIo { data, settings, granularity })
    }
}

/// A slice as an input, read through ring buffers.
pub struct SliceInput<'a> {
    data: &'a [u8],
    settings: RingBufSettings,
    granularity: usize,
}

impl<'a> SliceInput<'a> {
    /// Reads make progress.
    #[verifier::type_invariant]
    spec fn ready(self) -> bool {
        self.settings.buffer_size > 0
    }

    /// The slice.
    pub closed spec fn bytes(self) -> Seq<u8> {
        self.data@
    }

    /// What a buffer can grow to; nothing if none can be made.
    pub closed spec fn room(self) -> nat {
        ring_room(self.settings, self.granularity)
    }

    /// The slice as an input.
    pub fn new(data: &'a [u8], settings: RingBufSettings, granularity: usize) -> (r: Self)
        requires
            settings.buffer_size > 0,
        ensures
            r.bytes() == data@,
            r.room() == ring_room(settings, granularity),
    {
        SliceInput { data, settings, granularity }
    }
}

impl<'a> Input for SliceInput<'a> {
    type Ctx = SliceIo<'a>;

    open spec fn data(&self) -> Seq<u8> {
        self.bytes()
    }

    open spec fn reach(&self) -> nat {
        self.room()
    }

    open spec fn most(&self) -> nat {
        self.room()
    }

    fn context(&self) -> (r: std::io::Result<SliceIo<'a>>) {
        proof {
            use_type_invariant(self);
            ring_has_room(self.settings, self.granularity);
        }
        SliceIo::new(self.data, self.settings, self.granularity)
    }
}

/// A file whose bytes are at hand.
pub struct BytesFile<'a> {
    data: &'a [u8],
}

impl<'a> BytesFile<'a> {
    /// What is in the file.
    pub closed spec fn bytes(self) -> Seq<u8> {
        self.data@
    }

    /// A file of these bytes.
    pub fn new(data: &'a [u8]) -> (r: Self)
        ensures
            r.bytes() == data@,
    {
        BytesFile { data }
    }
}

impl<'a> FileInput for BytesFile<'a> {
    type Mapped = MmapIo<'a>;

    type Ring = SliceInput<'a>;

    type Memory = InMemoryIo<'a>;

    open spec fn content(&self) -> Seq<u8> {
        self.bytes()
    }

    open spec fn sized(&self) -> bool {
        true
    }

    open spec fn maps(&self) -> bool {
        true
    }

    open spec fn rings(&self, settings: RingBufSettings, granularity: usize) -> bool {
        true
    }

    open spec fn loads(&self) -> bool {
        true
    }

    fn size(&self) -> (r: std::io::Result<usize>) {
        Ok(self.data.len())
    }

    fn mapped(&self) -> (r: MmapIo<'a>) {
        MmapIo::new(self.data)
    }

    fn ring(&self, settings: RingBufSettings, granularity: usize) -> (r: SliceInput<'a>) {
        SliceInput::new(self.data, settings, granularity)
    }

    fn memory(&self) -> (r: InMemoryIo<'a>) {
        InMemoryIo::new(self.data)
    }
}

impl<'a> IoContext for SliceIo<'a> {
    type Reader = RingBufChunkReader<SliceSource<'a>>;

    open spec fn wf(&self) -> bool {
        self.ready()
    }

    open spec fn data(&self) -> Seq<u8> {
        self.bytes()
    }

    open spec fn reach(&self) -> nat {
        self.room()
    }

    open spec fn most(&self) -> nat {
        self.room()
    }

    fn chunk_reader(&mut self, chunk_start: usize, chunk_end: usize) -> (r: std::io::Result<
        RingBufChunkReader<SliceSource<'a>>,
    >) {
        let buf = RingBuf::new(
            self.settings.buffer_size,
            self.settings.buffer_limit,
            self.granularity,
        )?;
        let src = SliceSource::new(self.data, chunk_start);
        let len: usize = self.data.len();
        assert(buf@ + src.ahead() =~= self.data@.skip(chunk_start as int));
        Ok(
            RingBufChunkReader::new(
                buf,
                src,
                Some(len - chunk_start),
                chunk_end - chunk_start,
                self.settings.buffer_size,
            ),
        )
    }
}

} // verus!
