//! Whole-input in-memory I/O.

pub mod reader;

use vstd::prelude::*;

use self::reader::InMemoryChunkReader;
use super::{Input, IoContext};

verus! {

/// Per-thread in-memory I/O context over bytes at hand.
///
/// The input is copied from chunk start to its end into a single buffer.
/// Good for small inputs, bad for big ones.
#[derive(Copy, Clone)]
pub struct InMemoryIo<'a> {
    bytes: &'a [u8],
}

impl<'a> InMemoryIo<'a> {
    /// The input.
    pub closed spec fn whole(self) -> Seq<u8> {
        self.bytes@
    }

    /// A context over `bytes`.
    pub fn new(bytes: &'a [u8]) -> (r: Self)
        ensures
            r.whole() == bytes@,
    {
        InMemoryIo { bytes }
    }
}

impl<'a> IoContext for InMemoryIo<'a> {
    type Reader = InMemoryChunkReader;

    open spec fn wf(&self) -> bool {
        true
    }

    open spec fn data(&self) -> Seq<u8> {
        self.whole()
    }

    open spec fn reach(&self) -> nat {
        usize::MAX as nat
    }

    fn chunk_reader(&mut self, chunk_start: usize, chunk_end: usize) -> (r: std::io::Result<
        InMemoryChunkReader,
    >) {
        let len: usize = self.bytes.len();
        let tail: &[u8] = vstd::slice::slice_subrange(self.bytes, chunk_start, len);
        let data: Vec<u8> = vstd::slice::slice_to_vec(tail);
        Ok(InMemoryChunkReader::new(data, chunk_end - chunk_start))
    }
}

impl<'a> Input for InMemoryIo<'a> {
    type Ctx = InMemoryIo<'a>;

    open spec fn data(&self) -> Seq<u8> {
        self.whole()
    }

    open spec fn reach(&self) -> nat {
        usize::MAX as nat
    }

    fn context(&self) -> (r: std::io::Result<InMemoryIo<'a>>) {
        Ok(*self)
    }
}

} // verus!
