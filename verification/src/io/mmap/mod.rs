//! Memory-mapped I/O.

pub mod reader;

use vstd::prelude::*;

use self::reader::MmapChunkReader;
use super::{Input, IoContext};

verus! {

/// Per-thread context over a mapped input.
///
/// Each reader gets a private copy of the whole input, so what one reader
/// writes no other reader sees.
#[derive(Copy, Clone)]
pub struct MmapIo<'a> {
    bytes: &'a [u8],
}

impl<'a> MmapIo<'a> {
    /// The input.
    pub closed spec fn whole(self) -> Seq<u8> {
        self.bytes@
    }

    /// A context over `bytes`.
    pub fn new(bytes: &'a [u8]) -> (r: Self)
        ensures
            r.whole() == bytes@,
    {
        MmapIo { bytes }
    }
}

impl<'a> IoContext for MmapIo<'a> {
    type Reader = MmapChunkReader<Vec<u8>>;

    open spec fn wf(&self) -> bool {
        true
    }

    open spec fn data(&self) -> Seq<u8> {
        self.whole()
    }

    open spec fn reach(&self) -> nat {
        usize::MAX as nat
    }

    fn chunk_reader(&mut self, chunk_start: usize, chunk_end: usize) -> (r: std::io::Result<
        MmapChunkReader<Vec<u8>>,
    >) {
        let copy: Vec<u8> = vstd::slice::slice_to_vec(self.bytes);
        Ok(MmapChunkReader::new(copy, chunk_start, chunk_end))
    }
}

impl<'a> Input for MmapIo<'a> {
    type Ctx = MmapIo<'a>;

    open spec fn data(&self) -> Seq<u8> {
        self.whole()
    }

    open spec fn reach(&self) -> nat {
        usize::MAX as nat
    }

    fn context(&self) -> (r: std::io::Result<MmapIo<'a>>) {
        Ok(*self)
    }
}

} // verus!
