//! A reader over a memory-mapped file.

use vstd::prelude::*;

use crate::io::{monus, ChunkReader, Region};

verus! {

/// A chunk reader backed by a memory-mapped region.
pub struct MmapChunkReader<D: Region> {
    data: D,
    pos: usize,
    chunk_end: usize,
}

impl<D: Region> MmapChunkReader<D> {
    /// The position is in the data.
    pub closed spec fn inside(self) -> bool {
        self.pos <= self.data.bytes().len()
    }

    /// The bytes not yet consumed.
    pub closed spec fn ahead(self) -> Seq<u8> {
        self.data.bytes().skip(self.pos as int)
    }

    /// Bytes remaining before the chunk boundary.
    pub closed spec fn before_boundary(self) -> nat {
        monus(self.chunk_end as int, self.pos as int) as nat
    }

    /// A reader of the chunk `[chunk_start, chunk_end)` of `data`.
    pub fn new(data: D, chunk_start: usize, chunk_end: usize) -> (r: Self)
        requires
            chunk_start <= data.bytes().len(),
        ensures
            r.inside(),
            r.ahead() == data.bytes().skip(chunk_start as int),
            r.before_boundary() == monus(chunk_end as int, chunk_start as int),
    {
        Self { data, pos: chunk_start, chunk_end }
    }
}

impl<D: Region> ChunkReader for MmapChunkReader<D> {
    open spec fn wf(&self) -> bool {
        self.inside()
    }

    open spec fn rest(&self) -> Seq<u8> {
        self.ahead()
    }

    open spec fn shown(&self) -> nat {
        self.ahead().len()
    }

    open spec fn left(&self) -> nat {
        self.before_boundary()
    }

    open spec fn reach(&self) -> nat {
        usize::MAX as nat
    }

    fn buffer(&self) -> (r: &[u8]) {
        let n: usize = self.data.whole().len();
        let r: &[u8] = vstd::slice::slice_subrange(self.data.whole(), self.pos, n);
        assert(r@ =~= self.ahead());
        assert(self.ahead().take(self.shown() as int) =~= self.ahead());
        r
    }

    fn buffer_mut(&mut self) -> (r: &mut [u8]) {
        let ghost before = self.ahead();
        let len: usize = self.data.whole().len();
        assert(before.len() <= len);
        let (_, r) = self.data.whole_mut().split_at_mut(self.pos);
        proof {
            assert(r@ =~= before);
            assert(before.take(before.len() as int) =~= before);
            assert(before.skip(before.len() as int) =~= seq![]);
        }
        r
    }

    fn fill(&mut self, _n: usize) -> (r: std::io::Result<()>) {
        Ok(())
    }

    fn consume(&mut self, n: usize) {
        let ghost before = self.ahead();
        let len: usize = self.data.whole().len();
        assert(self.pos + n <= len);
        self.pos = self.pos + n;
        assert(self.ahead() =~= before.skip(n as int));
    }

    fn remaining_in_chunk(&self) -> (r: usize) {
        self.chunk_end.saturating_sub(self.pos)
    }
}

} // verus!
