//! A reader over bytes in memory.

use vstd::prelude::*;

use crate::io::{monus, ChunkReader};

verus! {

/// A chunk reader backed by an in-memory byte buffer.
pub struct InMemoryChunkReader {
    data: Vec<u8>,
    pos: usize,
    chunk_len: usize,
}

impl InMemoryChunkReader {
    /// The position is in the data.
    pub closed spec fn inside(self) -> bool {
        self.pos <= self.data@.len()
    }

    /// The bytes not yet consumed.
    pub closed spec fn ahead(self) -> Seq<u8> {
        self.data@.skip(self.pos as int)
    }

    /// Bytes remaining before the chunk boundary.
    pub closed spec fn before_boundary(self) -> nat {
        monus(self.chunk_len as int, self.pos as int) as nat
    }

    /// A reader at the start of `data`, whose chunk is its first `chunk_len` bytes.
    pub fn new(data: Vec<u8>, chunk_len: usize) -> (r: Self)
        ensures
            r.inside(),
            r.ahead() == data@,
            r.before_boundary() == chunk_len,
    {
        assert(data@.skip(0) =~= data@);
        Self { data, pos: 0, chunk_len }
    }
}

impl ChunkReader for InMemoryChunkReader {
    open spec fn wf(&self) -> bool {
        self.inside()
    }

    open spec fn rest(&self) -> Seq<u8> {
        self.ahead()
    }

    open spec fn shown(&self) -> nat {
        self.ahead().len()
    }

    open spec fn left(&self) -> nat {
        self.before_boundary()
    }

    open spec fn reach(&self) -> nat {
        usize::MAX as nat
    }

    fn buffer(&self) -> (r: &[u8]) {
        let n: usize = self.data.len();
        let r: &[u8] = vstd::slice::slice_subrange(self.data.as_slice(), self.pos, n);
        assert(r@ =~= self.ahead());
        assert(self.ahead().take(self.shown() as int) =~= self.ahead());
        r
    }

    fn buffer_mut(&mut self) -> (r: &mut [u8]) {
        let ghost before = self.ahead();
        let len: usize = self.data.len();
        assert(before.len() <= len);
        let (_, r) = self.data.as_mut_slice().split_at_mut(self.pos);
        proof {
            assert(r@ =~= before);
            assert(before.take(before.len() as int) =~= before);
            assert(before.skip(before.len() as int) =~= seq![]);
        }
        r
    }

    fn fill(&mut self, _n: usize) -> (r: std::io::Result<()>) {
        Ok(())
    }

    fn consume(&mut self, n: usize) {
        let ghost before = self.ahead();
        let len: usize = self.data.len();
        assert(self.pos + n <= len);
        self.pos = self.pos + n;
        assert(self.ahead() =~= before.skip(n as int));
    }

    fn remaining_in_chunk(&self) -> (r: usize) {
        self.chunk_len.saturating_sub(self.pos)
    }
}

} // verus!
