//! The block reader: pulls fixed-size blocks from an in-memory byte
//! source, one at a time, with no look-ahead and no buffering beyond one
//! block, tracking the total number of bytes consumed.

use vstd::prelude::*;

use crate::errors::ScanError;

verus! {

/// What one read yields: a full block, or the clean end of the source.
pub enum BlockRead {
    /// One full block, copied out of the source.
    Block(Vec<u8>),
    /// The source is exhausted exactly at a block boundary.
    EndOfStream,
}

/// A cursor over a byte source that hands out one full block at a time.
pub struct BlockReader<'a> {
    data: &'a [u8],
    pos: usize,
}

impl<'a> BlockReader<'a> {
    /// The whole byte source.
    pub closed spec fn source(&self) -> Seq<u8> {
        self.data@
    }

    /// The total number of bytes consumed so far.
    pub closed spec fn offset_spec(&self) -> int {
        self.pos as int
    }

    /// The cursor never passes the end of the source.
    pub closed spec fn wf(&self) -> bool {
        self.pos <= self.data@.len()
    }

    /// A reader at the start of `data`.
    pub fn new(data: &'a [u8]) -> (r: BlockReader<'a>)
        ensures
            r.source() == data@,
            r.offset_spec() == 0,
            r.wf(),
    {
        BlockReader { data, pos: 0 }
    }

    /// The total number of bytes consumed so far.
    pub fn current_offset(&self) -> (r: usize)
        ensures
            r as int == self.offset_spec(),
    {
        self.pos
    }

    /// The next full block, `EndOfStream` exactly at a clean end, and the
    /// truncated-stream error when fewer than a block's bytes remain — a
    /// partial block is always a corruption, never a valid end state.
    pub fn next_block(&mut self) -> (r: Result<BlockRead, ScanError>)
        requires
            old(self).wf(),
        ensures
            final(self).wf(),
            final(self).source() == old(self).source(),
            match r {
                Ok(BlockRead::Block(b)) => old(self).offset_spec() + 2880 <= old(
                    self,
                ).source().len() && b@ == old(self).source().subrange(
                    old(self).offset_spec(),
                    old(self).offset_spec() + 2880,
                ) && final(self).offset_spec() == old(self).offset_spec() + 2880,
                Ok(BlockRead::EndOfStream) => old(self).offset_spec() == old(self).source().len()
                    && final(self).offset_spec() == old(self).offset_spec(),
                Err(e) => (e matches ScanError::TruncatedStream { offset } && offset as int == old(
                    self,
                ).offset_spec()) && old(self).source().len() - old(self).offset_spec() < 2880
                    && old(self).offset_spec() < old(self).source().len()
                    && final(self).offset_spec() == old(self).offset_spec(),
            },
    {
        let n = self.data.len();
        if self.pos == n {
            return Ok(BlockRead::EndOfStream);
        }
        if n - self.pos < 2880 {
            return Err(ScanError::TruncatedStream { offset: self.pos });
        }
        let part = vstd::slice::slice_subrange(self.data, self.pos, self.pos + 2880);
        let block = vstd::slice::slice_to_vec(part);
        self.pos = self.pos + 2880;
        Ok(BlockRead::Block(block))
    }

    /// Advances past `count` whole blocks without materializing them, as
    /// a random-access source allows; fails with the truncated-stream
    /// error, at the first incomplete block, when fewer remain.
    pub fn skip_blocks(&mut self, count: usize) -> (r: Result<(), ScanError>)
        requires
            old(self).wf(),
        ensures
            final(self).wf(),
            final(self).source() == old(self).source(),
            match r {
                Ok(()) => old(self).offset_spec() + 2880 * count <= old(self).source().len()
                    && final(self).offset_spec() == old(self).offset_spec() + 2880 * count,
                Err(e) => (e matches ScanError::TruncatedStream { offset } && offset as int == old(
                    self,
                ).offset_spec() + 2880 * ((old(self).source().len() - old(self).offset_spec())
                    / 2880)) && old(self).offset_spec() + 2880 * count > old(self).source().len()
                    && final(self).offset_spec() == old(self).offset_spec(),
            },
    {
        let n = self.data.len();
        let avail = (n - self.pos) / 2880;
        proof {
            vstd::arithmetic::div_mod::lemma_fundamental_div_mod(n - self.pos as int, 2880);
            vstd::arithmetic::div_mod::lemma_mod_bound(n - self.pos as int, 2880);
        }
        if count <= avail {
            self.pos = self.pos + 2880 * count;
            Ok(())
        } else {
            Err(ScanError::TruncatedStream { offset: self.pos + 2880 * avail })
        }
    }
}

} // verus!
