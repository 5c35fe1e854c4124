//! Cutting a measurement log into blocks for resampling.
//!
//! The log is a run of four-byte samples. An analysis leaves out the first
//! `skip` of them, while the lattice was still settling, and cuts what
//! follows into `count` blocks of equal size, one after another. Samples
//! that do not fill a last block are left over at the end.

use vstd::prelude::*;

verus! {

/// Why a log cannot be cut into blocks.
#[derive(Clone, Copy, Debug, PartialEq, Eq, Structural)]
pub enum BlockError {
    /// No block was asked for.
    NoBlocks,
    /// More samples are to be left out than the log holds.
    Skip { samples: usize, skip: usize },
}

/// The layout of the blocks in a log.
#[derive(Clone, Copy, Debug, PartialEq, Eq, Structural)]
pub struct Blocks {
    samples: usize,
    skip: usize,
    size: usize,
    count: usize,
}

/// Size of each of `count` blocks cut from `samples` samples after the
/// first `skip`.
pub open spec fn block_size(samples: int, skip: int, count: int) -> int {
    (samples - skip) / count
}

/// Byte offset in the log of sample `j` of block `i`, for blocks of `size`
/// samples that begin after `skip` samples.
pub open spec fn offset_of(skip: int, size: int, i: int, j: int) -> int {
    4 * (skip + i * size + j)
}

proof fn lemma_inside(size: int, count: int, i: int, j: int)
    by (nonlinear_arith)
    requires
        0 <= i < count,
        0 <= j < size,
    ensures
        0 <= i * size,
        i * size + j < count * size,
        (i + 1) * size == i * size + size,
{
}

proof fn lemma_fits(room: int, count: int)
    by (nonlinear_arith)
    requires
        0 <= room,
        0 < count,
    ensures
        0 <= room / count,
        count * (room / count) <= room,
        room < count * (room / count) + count,
{
}

impl Blocks {
    /// Number of whole samples in the log.
    pub closed spec fn samples(&self) -> int {
        self.samples as int
    }

    /// Number of samples left out at the start.
    pub closed spec fn skipped(&self) -> int {
        self.skip as int
    }

    /// Number of samples in each block.
    pub closed spec fn each(&self) -> int {
        self.size as int
    }

    /// Number of blocks.
    pub closed spec fn blocks(&self) -> int {
        self.count as int
    }

    /// Whether the blocks lie inside the log, and the log inside the
    /// address space.
    pub closed spec fn wf(&self) -> bool {
        &&& self.count > 0
        &&& self.skip + self.count * self.size <= self.samples
        &&& 4 * self.samples <= usize::MAX
    }

    /// Lays out `count` blocks in a log of `log_len` bytes, after the first
    /// `skip` samples. Bytes at the end of the log that do not make up a
    /// sample are not counted. The blocks are as long as they can be.
    pub fn cut(log_len: usize, skip: usize, count: usize) -> (r: Result<Blocks, BlockError>)
        ensures
            match r {
                Ok(b) => {
                    &&& count > 0
                    &&& skip <= log_len / 4
                    &&& b.wf()
                    &&& b.samples() == log_len / 4
                    &&& b.skipped() == skip
                    &&& b.blocks() == count
                    &&& b.each() == block_size(log_len as int / 4, skip as int, count as int)
                    &&& b.skipped() + b.blocks() * b.each() > b.samples() - b.blocks()
                },
                Err(BlockError::NoBlocks) => count == 0,
                Err(BlockError::Skip { samples, skip: asked }) => {
                    &&& count > 0
                    &&& skip > log_len / 4
                    &&& samples == log_len / 4
                    &&& asked == skip
                },
            },
    {
        let samples: usize = log_len / 4;
        if count == 0 {
            return Err(BlockError::NoBlocks);
        }
        if skip > samples {
            return Err(BlockError::Skip { samples, skip });
        }
        let size: usize = (samples - skip) / count;
        proof {
            lemma_fits(samples - skip, count as int);
        }
        Ok(Blocks { samples, skip, size, count })
    }

    /// Number of samples in each block.
    pub fn size(&self) -> (n: usize)
        ensures
            n == self.each(),
    {
        self.size
    }

    /// Number of blocks.
    pub fn count(&self) -> (n: usize)
        ensures
            n == self.blocks(),
    {
        self.count
    }

    /// Number of samples left out at the start.
    pub fn skip(&self) -> (n: usize)
        ensures
            n == self.skipped(),
    {
        self.skip
    }

    /// Number of samples in all blocks together.
    pub fn used(&self) -> (n: usize)
        requires
            self.wf(),
        ensures
            n == self.blocks() * self.each(),
            n <= self.samples() - self.skipped(),
    {
        self.count * self.size
    }

    /// Byte offset in the log of sample `j` of block `i`. The four bytes
    /// from there on lie inside the log and behind the samples left out;
    /// each sample of a block begins where the one before it ends, and each
    /// block where the block before it ends.
    pub fn offset(&self, i: usize, j: usize) -> (at: usize)
        requires
            self.wf(),
            i < self.blocks(),
            j < self.each(),
        ensures
            at == offset_of(self.skipped(), self.each(), i as int, j as int),
            4 * self.skipped() <= at,
            at + 4 <= 4 * self.samples(),
            j + 1 < self.each() ==> offset_of(self.skipped(), self.each(), i as int, j + 1) == at
                + 4,
            j + 1 == self.each() ==> offset_of(self.skipped(), self.each(), i + 1, 0) == at + 4,
    {
        proof {
            lemma_inside(self.size as int, self.count as int, i as int, j as int);
        }
        4 * (self.skip + i * self.size + j)
    }
}

} // verus!
