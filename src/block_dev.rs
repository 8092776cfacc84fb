//! The storage contract: fixed-size blocks read and written by index.
use vstd::prelude::*;

use crate::BLOCK_SZ;

verus! {

/// Every block of `d` holds exactly one block's worth of bytes.
pub open spec fn blocks_sized(d: Seq<Seq<u8>>) -> bool {
    forall|i: int| 0 <= i < d.len() ==> (#[trigger] d[i]).len() == BLOCK_SZ
}

/// A backing medium addressed by block index.
///
/// Its contents are modelled as a sequence of blocks; a read hands back the
/// block as last written, and a write replaces exactly one block.
pub trait BlockDevice {
    /// The blocks the medium currently holds. A medium that does not say
    /// holds none, and no read or write of it can be shown to succeed.
    closed spec fn blocks(&self) -> Seq<Seq<u8>> {
        Seq::empty()
    }

    /// The number of blocks the medium holds.
    fn num_blocks(&self) -> (r: usize)
        ensures
            r as int == self.blocks().len(),
    ;

    /// Copies block `block_id` into `buf`.
    fn read_block(&self, block_id: usize, buf: &mut [u8])
        requires
            blocks_sized(self.blocks()),
            block_id < self.blocks().len(),
            old(buf)@.len() == BLOCK_SZ,
        ensures
            final(buf)@ == self.blocks()[block_id as int],
    ;

    /// Replaces block `block_id` by the contents of `buf`.
    fn write_block(&mut self, block_id: usize, buf: &[u8])
        requires
            blocks_sized(old(self).blocks()),
            block_id < old(self).blocks().len(),
            buf@.len() == BLOCK_SZ,
        ensures
            final(self).blocks() == old(self).blocks().update(block_id as int, buf@),
    ;
}

/// A device held entirely in memory.
pub struct MemoryDevice {
    data: Vec<Vec<u8>>,
}

impl MemoryDevice {
    /// A device of `n` blocks, every byte zero.
    pub fn new(n: usize) -> (r: Self)
        ensures
            r.blocks().len() == n,
            forall|i: int, j: int|
                0 <= i < n && 0 <= j < BLOCK_SZ ==> #[trigger] r.blocks()[i][j] == 0,
            blocks_sized(r.blocks()),
    {
        let mut data: Vec<Vec<u8>> = Vec::new();
        let mut i: usize = 0;
        while i < n
            invariant
                i <= n,
                data@.len() == i,
                forall|k: int| 0 <= k < i ==> (#[trigger] data@[k])@ == Seq::new(BLOCK_SZ as nat, |j: int| 0u8),
            decreases n - i,
        {
            let b: Vec<u8> = vec![0u8; BLOCK_SZ];
            assert(b@ =~= Seq::new(BLOCK_SZ as nat, |j: int| 0u8));
            data.push(b);
            i = i + 1;
        }
        MemoryDevice { data }
    }
}

impl BlockDevice for MemoryDevice {
    closed spec fn blocks(&self) -> Seq<Seq<u8>> {
        Seq::new(self.data@.len(), |i: int| self.data@[i]@)
    }

    fn num_blocks(&self) -> (r: usize) {
        self.data.len()
    }

    fn read_block(&self, block_id: usize, buf: &mut [u8]) {
        let src = &self.data[block_id];
        assert(self.blocks()[block_id as int].len() == BLOCK_SZ);
        let mut i: usize = 0;
        while i < BLOCK_SZ
            invariant
                i <= BLOCK_SZ,
                src@ == self.blocks()[block_id as int],
                src@.len() == BLOCK_SZ,
                buf@.len() == BLOCK_SZ,
                forall|k: int| 0 <= k < i ==> buf@[k] == src@[k],
            decreases BLOCK_SZ - i,
        {
            buf[i] = src[i];
            i = i + 1;
        }
        assert(buf@ =~= src@);
    }

    fn write_block(&mut self, block_id: usize, buf: &[u8]) {
        let mut v: Vec<u8> = Vec::new();
        let mut i: usize = 0;
        while i < buf.len()
            invariant
                i <= buf@.len(),
                v@ == buf@.subrange(0, i as int),
            decreases buf@.len() - i,
        {
            v.push(buf[i]);
            i = i + 1;
            assert(v@ =~= buf@.subrange(0, i as int));
        }
        assert(v@ =~= buf@);
        self.data.set(block_id, v);
        assert(self.blocks() =~= old(self).blocks().update(block_id as int, buf@));
    }
}

} // verus!
