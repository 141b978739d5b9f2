//! The device capability: synchronous fixed-size block read/write.
//!
//! The engine does not drive hardware itself; it talks to any type that
//! implements [`BlockDevice`]. The trait carries a specification view,
//! `spec_blocks`, giving the current contents of every block, so that all
//! higher layers can state their contracts over the device state.

use vstd::prelude::*;

use crate::BLOCK_SZ;

verus! {

/// A block-addressable storage device: a finite array of 512-byte blocks.
///
/// `read_block` fills the buffer completely from one block; `write_block`
/// writes the buffer completely to one block. Both are synchronous and
/// total on in-range block identifiers.
pub trait BlockDevice: Sized {
    /// The current contents of the device, one 512-byte sequence per block.
    spec fn spec_blocks(&self) -> Seq<Seq<u8>>;

    /// Implementation-defined well-formedness of the device value.
    spec fn inv(&self) -> bool;

    /// Every well-formed device holds blocks of exactly 512 bytes.
    proof fn inv_block_size(&self)
        requires
            self.inv(),
        ensures
            forall|i: int|
                0 <= i < self.spec_blocks().len() ==> (#[trigger] self.spec_blocks()[i]).len()
                    == BLOCK_SZ as int,
    ;

    /// Read block `block_id` into `buf`.
    fn read_block(&self, block_id: usize, buf: &mut Vec<u8>)
        requires
            self.inv(),
            block_id < self.spec_blocks().len(),
            old(buf).len() == BLOCK_SZ,
        ensures
            final(buf)@ == self.spec_blocks()[block_id as int],
    ;

    /// Write `buf` to block `block_id`.
    fn write_block(&mut self, block_id: usize, buf: &Vec<u8>)
        requires
            old(self).inv(),
            block_id < old(self).spec_blocks().len(),
            buf.len() == BLOCK_SZ,
        ensures
            final(self).inv(),
            final(self).spec_blocks() == old(self).spec_blocks().update(
                block_id as int,
                buf@,
            ),
    ;
}

/// A RAM-backed block device: the simplest implementation of the device
/// capability, used by the tests and by host-side tooling.
pub struct MemDisk {
    blocks: Vec<Vec<u8>>,
}

impl MemDisk {
    /// A device of `num_blocks` blocks, all zeroed.
    pub fn new(num_blocks: usize) -> (r: MemDisk)
        ensures
            r.inv(),
            r.spec_blocks().len() == num_blocks as int,
            forall|i: int, j: int|
                0 <= i < num_blocks as int && 0 <= j < BLOCK_SZ as int ==> (
                #[trigger] r.spec_blocks()[i][j]) == 0u8,
    {
        let mut blocks: Vec<Vec<u8>> = Vec::new();
        let mut i: usize = 0;
        while i < num_blocks
            invariant
                i <= num_blocks,
                blocks.len() == i as int,
                forall|k: int|
                    0 <= k < i as int ==> (#[trigger] blocks[k])@ == Seq::<u8>::new(
                        BLOCK_SZ as nat,
                        |j: int| 0u8,
                    ),
            decreases num_blocks - i,
        {
            let mut b: Vec<u8> = Vec::new();
            let mut j: usize = 0;
            while j < BLOCK_SZ
                invariant
                    j <= BLOCK_SZ,
                    b.len() == j as int,
                    forall|k: int| 0 <= k < j as int ==> (#[trigger] b@[k]) == 0u8,
                decreases BLOCK_SZ - j,
            {
                b.push(0u8);
                j += 1;
            }
            assert(b@ =~= Seq::<u8>::new(BLOCK_SZ as nat, |j: int| 0u8));
            blocks.push(b);
            i += 1;
        }
        MemDisk { blocks }
    }
}

impl BlockDevice for MemDisk {
    closed spec fn spec_blocks(&self) -> Seq<Seq<u8>> {
        Seq::new(self.blocks@.len(), |i: int| self.blocks@[i]@)
    }

    closed spec fn inv(&self) -> bool {
        forall|i: int|
            0 <= i < self.blocks@.len() ==> (#[trigger] self.blocks@[i])@.len() == BLOCK_SZ as int
    }

    proof fn inv_block_size(&self) {
    }

    fn read_block(&self, block_id: usize, buf: &mut Vec<u8>) {
        let src = &self.blocks[block_id];
        let mut j: usize = 0;
        buf.clear();
        while j < BLOCK_SZ
            invariant
                j <= BLOCK_SZ,
                buf.len() == j as int,
                src@.len() == BLOCK_SZ as int,
                src == self.blocks@[block_id as int],
                forall|k: int| 0 <= k < j as int ==> (#[trigger] buf@[k]) == src@[k],
            decreases BLOCK_SZ - j,
        {
            let byte = src[j];
            buf.push(byte);
            j += 1;
        }
        assert(buf@ =~= self.spec_blocks()[block_id as int]);
    }

    fn write_block(&mut self, block_id: usize, buf: &Vec<u8>) {
        let mut copy: Vec<u8> = Vec::new();
        let mut j: usize = 0;
        while j < BLOCK_SZ
            invariant
                j <= BLOCK_SZ,
                copy.len() == j as int,
                buf@.len() == BLOCK_SZ as int,
                forall|k: int| 0 <= k < j as int ==> (#[trigger] copy@[k]) == buf@[k],
            decreases BLOCK_SZ - j,
        {
            let byte = buf[j];
            copy.push(byte);
            j += 1;
        }
        assert(copy@ =~= buf@);
        self.blocks.set(block_id, copy);
        assert(self.spec_blocks() =~= old(self).spec_blocks().update(block_id as int, buf@));
    }
}

} // verus!
