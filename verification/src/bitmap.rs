//! The bitmap free-space allocator.
//!
//! A bitmap region covers `blocks` consecutive device blocks starting at
//! `start_block_id`. Each block holds 4096 bits as 64 little-endian 64-bit
//! words; bit `b` of the region decomposes into block `b / 4096`, word
//! `(b % 4096) / 64` and offset `(b % 4096) % 64`. A set bit means the
//! corresponding unit is allocated.

use vstd::prelude::*;

use crate::BLOCK_SZ;
use crate::block_cache::BlockCache;
use crate::block_dev::BlockDevice;

verus! {

/// Bits per bitmap block.
pub const BLOCK_BITS: usize = 4096;

/// The 64-bit word `w` of block `block` of the disk image `disk`.
pub open spec fn word_at(disk: Seq<Seq<u8>>, block: int, w: int) -> u64 {
    vstd::bytes::spec_u64_from_le_bytes(disk[block].subrange(8 * w, 8 * w + 8))
}

/// Bit `b` of the bitmap region that starts at block `start` of `disk`.
pub open spec fn bit_at(disk: Seq<Seq<u8>>, start: int, b: int) -> bool {
    (word_at(disk, start + b / (BLOCK_BITS as int), (b % (BLOCK_BITS as int)) / 64) >> ((b % (
    BLOCK_BITS as int)) % 64) as u64) & 1u64 == 1u64
}

/// What one bitmap allocation does: on success the returned bit was the
/// lowest free bit, it is now set, and nothing else changed; on absence
/// every bit was already set and the disk is untouched.
pub open spec fn alloc_post(
    old_disk: Seq<Seq<u8>>,
    new_disk: Seq<Seq<u8>>,
    start: int,
    blocks: int,
    r: Option<usize>,
) -> bool {
    match r {
        Some(bit) => {
            &&& (bit as int) < blocks * (BLOCK_BITS as int)
            &&& !bit_at(old_disk, start, bit as int)
            &&& forall|b2: int| 0 <= b2 < bit as int ==> bit_at(old_disk, start, b2)
            &&& bit_at(new_disk, start, bit as int)
            &&& forall|b2: int|
                0 <= b2 < blocks * (BLOCK_BITS as int) && b2 != bit as int ==> bit_at(
                    new_disk,
                    start,
                    b2,
                ) == bit_at(old_disk, start, b2)
            &&& new_disk.len() == old_disk.len()
            &&& forall|blk: int|
                0 <= blk < old_disk.len() && blk != start + (bit as int) / (BLOCK_BITS as int)
                    ==> new_disk[blk] == old_disk[blk]
        },
        None => {
            &&& forall|b2: int| 0 <= b2 < blocks * (BLOCK_BITS as int) ==> bit_at(old_disk, start, b2)
            &&& new_disk == old_disk
        },
    }
}

/// The bitmap allocator over a fixed region of the disk.
pub struct Bitmap {
    start_block_id: usize,
    blocks: usize,
}

/// Split a region bit number into (block index, word index, bit offset).
fn decomposition(bit: usize) -> (r: (usize, usize, usize))
    ensures
        r.0 as int == (bit as int) / (BLOCK_BITS as int),
        r.1 as int == ((bit as int) % (BLOCK_BITS as int)) / 64,
        r.2 as int == ((bit as int) % (BLOCK_BITS as int)) % 64,
        r.1 < 64,
        r.2 < 64,
{
    let block_pos = bit / BLOCK_BITS;
    let rem = bit % BLOCK_BITS;
    (block_pos, rem / 64, rem % 64)
}

/// `b == 4096*(b/4096) + 64*((b%4096)/64) + (b%4096)%64`, with all parts in
/// range.
proof fn lemma_bit_decomp(b: int)
    requires
        b >= 0,
    ensures
        b == (BLOCK_BITS as int) * (b / (BLOCK_BITS as int)) + 64 * ((b % (BLOCK_BITS as int)) / 64)
            + (b % (BLOCK_BITS as int)) % 64,
        0 <= b / (BLOCK_BITS as int),
        0 <= (b % (BLOCK_BITS as int)) / 64 < 64,
        0 <= (b % (BLOCK_BITS as int)) % 64 < 64,
{
    vstd::arithmetic::div_mod::lemma_fundamental_div_mod(b, BLOCK_BITS as int);
    vstd::arithmetic::div_mod::lemma_fundamental_div_mod(b % (BLOCK_BITS as int), 64);
    assert(0 <= b % (BLOCK_BITS as int) < BLOCK_BITS as int) by {
        vstd::arithmetic::div_mod::lemma_mod_bound(b, BLOCK_BITS as int);
    }
    assert(0 <= (b % (BLOCK_BITS as int)) % 64 < 64) by {
        vstd::arithmetic::div_mod::lemma_mod_bound(b % (BLOCK_BITS as int), 64);
    }
    assert(0 <= (b % (BLOCK_BITS as int)) / 64 < 64) by {
        vstd::arithmetic::div_mod::lemma_div_pos_is_pos(b % (BLOCK_BITS as int), 64);
        assert((b % (BLOCK_BITS as int)) / 64 < 64) by (nonlinear_arith)
            requires
                0 <= b % (BLOCK_BITS as int) < 4096,
        ;
    }
    assert(b / (BLOCK_BITS as int) >= 0) by {
        vstd::arithmetic::div_mod::lemma_div_pos_is_pos(b, BLOCK_BITS as int);
    }
}

/// The inverse direction: composing in-range (block, word, offset) parts
/// and splitting them again gives the parts back.
proof fn lemma_bit_compose(blk: int, w: int, o: int)
    requires
        0 <= blk,
        0 <= w < 64,
        0 <= o < 64,
    ensures
        (blk * (BLOCK_BITS as int) + w * 64 + o) / (BLOCK_BITS as int) == blk,
        ((blk * (BLOCK_BITS as int) + w * 64 + o) % (BLOCK_BITS as int)) / 64 == w,
        ((blk * (BLOCK_BITS as int) + w * 64 + o) % (BLOCK_BITS as int)) % 64 == o,
{
    let b = blk * (BLOCK_BITS as int) + w * 64 + o;
    assert(0 <= w * 64 + o < BLOCK_BITS as int) by (nonlinear_arith)
        requires
            0 <= w < 64,
            0 <= o < 64,
    ;
    vstd::arithmetic::div_mod::lemma_fundamental_div_mod_converse(
        b,
        BLOCK_BITS as int,
        blk,
        w * 64 + o,
    );
    vstd::arithmetic::div_mod::lemma_fundamental_div_mod_converse(w * 64 + o, 64, w, o);
}

impl Bitmap {
    /// Structural well-formedness: the region size can be measured in bits
    /// without overflowing the machine word.
    pub closed spec fn wf(&self) -> bool {
        &&& (self.start_block_id as int) + (self.blocks as int) <= usize::MAX as int
        &&& (self.blocks as int) * (BLOCK_BITS as int) <= usize::MAX as int
    }

    /// First block of the region (specification only).
    pub closed spec fn spec_start(&self) -> int {
        self.start_block_id as int
    }

    /// Number of blocks of the region (specification only).
    pub closed spec fn spec_blocks(&self) -> int {
        self.blocks as int
    }

    /// The whole region lies on the cached disk.
    pub open spec fn valid_region<D: BlockDevice>(&self, cache: &BlockCache<D>) -> bool {
        self.spec_start() + self.spec_blocks() <= cache.spec_num_blocks()
    }

    /// A bitmap over `blocks` blocks starting at block `start_block_id`.
    pub fn new(start_block_id: usize, blocks: usize) -> (r: Bitmap)
        requires
            start_block_id + blocks <= usize::MAX,
            (blocks as int) * (BLOCK_BITS as int) <= usize::MAX as int,
        ensures
            r.wf(),
            r.spec_start() == start_block_id as int,
            r.spec_blocks() == blocks as int,
    {
        Bitmap { start_block_id, blocks }
    }

    /// The number of bits the region holds: `blocks * 4096`.
    pub fn maximum(&self) -> (r: usize)
        requires
            self.wf(),
        ensures
            r as int == self.spec_blocks() * (BLOCK_BITS as int),
    {
        self.blocks * BLOCK_BITS
    }

    /// Allocate the lowest free bit of the region: scan blocks upward, in
    /// each block scan the 64 words upward for one that is not all ones,
    /// and take its lowest clear bit. Returns the global bit number, or
    /// `None` when the region is full.
    #[verifier::loop_isolation(false)]
    pub fn alloc_bit<D: BlockDevice>(&self, cache: &mut BlockCache<D>) -> (r: Option<usize>)
        requires
            self.wf(),
            old(cache).wf(),
            self.valid_region(old(cache)),
        ensures
            final(cache).wf(),
            final(cache).spec_num_blocks() == old(cache).spec_num_blocks(),
            alloc_post(
                old(cache).disk(),
                final(cache).disk(),
                self.spec_start(),
                self.spec_blocks(),
                r,
            ),
    {
        broadcast use vstd::std_specs::bits::axiom_u64_trailing_ones;
        broadcast use vstd::std_specs::bits::axiom_u64_trailing_zeros;

        let ghost start = self.spec_start();
        let ghost disk0 = old(cache).disk();
        proof {
            old(cache).lemma_disk_shape();
        }
        let mut block_idx: usize = 0;
        while block_idx < self.blocks
            invariant
                self.wf(),
                cache.wf(),
                self.valid_region(cache),
                cache.disk() == old(cache).disk(),
                cache.spec_num_blocks() == old(cache).spec_num_blocks(),
                block_idx <= self.blocks,
                forall|b2: int|
                    0 <= b2 < (block_idx as int) * (BLOCK_BITS as int) ==> bit_at(
                        cache.disk(),
                        self.spec_start(),
                        b2,
                    ),
            decreases self.blocks - block_idx,
        {
            let block_id = self.start_block_id + block_idx;
            let mut w: usize = 0;
            while w < 64
                invariant
                    self.wf(),
                    cache.wf(),
                    self.valid_region(cache),
                    cache.disk() == old(cache).disk(),
                    cache.spec_num_blocks() == old(cache).spec_num_blocks(),
                    block_idx < self.spec_blocks(),
                    block_id as int == self.spec_start() + block_idx as int,
                    w <= 64,
                    forall|b2: int|
                        0 <= b2 < (block_idx as int) * (BLOCK_BITS as int) + (w as int) * 64
                            ==> bit_at(cache.disk(), self.spec_start(), b2),
                decreases 64 - w,
            {
                proof {
                    cache.lemma_disk_shape();
                }
                let word = cache.read_u64(block_id, 8 * w);
                proof {
                    assert(word == word_at(cache.disk(), block_id as int, w as int));
                }
                if word != u64::MAX {
                    let off = word.trailing_ones() as usize;
                    assert(off < 64);
                    proof {
                        vstd::arithmetic::mul::lemma_mul_inequality(
                            block_idx as int + 1,
                            self.spec_blocks(),
                            BLOCK_BITS as int,
                        );
                        assert((block_idx as int) * (BLOCK_BITS as int) + (w as int) * 64 + (
                        off as int) < (block_idx as int + 1) * (BLOCK_BITS as int)) by (
                        nonlinear_arith)
                            requires
                                w < 64,
                                off < 64,
                        ;
                    }
                    let bit = block_idx * BLOCK_BITS + w * 64 + off;
                    let ghost blkg = block_idx as int;
                    let ghost wg = w as int;
                    let ghost og = off as int;
                    proof {
                        lemma_bit_compose(blkg, wg, og);
                    }
                    let new_word = word | (1u64 << (off as u64));
                    cache.write_u64(block_id, 8 * w, new_word);
                    proof {
                        self.lemma_alloc_update(
                            disk0,
                            cache.disk(),
                            blkg,
                            wg,
                            og,
                            word,
                            new_word,
                        );
                        assert(forall|b2: int|
                            0 <= b2 < bit as int ==> bit_at(disk0, start, b2)) by {
                            assert forall|b2: int| 0 <= b2 < bit as int implies bit_at(
                                disk0,
                                start,
                                b2,
                            ) by {
                                if b2 < blkg * (BLOCK_BITS as int) + wg * 64 {
                                } else {
                                    let o2 = b2 - (blkg * (BLOCK_BITS as int) + wg * 64);
                                    lemma_bit_compose(blkg, wg, o2);
                                    assert((word >> (o2 as u64)) & 1u64 == 1u64);
                                }
                            }
                        }
                    }
                    return Some(bit);
                }
                proof {
                    assert forall|b2: int|
                        (block_idx as int) * (BLOCK_BITS as int) + (w as int) * 64 <= b2 < (
                        block_idx as int) * (BLOCK_BITS as int) + (w as int + 1) * 64 implies bit_at(
                        cache.disk(),
                        self.spec_start(),
                        b2,
                    ) by {
                        let o2 = b2 - ((block_idx as int) * (BLOCK_BITS as int) + (w as int) * 64);
                        lemma_bit_compose(block_idx as int, w as int, o2);
                        let o2u = o2 as u64;
                        assert((0xffff_ffff_ffff_ffffu64 >> o2u) & 1u64 == 1u64) by (bit_vector)
                            requires
                                o2u < 64u64,
                        ;
                    }
                }
                w += 1;
            }
            proof {
                assert((block_idx as int) * (BLOCK_BITS as int) + 64 * 64 == (block_idx as int + 1)
                    * (BLOCK_BITS as int)) by (nonlinear_arith);
            }
            block_idx += 1;
        }
        None
    }

    /// What one word update does to every bit of the region: bit
    /// `(blk, w, o)` follows the word, all other bits are unchanged.
    proof fn lemma_alloc_update(
        &self,
        disk0: Seq<Seq<u8>>,
        disk1: Seq<Seq<u8>>,
        blk: int,
        w: int,
        o: int,
        word: u64,
        new_word: u64,
    )
        requires
            self.wf(),
            0 <= blk < self.spec_blocks(),
            0 <= w < 64,
            0 <= o < 64,
            disk0.len() >= self.spec_start() + self.spec_blocks(),
            forall|b: int|
                0 <= b < disk0.len() ==> (#[trigger] disk0[b]).len() == BLOCK_SZ as int,
            word == word_at(disk0, self.spec_start() + blk, w),
            new_word == word | (1u64 << (o as u64)),
            (word >> (o as u64)) & 1u64 == 0u64,
            disk1 == disk0.update(
                self.spec_start() + blk,
                crate::block_cache::overwrite_bytes(
                    disk0[self.spec_start() + blk],
                    8 * w,
                    vstd::bytes::spec_u64_to_le_bytes(new_word),
                ),
            ),
        ensures
            ({
                let bit = blk * (BLOCK_BITS as int) + w * 64 + o;
                &&& !bit_at(disk0, self.spec_start(), bit)
                &&& bit_at(disk1, self.spec_start(), bit)
                &&& forall|b2: int|
                    0 <= b2 < self.spec_blocks() * (BLOCK_BITS as int) && b2 != bit ==> bit_at(
                        disk1,
                        self.spec_start(),
                        b2,
                    ) == bit_at(disk0, self.spec_start(), b2)
                &&& disk1.len() == disk0.len()
                &&& forall|blkx: int|
                    0 <= blkx < disk0.len() && blkx != self.spec_start() + bit / (BLOCK_BITS as int)
                        ==> disk1[blkx] == disk0[blkx]
            }),
    {
        let start = self.spec_start();
        let bit = blk * (BLOCK_BITS as int) + w * 64 + o;
        let target = start + blk;
        let le = vstd::bytes::spec_u64_to_le_bytes(new_word);
        vstd::bytes::lemma_auto_spec_u64_to_from_le_bytes();
        lemma_bit_compose(blk, w, o);
        // The rewritten word reads back as `new_word`.
        assert(disk1[target].subrange(8 * w, 8 * w + 8) =~= le);
        assert(word_at(disk1, target, w) == new_word);
        // The allocated bit was clear and is now set.
        assert(bit_at(disk1, start, bit)) by {
            let ou = o as u64;
            assert(((word | (1u64 << ou)) >> ou) & 1u64 == 1u64) by (bit_vector)
                requires
                    ou < 64u64,
            ;
        }
        // Every other bit is untouched.
        assert forall|b2: int|
            0 <= b2 < self.spec_blocks() * (BLOCK_BITS as int) && b2 != bit implies bit_at(
            disk1,
            start,
            b2,
        ) == bit_at(disk0, start, b2) by {
            lemma_bit_decomp(b2);
            let blk2 = b2 / (BLOCK_BITS as int);
            let w2 = (b2 % (BLOCK_BITS as int)) / 64;
            let o2 = (b2 % (BLOCK_BITS as int)) % 64;
            assert(blk2 < self.spec_blocks()) by {
                if blk2 >= self.spec_blocks() {
                    vstd::arithmetic::mul::lemma_mul_inequality(
                        self.spec_blocks(),
                        blk2,
                        BLOCK_BITS as int,
                    );
                    assert(b2 >= blk2 * (BLOCK_BITS as int));
                    assert(false);
                }
            }
            if blk2 != blk {
                assert(disk1[start + blk2] == disk0[start + blk2]);
            } else if w2 != w {
                assert(disk1[target].subrange(8 * w2, 8 * w2 + 8) =~= disk0[target].subrange(
                    8 * w2,
                    8 * w2 + 8,
                ));
            } else {
                assert(o2 != o);
                let ou = o as u64;
                let o2u = o2 as u64;
                assert(((word | (1u64 << ou)) >> o2u) & 1u64 == (word >> o2u) & 1u64) by (
                bit_vector)
                    requires
                        ou < 64u64,
                        o2u < 64u64,
                        ou != o2u,
                ;
            }
        }
    }

    /// Free bit `bit`: the bit must currently be set; it is cleared and
    /// nothing else changes.
    pub fn dealloc<D: BlockDevice>(&self, cache: &mut BlockCache<D>, bit: usize)
        requires
            self.wf(),
            old(cache).wf(),
            self.valid_region(old(cache)),
            (bit as int) < self.spec_blocks() * (BLOCK_BITS as int),
            bit_at(old(cache).disk(), self.spec_start(), bit as int),
        ensures
            final(cache).wf(),
            final(cache).spec_num_blocks() == old(cache).spec_num_blocks(),
            !bit_at(final(cache).disk(), self.spec_start(), bit as int),
            forall|b2: int|
                0 <= b2 < self.spec_blocks() * (BLOCK_BITS as int) && b2 != bit as int ==> bit_at(
                    final(cache).disk(),
                    self.spec_start(),
                    b2,
                ) == bit_at(old(cache).disk(), self.spec_start(), b2),
            final(cache).disk().len() == old(cache).disk().len(),
            forall|blk: int|
                0 <= blk < old(cache).disk().len() && blk != self.spec_start() + (bit as int) / (
                BLOCK_BITS as int) ==> final(cache).disk()[blk] == old(cache).disk()[blk],
    {
        let ghost start = self.spec_start();
        let ghost disk0 = old(cache).disk();
        proof {
            lemma_bit_decomp(bit as int);
            assert((bit as int) / (BLOCK_BITS as int) < self.spec_blocks()) by {
                if (bit as int) / (BLOCK_BITS as int) >= self.spec_blocks() {
                    vstd::arithmetic::mul::lemma_mul_inequality(
                        self.spec_blocks(),
                        (bit as int) / (BLOCK_BITS as int),
                        BLOCK_BITS as int,
                    );
                    assert(false);
                }
            }
            cache.lemma_disk_shape();
        }
        let (block_pos, w, off) = decomposition(bit);
        let block_id = self.start_block_id + block_pos;
        let word = cache.read_u64(block_id, 8 * w);
        proof {
            assert(word == word_at(cache.disk(), block_id as int, w as int));
        }
        // The bit must be set: a clear bit would mean a double free.
        assert((word >> (off as u64)) & 1u64 == 1u64);
        let new_word = word & !(1u64 << (off as u64));
        cache.write_u64(block_id, 8 * w, new_word);
        proof {
            self.lemma_dealloc_update(
                disk0,
                cache.disk(),
                (bit as int) / (BLOCK_BITS as int),
                w as int,
                off as int,
                word,
                new_word,
            );
        }
    }

    /// The word update of `dealloc`: bit `(blk, w, o)` is cleared, all
    /// other bits are unchanged.
    proof fn lemma_dealloc_update(
        &self,
        disk0: Seq<Seq<u8>>,
        disk1: Seq<Seq<u8>>,
        blk: int,
        w: int,
        o: int,
        word: u64,
        new_word: u64,
    )
        requires
            self.wf(),
            0 <= blk < self.spec_blocks(),
            0 <= w < 64,
            0 <= o < 64,
            disk0.len() >= self.spec_start() + self.spec_blocks(),
            forall|b: int|
                0 <= b < disk0.len() ==> (#[trigger] disk0[b]).len() == BLOCK_SZ as int,
            word == word_at(disk0, self.spec_start() + blk, w),
            new_word == word & !(1u64 << (o as u64)),
            disk1 == disk0.update(
                self.spec_start() + blk,
                crate::block_cache::overwrite_bytes(
                    disk0[self.spec_start() + blk],
                    8 * w,
                    vstd::bytes::spec_u64_to_le_bytes(new_word),
                ),
            ),
        ensures
            ({
                let bit = blk * (BLOCK_BITS as int) + w * 64 + o;
                &&& !bit_at(disk1, self.spec_start(), bit)
                &&& forall|b2: int|
                    0 <= b2 < self.spec_blocks() * (BLOCK_BITS as int) && b2 != bit ==> bit_at(
                        disk1,
                        self.spec_start(),
                        b2,
                    ) == bit_at(disk0, self.spec_start(), b2)
                &&& disk1.len() == disk0.len()
                &&& forall|blkx: int|
                    0 <= blkx < disk0.len() && blkx != self.spec_start() + bit / (BLOCK_BITS as int)
                        ==> disk1[blkx] == disk0[blkx]
            }),
    {
        let start = self.spec_start();
        let bit = blk * (BLOCK_BITS as int) + w * 64 + o;
        let target = start + blk;
        let le = vstd::bytes::spec_u64_to_le_bytes(new_word);
        vstd::bytes::lemma_auto_spec_u64_to_from_le_bytes();
        lemma_bit_compose(blk, w, o);
        assert(disk1[target].subrange(8 * w, 8 * w + 8) =~= le);
        assert(word_at(disk1, target, w) == new_word);
        assert(!bit_at(disk1, start, bit)) by {
            let ou = o as u64;
            assert(((word & !(1u64 << ou)) >> ou) & 1u64 == 0u64) by (bit_vector)
                requires
                    ou < 64u64,
            ;
        }
        assert forall|b2: int|
            0 <= b2 < self.spec_blocks() * (BLOCK_BITS as int) && b2 != bit implies bit_at(
            disk1,
            start,
            b2,
        ) == bit_at(disk0, start, b2) by {
            lemma_bit_decomp(b2);
            let blk2 = b2 / (BLOCK_BITS as int);
            let w2 = (b2 % (BLOCK_BITS as int)) / 64;
            let o2 = (b2 % (BLOCK_BITS as int)) % 64;
            assert(blk2 < self.spec_blocks()) by {
                if blk2 >= self.spec_blocks() {
                    vstd::arithmetic::mul::lemma_mul_inequality(
                        self.spec_blocks(),
                        blk2,
                        BLOCK_BITS as int,
                    );
                    assert(b2 >= blk2 * (BLOCK_BITS as int));
                    assert(false);
                }
            }
            if blk2 != blk {
                assert(disk1[start + blk2] == disk0[start + blk2]);
            } else if w2 != w {
                assert(disk1[target].subrange(8 * w2, 8 * w2 + 8) =~= disk0[target].subrange(
                    8 * w2,
                    8 * w2 + 8,
                ));
            } else {
                assert(o2 != o);
                let ou = o as u64;
                let o2u = o2 as u64;
                assert(((word & !(1u64 << ou)) >> o2u) & 1u64 == (word >> o2u) & 1u64) by (
                bit_vector)
                    requires
                        ou < 64u64,
                        o2u < 64u64,
                        ou != o2u,
                ;
            }
        }
    }
}

/// A successful allocation returns only a bit that was free beforehand: a
/// bit that is currently allocated is never handed out again before an
/// intervening deallocation clears it.
pub proof fn lemma_alloc_never_reissues(
    old_disk: Seq<Seq<u8>>,
    new_disk: Seq<Seq<u8>>,
    start: int,
    blocks: int,
    r: Option<usize>,
    b: int,
)
    requires
        alloc_post(old_disk, new_disk, start, blocks, r),
        bit_at(old_disk, start, b),
    ensures
        r != Some(b as usize) || b != r.unwrap() as int,
{
}

/// Allocation is deterministic: from one disk state every allocation
/// returns the same bit — the lowest free one.
pub proof fn lemma_alloc_deterministic(
    disk: Seq<Seq<u8>>,
    new_disk1: Seq<Seq<u8>>,
    new_disk2: Seq<Seq<u8>>,
    start: int,
    blocks: int,
    r1: Option<usize>,
    r2: Option<usize>,
)
    requires
        blocks >= 0,
        alloc_post(disk, new_disk1, start, blocks, r1),
        alloc_post(disk, new_disk2, start, blocks, r2),
    ensures
        r1 == r2,
{
    match (r1, r2) {
        (Some(b1), Some(b2)) => {
            if (b1 as int) < b2 as int {
                assert(bit_at(disk, start, b1 as int));
                assert(false);
            }
            if (b2 as int) < b1 as int {
                assert(bit_at(disk, start, b2 as int));
                assert(false);
            }
        },
        (Some(b1), None) => {
            assert(bit_at(disk, start, b1 as int));
            assert(false);
        },
        (None, Some(b2)) => {
            assert(bit_at(disk, start, b2 as int));
            assert(false);
        },
        (None, None) => {},
    }
}

} // verus!
