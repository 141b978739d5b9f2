//! On-disk layout: the super-block descriptor and the disk inode with its
//! three addressing tiers (direct, single-indirect, double-indirect).
//!
//! An indirect block is one 512-byte block holding 128 little-endian
//! 32-bit block identifiers. A disk inode addresses data blocks `[0, 28)`
//! directly, `[28, 156)` through the `indirect1` block, and `[156, 16540)`
//! through the two-level `indirect2` tree.

use vstd::prelude::*;

use crate::BLOCK_SZ;
use crate::block_cache::BlockCache;
use crate::block_dev::BlockDevice;

verus! {

/// Magic marker of a valid volume.
pub const EFS_MAGIC: u32 = 0x3b800001;

/// Number of direct block pointers in a disk inode.
pub const INODE_DIRECT_COUNT: usize = 28;

/// Number of block identifiers in one indirect block.
pub const INODE_INDIRECT1_COUNT: usize = 128;

/// First data-block index beyond the reach of `indirect1`.
pub const INDIRECT1_BOUND: usize = 156;

/// Number of data blocks addressable through `indirect2`.
pub const INODE_INDIRECT2_COUNT: usize = 16384;

/// First data-block index beyond the reach of `indirect2`.
pub const INDIRECT2_BOUND: usize = 16540;

/// Fixed-format descriptor of the volume's region boundaries.
pub struct SuperBlock {
    /// Magic validity marker; `EFS_MAGIC` on a valid volume.
    pub magic: u32,
    /// Total number of blocks of the volume.
    pub total_blocks: u32,
    /// Number of blocks of the inode bitmap.
    pub inode_bitmap_blocks: u32,
    /// Number of blocks of the inode area.
    pub inode_area_blocks: u32,
    /// Number of blocks of the data bitmap.
    pub data_bitmap_blocks: u32,
    /// Number of blocks of the data area.
    pub data_area_blocks: u32,
}

impl SuperBlock {
    /// Fill in all fields at format time; the magic marker becomes valid.
    pub fn initialize(
        &mut self,
        total_blocks: u32,
        inode_bitmap_blocks: u32,
        inode_area_blocks: u32,
        data_bitmap_blocks: u32,
        data_area_blocks: u32,
    )
        ensures
            final(self).magic == EFS_MAGIC,
            final(self).total_blocks == total_blocks,
            final(self).inode_bitmap_blocks == inode_bitmap_blocks,
            final(self).inode_area_blocks == inode_area_blocks,
            final(self).data_bitmap_blocks == data_bitmap_blocks,
            final(self).data_area_blocks == data_area_blocks,
    {
        *self = SuperBlock {
            magic: EFS_MAGIC,
            total_blocks,
            inode_bitmap_blocks,
            inode_area_blocks,
            data_bitmap_blocks,
            data_area_blocks,
        };
    }

    /// A volume is usable only when the magic marker matches.
    pub fn is_valid(&self) -> (r: bool)
        ensures
            r == (self.magic == EFS_MAGIC),
    {
        self.magic == EFS_MAGIC
    }
}

/// The on-disk record of a super block: its six fields as consecutive
/// little-endian 32-bit words.
pub open spec fn spec_super_block_bytes(sb: SuperBlock) -> Seq<u8> {
    vstd::bytes::spec_u32_to_le_bytes(sb.magic) + vstd::bytes::spec_u32_to_le_bytes(sb.total_blocks)
        + vstd::bytes::spec_u32_to_le_bytes(sb.inode_bitmap_blocks)
        + vstd::bytes::spec_u32_to_le_bytes(sb.inode_area_blocks)
        + vstd::bytes::spec_u32_to_le_bytes(sb.data_bitmap_blocks)
        + vstd::bytes::spec_u32_to_le_bytes(sb.data_area_blocks)
}

impl SuperBlock {
    /// Pack the super block into its 24-byte on-disk record.
    pub fn to_bytes(&self) -> (r: Vec<u8>)
        ensures
            r@ == spec_super_block_bytes(*self),
            r@.len() == 24,
    {
        let mut r = vstd::bytes::u32_to_le_bytes(self.magic);
        let mut f = vstd::bytes::u32_to_le_bytes(self.total_blocks);
        r.append(&mut f);
        let mut f = vstd::bytes::u32_to_le_bytes(self.inode_bitmap_blocks);
        r.append(&mut f);
        let mut f = vstd::bytes::u32_to_le_bytes(self.inode_area_blocks);
        r.append(&mut f);
        let mut f = vstd::bytes::u32_to_le_bytes(self.data_bitmap_blocks);
        r.append(&mut f);
        let mut f = vstd::bytes::u32_to_le_bytes(self.data_area_blocks);
        r.append(&mut f);
        r
    }

    /// Unpack a 24-byte on-disk record; any other length is rejected.
    /// A successful parse is exact: packing the result gives the input
    /// back byte for byte.
    pub fn from_bytes(bytes: &Vec<u8>) -> (r: Option<SuperBlock>)
        ensures
            match r {
                Some(sb) => bytes@ == spec_super_block_bytes(sb),
                None => bytes@.len() != 24,
            },
    {
        if bytes.len() != 24 {
            return None;
        }
        proof {
            vstd::bytes::lemma_auto_spec_u32_to_from_le_bytes();
        }
        let mut fields: [u32; 6] = [0; 6];
        let mut k: usize = 0;
        while k < 6
            invariant
                k <= 6,
                bytes@.len() == 24,
                forall|t: int|
                    0 <= t < k as int ==> (#[trigger] fields@[t]) == vstd::bytes::spec_u32_from_le_bytes(
                        bytes@.subrange(4 * t, 4 * t + 4),
                    ),
            decreases 6 - k,
        {
            let word = vstd::bytes::u32_from_le_bytes(&bytes.as_slice()[4 * k..4 * k + 4]);
            fields[k] = word;
            k += 1;
        }
        let sb = SuperBlock {
            magic: fields[0],
            total_blocks: fields[1],
            inode_bitmap_blocks: fields[2],
            inode_area_blocks: fields[3],
            data_bitmap_blocks: fields[4],
            data_area_blocks: fields[5],
        };
        proof {
            assert(bytes@ =~= spec_super_block_bytes(sb));
        }
        Some(sb)
    }
}

/// Kind of a disk inode: an ordinary file or a directory.
#[derive(Clone, Copy, PartialEq, Eq, Structural, Debug)]
pub enum DiskInodeType {
    /// An ordinary file.
    File,
    /// A directory.
    Directory,
}

/// The on-disk tag byte of an inode kind.
pub open spec fn spec_kind_byte(t: DiskInodeType) -> u8 {
    match t {
        DiskInodeType::File => 0u8,
        DiskInodeType::Directory => 1u8,
    }
}

/// The first `k` direct pointers as consecutive little-endian 32-bit
/// words.
pub open spec fn spec_direct_bytes(d: Seq<u32>, k: int) -> Seq<u8>
    decreases k,
{
    if k <= 0 {
        Seq::empty()
    } else {
        spec_direct_bytes(d, k - 1) + vstd::bytes::spec_u32_to_le_bytes(d[k - 1])
    }
}

/// `spec_direct_bytes` packs four bytes per pointer.
proof fn lemma_direct_bytes_len(d: Seq<u32>, k: int)
    requires
        k >= 0,
    ensures
        spec_direct_bytes(d, k).len() == 4 * k,
    decreases k,
{
    vstd::bytes::lemma_auto_spec_u32_to_from_le_bytes();
    if k > 0 {
        lemma_direct_bytes_len(d, k - 1);
    }
}

/// A byte run whose 4-byte groups each encode the matching pointer is
/// exactly the packed form of those pointers.
proof fn lemma_direct_bytes_match(d: Seq<u32>, b: Seq<u8>, k: int)
    requires
        0 <= k,
        b.len() >= 4 * k,
        forall|t: int|
            0 <= t < k ==> vstd::bytes::spec_u32_to_le_bytes(d[t]) == b.subrange(
                4 * t,
                4 * t + 4,
            ),
    ensures
        spec_direct_bytes(d, k) == b.subrange(0, 4 * k),
    decreases k,
{
    vstd::bytes::lemma_auto_spec_u32_to_from_le_bytes();
    if k > 0 {
        lemma_direct_bytes_match(d, b, k - 1);
        lemma_direct_bytes_len(d, k - 1);
        assert(spec_direct_bytes(d, k) =~= b.subrange(0, 4 * k));
    }
}

/// The 125-byte on-disk record of a disk inode: size, the 28 direct
/// pointers, the two indirect pointers — all little-endian 32-bit words
/// — and the kind tag byte.
pub open spec fn spec_inode_bytes(inode: DiskInode) -> Seq<u8> {
    vstd::bytes::spec_u32_to_le_bytes(inode.size) + spec_direct_bytes(
        inode.direct@,
        INODE_DIRECT_COUNT as int,
    ) + vstd::bytes::spec_u32_to_le_bytes(inode.indirect1) + vstd::bytes::spec_u32_to_le_bytes(
        inode.indirect2,
    ) + seq![spec_kind_byte(inode.type_)]
}

/// Ceiling division of `size` bytes into 512-byte data blocks.
pub open spec fn spec_data_blocks(size: u32) -> int {
    (size as int + (BLOCK_SZ as int) - 1) / (BLOCK_SZ as int)
}

/// Number of blocks needed to store `size` bytes, index blocks included:
/// the data blocks, plus the `indirect1` pointer block once direct slots
/// are exceeded, plus the `indirect2` pointer block and one first-level
/// block per started group of 128 once `indirect1` is exceeded.
pub open spec fn spec_total_blocks(size: u32) -> int {
    let db = spec_data_blocks(size);
    db + (if db > INODE_DIRECT_COUNT as int {
        1int
    } else {
        0int
    }) + (if db > INDIRECT1_BOUND as int {
        1 + (db - (INDIRECT1_BOUND as int) + (INODE_INDIRECT1_COUNT as int) - 1) / (
        INODE_INDIRECT1_COUNT as int)
    } else {
        0int
    })
}

/// `spec_total_blocks` never decreases as the size grows, and a size of
/// zero needs no blocks at all.
pub proof fn lemma_total_blocks_monotone(s1: u32, s2: u32)
    requires
        s1 <= s2,
    ensures
        spec_total_blocks(0) == 0,
        0 <= spec_total_blocks(s1) <= spec_total_blocks(s2),
{
    let db1 = spec_data_blocks(s1);
    let db2 = spec_data_blocks(s2);
    vstd::arithmetic::div_mod::lemma_div_is_ordered(
        s1 as int + (BLOCK_SZ as int) - 1,
        s2 as int + (BLOCK_SZ as int) - 1,
        BLOCK_SZ as int,
    );
    vstd::arithmetic::div_mod::lemma_div_pos_is_pos(s1 as int + (BLOCK_SZ as int) - 1, BLOCK_SZ as int);
    if db2 > INDIRECT1_BOUND as int {
        vstd::arithmetic::div_mod::lemma_div_is_ordered(
            db1 - (INDIRECT1_BOUND as int) + (INODE_INDIRECT1_COUNT as int) - 1,
            db2 - (INDIRECT1_BOUND as int) + (INODE_INDIRECT1_COUNT as int) - 1,
            INODE_INDIRECT1_COUNT as int,
        );
        if db1 > INDIRECT1_BOUND as int {
            vstd::arithmetic::div_mod::lemma_div_pos_is_pos(
                db1 - (INDIRECT1_BOUND as int) + (INODE_INDIRECT1_COUNT as int) - 1,
                INODE_INDIRECT1_COUNT as int,
            );
        }
    }
}

/// An upper bound that keeps all the block counting inside `u32`.
proof fn lemma_total_blocks_bound(size: u32)
    ensures
        spec_data_blocks(size) <= 0x80_0000,
        spec_total_blocks(size) <= 0x90_0000,
{
    vstd::arithmetic::div_mod::lemma_div_is_ordered(
        size as int + (BLOCK_SZ as int) - 1,
        0xffff_ffff + (BLOCK_SZ as int) - 1,
        BLOCK_SZ as int,
    );
    let db = spec_data_blocks(size);
    assert((0xffff_ffff + (BLOCK_SZ as int) - 1) / (BLOCK_SZ as int) == 0x80_0000);
    if db > INDIRECT1_BOUND as int {
        vstd::arithmetic::div_mod::lemma_div_is_ordered(
            db - (INDIRECT1_BOUND as int) + (INODE_INDIRECT1_COUNT as int) - 1,
            0x80_0000,
            INODE_INDIRECT1_COUNT as int,
        );
    }
}

/// Per-file metadata and addressing structure, exactly as stored on disk.
pub struct DiskInode {
    /// File size in bytes.
    pub size: u32,
    /// The 28 direct data-block pointers.
    pub direct: [u32; 28],
    /// The single-indirect pointer block, or 0 while unused.
    pub indirect1: u32,
    /// The double-indirect pointer block, or 0 while unused.
    pub indirect2: u32,
    /// Whether this inode is a file or a directory.
    pub type_: DiskInodeType,
}

impl DiskInode {
    /// Zero every field and set the kind.
    pub fn initialize(&mut self, type_: DiskInodeType)
        ensures
            final(self).size == 0,
            final(self).direct@ == Seq::<u32>::new(INODE_DIRECT_COUNT as nat, |i: int| 0u32),
            final(self).indirect1 == 0,
            final(self).indirect2 == 0,
            final(self).type_ == type_,
    {
        broadcast use vstd::array::group_array_axioms;

        let direct: [u32; 28] = [0u32; 28];
        proof {
            assert(direct@ =~= Seq::<u32>::new(INODE_DIRECT_COUNT as nat, |i: int| 0u32));
        }
        *self = DiskInode { size: 0, direct, indirect1: 0, indirect2: 0, type_ };
    }

    /// Pack the inode into its 125-byte on-disk record.
    pub fn to_bytes(&self) -> (r: Vec<u8>)
        ensures
            r@ == spec_inode_bytes(*self),
            r@.len() == 125,
    {
        proof {
            vstd::bytes::lemma_auto_spec_u32_to_from_le_bytes();
            lemma_direct_bytes_len(self.direct@, INODE_DIRECT_COUNT as int);
        }
        let mut r = vstd::bytes::u32_to_le_bytes(self.size);
        let mut k: usize = 0;
        while k < INODE_DIRECT_COUNT
            invariant
                k <= INODE_DIRECT_COUNT,
                r@ == vstd::bytes::spec_u32_to_le_bytes(self.size) + spec_direct_bytes(
                    self.direct@,
                    k as int,
                ),
            decreases INODE_DIRECT_COUNT - k,
        {
            let mut word = vstd::bytes::u32_to_le_bytes(self.direct[k]);
            r.append(&mut word);
            proof {
                assert(r@ =~= vstd::bytes::spec_u32_to_le_bytes(self.size) + spec_direct_bytes(
                    self.direct@,
                    k as int + 1,
                ));
            }
            k += 1;
        }
        let mut word = vstd::bytes::u32_to_le_bytes(self.indirect1);
        r.append(&mut word);
        let mut word = vstd::bytes::u32_to_le_bytes(self.indirect2);
        r.append(&mut word);
        let tag: u8 = match self.type_ {
            DiskInodeType::File => 0,
            DiskInodeType::Directory => 1,
        };
        r.push(tag);
        proof {
            assert(r@ =~= spec_inode_bytes(*self));
            lemma_direct_bytes_len(self.direct@, INODE_DIRECT_COUNT as int);
        }
        r
    }

    /// Unpack a 125-byte on-disk record; a wrong length or an unknown
    /// kind tag is rejected. A successful parse is exact: packing the
    /// result gives the input back byte for byte.
    pub fn from_bytes(bytes: &Vec<u8>) -> (r: Option<DiskInode>)
        ensures
            match r {
                Some(inode) => bytes@ == spec_inode_bytes(inode),
                None => bytes@.len() != 125 || (bytes@[124] != 0 && bytes@[124] != 1),
            },
    {
        if bytes.len() != 125 {
            return None;
        }
        let tag = bytes[124];
        let type_ = if tag == 0 {
            DiskInodeType::File
        } else if tag == 1 {
            DiskInodeType::Directory
        } else {
            return None;
        };
        proof {
            vstd::bytes::lemma_auto_spec_u32_to_from_le_bytes();
        }
        let size = vstd::bytes::u32_from_le_bytes(&bytes.as_slice()[0..4]);
        let mut direct: [u32; 28] = [0; 28];
        let mut k: usize = 0;
        while k < INODE_DIRECT_COUNT
            invariant
                k <= INODE_DIRECT_COUNT,
                bytes@.len() == 125,
                forall|t: int|
                    0 <= t < k as int ==> (#[trigger] direct@[t])
                        == vstd::bytes::spec_u32_from_le_bytes(
                        bytes@.subrange(4 + 4 * t, 8 + 4 * t),
                    ),
            decreases INODE_DIRECT_COUNT - k,
        {
            broadcast use vstd::array::group_array_axioms;

            let word = vstd::bytes::u32_from_le_bytes(&bytes.as_slice()[4 + 4 * k..8 + 4 * k]);
            direct[k] = word;
            k += 1;
        }
        let indirect1 = vstd::bytes::u32_from_le_bytes(&bytes.as_slice()[116..120]);
        let indirect2 = vstd::bytes::u32_from_le_bytes(&bytes.as_slice()[120..124]);
        let inode = DiskInode { size, direct, indirect1, indirect2, type_ };
        proof {
            let mid = bytes@.subrange(4, 116);
            assert forall|t: int|
                0 <= t < INODE_DIRECT_COUNT as int implies vstd::bytes::spec_u32_to_le_bytes(
                inode.direct@[t],
            ) == mid.subrange(4 * t, 4 * t + 4) by {
                assert(mid.subrange(4 * t, 4 * t + 4) =~= bytes@.subrange(4 + 4 * t, 8 + 4 * t));
            }
            lemma_direct_bytes_match(inode.direct@, mid, INODE_DIRECT_COUNT as int);
            lemma_direct_bytes_len(inode.direct@, INODE_DIRECT_COUNT as int);
            assert(mid.subrange(0, 112) =~= mid);
            assert(bytes@ =~= spec_inode_bytes(inode));
        }
        Some(inode)
    }

    /// Is this inode a directory?
    pub fn is_dir(&self) -> (r: bool)
        ensures
            r == (self.type_ == DiskInodeType::Directory),
    {
        self.type_ == DiskInodeType::Directory
    }

    /// Is this inode an ordinary file?
    pub fn is_file(&self) -> (r: bool)
        ensures
            r == (self.type_ == DiskInodeType::File),
    {
        self.type_ == DiskInodeType::File
    }

    /// Ceiling division of a byte size into data blocks.
    fn _data_block(size: u32) -> (r: u32)
        ensures
            r as int == spec_data_blocks(size),
    {
        proof {
            lemma_total_blocks_bound(size);
        }
        (((size as u64) + (BLOCK_SZ as u64) - 1) / (BLOCK_SZ as u64)) as u32
    }

    /// How many data blocks this inode's current size occupies.
    pub fn data_blocks(&self) -> (r: u32)
        ensures
            r as int == spec_data_blocks(self.size),
    {
        Self::_data_block(self.size)
    }

    /// Number of blocks needed for `size` bytes, index blocks included.
    pub fn total_blocks(size: u32) -> (r: u32)
        ensures
            r as int == spec_total_blocks(size),
    {
        proof {
            lemma_total_blocks_bound(size);
            lemma_total_blocks_monotone(size, size);
        }
        let data_blocks = ((size as u64) + (BLOCK_SZ as u64) - 1) / (BLOCK_SZ as u64);
        let mut total: u64 = data_blocks;
        if data_blocks > INODE_DIRECT_COUNT as u64 {
            total += 1;
        }
        if data_blocks > INDIRECT1_BOUND as u64 {
            total += 1 + (data_blocks - (INDIRECT1_BOUND as u64) + (INODE_INDIRECT1_COUNT as u64)
                - 1) / (INODE_INDIRECT1_COUNT as u64);
        }
        total as u32
    }

    /// How many fresh blocks a growth to `new_size` must be handed:
    /// `total_blocks(new_size) - total_blocks(size)`.
    pub fn blocks_num_needed(&self, new_size: u32) -> (r: u32)
        requires
            new_size >= self.size,
        ensures
            r as int == spec_total_blocks(new_size) - spec_total_blocks(self.size),
    {
        proof {
            lemma_total_blocks_monotone(self.size, new_size);
        }
        Self::total_blocks(new_size) - Self::total_blocks(self.size)
    }
}

/// The little-endian 32-bit entry `i` of the indirect block `block`.
pub open spec fn entry_at(disk: Seq<Seq<u8>>, block: int, i: int) -> u32 {
    vstd::bytes::spec_u32_from_le_bytes(disk[block].subrange(4 * i, 4 * i + 4))
}

/// `spec_total_blocks`, expressed over a data-block count instead of a
/// byte size.
pub open spec fn spec_total_for(db: int) -> int {
    db + (if db > INODE_DIRECT_COUNT as int {
        1int
    } else {
        0int
    }) + (if db > INDIRECT1_BOUND as int {
        1 + (db - (INDIRECT1_BOUND as int) + (INODE_INDIRECT1_COUNT as int) - 1) / (
        INODE_INDIRECT1_COUNT as int)
    } else {
        0int
    })
}

/// The index blocks an inode with the given pointers and `c` data blocks
/// keeps live: the `indirect1` block, the `indirect2` block and every
/// first-level block of the `indirect2` tree that is in use.
pub open spec fn live_index_blocks(ind1: u32, ind2: u32, disk: Seq<Seq<u8>>, c: int) -> Seq<u32> {
    (if c > INODE_DIRECT_COUNT as int {
        seq![ind1]
    } else {
        Seq::empty()
    }) + (if c > INDIRECT1_BOUND as int {
        seq![ind2] + Seq::new(
            ((c - (INDIRECT1_BOUND as int) + (INODE_INDIRECT1_COUNT as int) - 1) / (
            INODE_INDIRECT1_COUNT as int)) as nat,
            |a: int| entry_at(disk, ind2 as int, a),
        )
    } else {
        Seq::empty()
    })
}

/// What one little-endian 32-bit store does to indirect entries: the
/// entry at the written offset takes the new value, every entry that does
/// not overlap the written bytes is untouched.
proof fn lemma_entry_after_write(d: Seq<Seq<u8>>, bw: int, off: int, x: u32, byb: int, i: int)
    requires
        0 <= bw < d.len(),
        0 <= byb < d.len(),
        d[bw].len() == BLOCK_SZ as int,
        0 <= off,
        off + 4 <= BLOCK_SZ as int,
        0 <= i,
        4 * i + 4 <= BLOCK_SZ as int,
    ensures
        ({
            let d1 = d.update(
                bw,
                crate::block_cache::overwrite_bytes(d[bw], off, vstd::bytes::spec_u32_to_le_bytes(x)),
            );
            &&& (byb != bw || 4 * i + 4 <= off || off + 4 <= 4 * i) ==> entry_at(d1, byb, i)
                == entry_at(d, byb, i)
            &&& (byb == bw && off == 4 * i) ==> entry_at(d1, byb, i) == x
        }),
{
    let le = vstd::bytes::spec_u32_to_le_bytes(x);
    vstd::bytes::lemma_auto_spec_u32_to_from_le_bytes();
    let d1 = d.update(bw, crate::block_cache::overwrite_bytes(d[bw], off, le));
    if byb != bw || 4 * i + 4 <= off || off + 4 <= 4 * i {
        assert(d1[byb].subrange(4 * i, 4 * i + 4) =~= d[byb].subrange(4 * i, 4 * i + 4));
    }
    if byb == bw && off == 4 * i {
        assert(d1[byb].subrange(4 * i, 4 * i + 4) =~= le);
    }
}

/// `ind1_ids` only looks at the first `k` entries of its block: two disks
/// that agree there give the same sequence.
proof fn lemma_ind1_ids_agree(d0: Seq<Seq<u8>>, d1: Seq<Seq<u8>>, ind1: int, k: int)
    requires
        forall|i: int| 0 <= i < k ==> #[trigger] entry_at(d1, ind1, i) == entry_at(d0, ind1, i),
    ensures
        ind1_ids(d1, ind1, k) == ind1_ids(d0, ind1, k),
    decreases k,
{
    if k > 0 {
        lemma_ind1_ids_agree(d0, d1, ind1, k - 1);
    }
}

/// `ind2_ids` only looks at the used second-level entries and the used
/// part of each first-level block: two disks that agree there give the
/// same sequence.
proof fn lemma_ind2_ids_agree(d0: Seq<Seq<u8>>, d1: Seq<Seq<u8>>, ind2: int, k: int)
    requires
        forall|a: int|
            0 <= a < (k + (INODE_INDIRECT1_COUNT as int) - 1) / (INODE_INDIRECT1_COUNT as int)
                ==> #[trigger] entry_at(d1, ind2, a) == entry_at(d0, ind2, a),
        forall|j: int|
            0 <= j < k ==> #[trigger] entry_at(
                d1,
                entry_at(d0, ind2, j / (INODE_INDIRECT1_COUNT as int)) as int,
                j % (INODE_INDIRECT1_COUNT as int),
            ) == entry_at(
                d0,
                entry_at(d0, ind2, j / (INODE_INDIRECT1_COUNT as int)) as int,
                j % (INODE_INDIRECT1_COUNT as int),
            ),
    ensures
        ind2_ids(d1, ind2, k) == ind2_ids(d0, ind2, k),
    decreases k,
{
    if k > 0 {
        lemma_ind2_ids_agree(d0, d1, ind2, k - 1);
        let a = (k - 1) / (INODE_INDIRECT1_COUNT as int);
        vstd::arithmetic::div_mod::lemma_div_pos_is_pos(k - 1, INODE_INDIRECT1_COUNT as int);
        vstd::arithmetic::div_mod::lemma_div_is_ordered(
            k - 1,
            k - 1,
            INODE_INDIRECT1_COUNT as int,
        );
        assert(a < (k + (INODE_INDIRECT1_COUNT as int) - 1) / (INODE_INDIRECT1_COUNT as int)) by {
            vstd::arithmetic::div_mod::lemma_div_plus_one(k - 1, INODE_INDIRECT1_COUNT as int);
        }
        assert(entry_at(d1, ind2, a) == entry_at(d0, ind2, a));
    }
}

impl DiskInode {
    /// The block identifier behind logical data-block index `i`: direct
    /// slot, `indirect1` entry, or a two-step `indirect2` walk.
    pub open spec fn spec_block_id(&self, disk: Seq<Seq<u8>>, i: int) -> u32 {
        if i < INODE_DIRECT_COUNT as int {
            self.direct@[i]
        } else if i < INDIRECT1_BOUND as int {
            entry_at(disk, self.indirect1 as int, i - INODE_DIRECT_COUNT as int)
        } else {
            let last = i - INDIRECT1_BOUND as int;
            entry_at(
                disk,
                entry_at(disk, self.indirect2 as int, last / (INODE_INDIRECT1_COUNT as int)) as int,
                last % (INODE_INDIRECT1_COUNT as int),
            )
        }
    }

    /// The index pointers are on the disk and the size is addressable:
    /// what resolution and traversal need to stay in bounds.
    pub open spec fn ptrs_valid(&self, disk: Seq<Seq<u8>>) -> bool {
        let db = spec_data_blocks(self.size);
        &&& db <= INDIRECT2_BOUND as int
        &&& db > INODE_DIRECT_COUNT as int ==> (self.indirect1 as int) < disk.len()
        &&& db > INDIRECT1_BOUND as int ==> (self.indirect2 as int) < disk.len()
        &&& db > INDIRECT1_BOUND as int ==> forall|a: int|
            0 <= a < (db - (INDIRECT1_BOUND as int) + (INODE_INDIRECT1_COUNT as int) - 1) / (
            INODE_INDIRECT1_COUNT as int) ==> ((#[trigger] entry_at(
                disk,
                self.indirect2 as int,
                a,
            )) as int) < disk.len()
    }

    /// Resolve logical data-block index `inner_id` to its block
    /// identifier, reading at most two index blocks through the cache.
    pub fn get_block_id<D: BlockDevice>(&self, inner_id: u32, cache: &mut BlockCache<D>) -> (r:
        u32)
        requires
            old(cache).wf(),
            self.ptrs_valid(old(cache).disk()),
            (inner_id as int) < spec_data_blocks(self.size),
        ensures
            final(cache).wf(),
            final(cache).disk() == old(cache).disk(),
            final(cache).spec_num_blocks() == old(cache).spec_num_blocks(),
            r == self.spec_block_id(old(cache).disk(), inner_id as int),
    {
        proof {
            old(cache).lemma_disk_shape();
        }
        let inner = inner_id as usize;
        if inner < INODE_DIRECT_COUNT {
            let r = self.direct[inner];
            r
        } else if inner < INDIRECT1_BOUND {
            cache.read_u32(self.indirect1 as usize, 4 * (inner - INODE_DIRECT_COUNT))
        } else {
            let last = inner - INDIRECT1_BOUND;
            let a = last / INODE_INDIRECT1_COUNT;
            let b = last % INODE_INDIRECT1_COUNT;
            proof {
                assert(last < INODE_INDIRECT2_COUNT);
                vstd::arithmetic::div_mod::lemma_div_is_ordered(
                    last as int,
                    (INODE_INDIRECT2_COUNT - 1) as int,
                    INODE_INDIRECT1_COUNT as int,
                );
                vstd::arithmetic::div_mod::lemma_div_pos_is_pos(
                    last as int,
                    INODE_INDIRECT1_COUNT as int,
                );
                // The walked first-level pointer is one that `ptrs_valid`
                // covers: `a` lies below the number of first-level blocks
                // in use.
                let db = spec_data_blocks(self.size);
                vstd::arithmetic::div_mod::lemma_div_is_ordered(
                    last as int,
                    db - (INDIRECT1_BOUND as int) - 1,
                    INODE_INDIRECT1_COUNT as int,
                );
                vstd::arithmetic::div_mod::lemma_div_plus_one(
                    db - (INDIRECT1_BOUND as int) - 1,
                    INODE_INDIRECT1_COUNT as int,
                );
                assert(db - (INDIRECT1_BOUND as int) - 1 + (INODE_INDIRECT1_COUNT as int) == db - (
                INDIRECT1_BOUND as int) + (INODE_INDIRECT1_COUNT as int) - 1);
            }
            let ind1 = cache.read_u32(self.indirect2 as usize, 4 * a);
            proof {
                assert(ind1 == entry_at(old(cache).disk(), self.indirect2 as int, a as int));
            }
            cache.read_u32(ind1 as usize, 4 * b)
        }
    }
}

/// The identifiers of the first `k` entries of the indirect block `ind1`,
/// in entry order.
pub open spec fn ind1_ids(disk: Seq<Seq<u8>>, ind1: int, k: int) -> Seq<u32>
    decreases k,
{
    if k <= 0 {
        Seq::empty()
    } else {
        ind1_ids(disk, ind1, k - 1).push(entry_at(disk, ind1, k - 1))
    }
}

/// The identifiers reachable through the `indirect2` tree for its first
/// `k` data entries: every first-level pointer block appears right before
/// its own entries.
pub open spec fn ind2_ids(disk: Seq<Seq<u8>>, ind2: int, k: int) -> Seq<u32>
    decreases k,
{
    if k <= 0 {
        Seq::empty()
    } else {
        let a = (k - 1) / (INODE_INDIRECT1_COUNT as int);
        let b = (k - 1) % (INODE_INDIRECT1_COUNT as int);
        let sub = entry_at(disk, ind2, a);
        let prev = ind2_ids(disk, ind2, k - 1);
        if b == 0 {
            prev.push(sub).push(entry_at(disk, sub as int, b))
        } else {
            prev.push(entry_at(disk, sub as int, b))
        }
    }
}

/// All identifiers a disk inode with the given fields and `db` data
/// blocks references, in traversal order: direct entries, the `indirect1`
/// pointer and its entries, the `indirect2` pointer and its tree.
pub open spec fn reachable_ids(
    direct: Seq<u32>,
    ind1: u32,
    ind2: u32,
    disk: Seq<Seq<u8>>,
    db: int,
) -> Seq<u32> {
    let dpart = direct.subrange(
        0,
        if db < INODE_DIRECT_COUNT as int {
            db
        } else {
            INODE_DIRECT_COUNT as int
        },
    );
    let part1 = if db > INODE_DIRECT_COUNT as int {
        seq![ind1] + ind1_ids(
            disk,
            ind1 as int,
            if db - (INODE_DIRECT_COUNT as int) < INODE_INDIRECT1_COUNT as int {
                db - (INODE_DIRECT_COUNT as int)
            } else {
                INODE_INDIRECT1_COUNT as int
            },
        )
    } else {
        Seq::empty()
    };
    let part2 = if db > INDIRECT1_BOUND as int {
        seq![ind2] + ind2_ids(disk, ind2 as int, db - (INDIRECT1_BOUND as int))
    } else {
        Seq::empty()
    };
    dpart + part1 + part2
}

/// Does the growth from `inode0` on `disk0`, fed `new_blocks`, leave
/// block `b` alone? It does whenever `b` is neither a live index block of
/// the old inode nor one of the supplied identifiers.
pub open spec fn untouched_by_growth(
    inode0: DiskInode,
    disk0: Seq<Seq<u8>>,
    new_blocks: Seq<u32>,
    b: int,
) -> bool {
    &&& forall|x: int|
        0 <= x < inode0.spec_index_blocks(disk0).len() ==> ((#[trigger] inode0.spec_index_blocks(
            disk0,
        )[x]) as int) != b
    &&& forall|i: int| 0 <= i < new_blocks.len() ==> ((#[trigger] new_blocks[i]) as int) != b
}

/// One step of the `indirect2` phase of a growth: after the optional
/// write of a fresh first-level pointer into the `indirect2` block and
/// the write of one fresh entry into that first-level block, the
/// reachable sequence has grown by exactly the consumed identifiers, the
/// live index blocks by at most the fresh pointer, and no unrelated
/// block has changed.
#[verifier::rlimit(100)]
proof fn lemma_ind2_step(
    inode0: DiskInode,
    disk0: Seq<Seq<u8>>,
    new_blocks: Seq<u32>,
    d_start: Seq<Seq<u8>>,
    d_mid2: Seq<Seq<u8>>,
    d_end: Seq<Seq<u8>>,
    dir_start: Seq<u32>,
    i1: u32,
    i2: u32,
    c: int,
    idx0: int,
    idx_mid2: int,
    sub: u32,
    nbe: u32,
    reach0: Seq<u32>,
    live0: Seq<u32>,
    reach_start: Seq<u32>,
    live_start: Seq<u32>,
)
    requires
        INDIRECT1_BOUND as int <= c < INDIRECT2_BOUND as int,
        ({
            let last = c - INDIRECT1_BOUND as int;
            let a = last / (INODE_INDIRECT1_COUNT as int);
            let bb = last % (INODE_INDIRECT1_COUNT as int);
            &&& idx_mid2 == idx0 + (if c == INDIRECT1_BOUND as int {
                1int
            } else {
                0int
            }) + (if bb == 0 {
                1int
            } else {
                0int
            })
            &&& (if bb == 0 {
                d_mid2 == d_start.update(
                    i2 as int,
                    crate::block_cache::overwrite_bytes(
                        d_start[i2 as int],
                        4 * a,
                        vstd::bytes::spec_u32_to_le_bytes(new_blocks[idx_mid2 - 1]),
                    ),
                )
            } else {
                d_mid2 == d_start
            })
            &&& sub == entry_at(d_mid2, i2 as int, a)
            &&& (bb == 0 ==> sub == new_blocks[idx_mid2 - 1])
            &&& nbe == new_blocks[idx_mid2]
            &&& d_end == d_mid2.update(
                sub as int,
                crate::block_cache::overwrite_bytes(
                    d_mid2[sub as int],
                    4 * bb,
                    vstd::bytes::spec_u32_to_le_bytes(nbe),
                ),
            )
        }),
        c == INDIRECT1_BOUND as int ==> i2 == new_blocks[idx0],
        d_start.len() == disk0.len(),
        forall|b2: int|
            0 <= b2 < d_start.len() ==> (#[trigger] d_start[b2]).len() == BLOCK_SZ as int,
        (i1 as int) < d_start.len(),
        (i2 as int) < d_start.len(),
        (sub as int) < d_start.len(),
        0 <= idx0,
        idx_mid2 + 1 <= new_blocks.len(),
        forall|i: int, j: int| 0 <= i < j < new_blocks.len() ==> new_blocks[i] != new_blocks[j],
        forall|i: int|
            0 <= i < new_blocks.len() ==> !live0.contains(#[trigger] new_blocks[i]),
        forall|i: int|
            0 <= i < new_blocks.len() ==> ((#[trigger] new_blocks[i]) as int) < disk0.len(),
        live_start == live_index_blocks(i1, i2, d_start, c),
        forall|x: int, y: int| 0 <= x < y < live_start.len() ==> live_start[x] != live_start[y],
        forall|x: int|
            0 <= x < live_start.len() ==> ((#[trigger] live_start[x]) as int) < d_start.len(),
        forall|x: int|
            0 <= x < live_start.len() ==> live0.contains(#[trigger] live_start[x])
                || new_blocks.subrange(0, idx0).contains(live_start[x]),
        reach_start == reachable_ids(dir_start, i1, i2, d_start, c),
        reach_start == reach0 + new_blocks.subrange(0, idx0),
        forall|b2: int|
            0 <= b2 < disk0.len() && untouched_by_growth(inode0, disk0, new_blocks, b2)
                ==> d_start[b2] == disk0[b2],
        live0 == inode0.spec_index_blocks(disk0),
    ensures
        reachable_ids(dir_start, i1, i2, d_end, c + 1) == reach0 + new_blocks.subrange(
            0,
            idx_mid2 + 1,
        ),
        ({
            let live = live_index_blocks(i1, i2, d_end, c + 1);
            &&& forall|x: int, y: int| 0 <= x < y < live.len() ==> live[x] != live[y]
            &&& forall|x: int|
                0 <= x < live.len() ==> ((#[trigger] live[x]) as int) < d_end.len()
            &&& forall|x: int|
                0 <= x < live.len() ==> live0.contains(#[trigger] live[x])
                    || new_blocks.subrange(0, idx_mid2 + 1).contains(live[x])
        }),
        d_end.len() == d_start.len(),
        forall|b2: int|
            0 <= b2 < d_end.len() ==> (#[trigger] d_end[b2]).len() == BLOCK_SZ as int,
        forall|b2: int|
            0 <= b2 < disk0.len() && untouched_by_growth(inode0, disk0, new_blocks, b2)
                ==> d_end[b2] == disk0[b2],
{
    let ik = INODE_INDIRECT1_COUNT as int;
    let last = c - INDIRECT1_BOUND as int;
    let a = last / ik;
    let bb = last % ik;
    vstd::arithmetic::div_mod::lemma_fundamental_div_mod(last, ik);
    vstd::arithmetic::div_mod::lemma_mod_bound(last, ik);
    vstd::arithmetic::div_mod::lemma_div_pos_is_pos(last, ik);
    let subs_before = (last + ik - 1) / ik;
    let subs_after = (last + ik) / ik;
    if bb == 0 {
        vstd::arithmetic::div_mod::lemma_fundamental_div_mod_converse(last + ik - 1, ik, a, ik - 1);
    } else {
        vstd::arithmetic::div_mod::lemma_fundamental_div_mod_converse(last + ik - 1, ik, a + 1, bb - 1);
    }
    vstd::arithmetic::div_mod::lemma_fundamental_div_mod_converse(last + ik, ik, a + 1, bb);
    assert(subs_before == if bb == 0 { a } else { a + 1 });
    assert(subs_after == a + 1);

    // Shape of the live sequence at the start.
    assert(live_start[0] == i1);
    if c > INDIRECT1_BOUND as int {
        assert(live_start.len() == 2 + subs_before);
        assert(live_start[1] == i2);
        assert(forall|x: int|
            0 <= x < subs_before ==> live_start[2 + x] == #[trigger] entry_at(d_start, i2 as int, x));
    } else {
        assert(live_start.len() == 1);
        assert(bb == 0 && a == 0);
    }

    // No identifier still to be consumed collides with a live block.
    assert forall|x: int, k: int|
        0 <= x < live_start.len() && idx0 <= k < new_blocks.len() implies live_start[x]
        != new_blocks[k] by {
        if live0.contains(live_start[x]) {
        } else {
            let j = choose|j: int|
                0 <= j < idx0 && new_blocks.subrange(0, idx0)[j] == live_start[x];
        }
    }

    // The blocks written this step are distinct from each other and from
    // the other live blocks.
    if c == INDIRECT1_BOUND as int {
        assert(i2 != i1);
    }
    if bb == 0 {
        assert(sub == new_blocks[idx_mid2 - 1]);
        assert(sub != i1);
        if c == INDIRECT1_BOUND as int {
            assert(idx_mid2 - 1 != idx0);
            assert(sub != i2);
        } else {
            assert(sub != i2);
        }
    } else {
        assert(live_start[2 + a] == entry_at(d_start, i2 as int, a));
        assert(sub == live_start[2 + a]);
        assert(sub != i1 && sub != i2);
    }

    let lenb = vstd::bytes::spec_u32_to_le_bytes(nbe).len();
    vstd::bytes::lemma_auto_spec_u32_to_from_le_bytes();
    assert(d_mid2.len() == d_start.len());
    assert(forall|b2: int|
        0 <= b2 < d_mid2.len() ==> (#[trigger] d_mid2[b2]).len() == BLOCK_SZ as int);
    assert(d_end.len() == d_start.len());
    assert(forall|b2: int|
        0 <= b2 < d_end.len() ==> (#[trigger] d_end[b2]).len() == BLOCK_SZ as int);

    // Second-level entries other than `a` are untouched; entry `a` reads
    // back as `sub`.
    assert forall|ap: int| 0 <= ap < ik && ap != a implies #[trigger] entry_at(d_end, i2 as int, ap)
        == entry_at(d_start, i2 as int, ap) by {
        if bb == 0 {
            lemma_entry_after_write(
                d_start,
                i2 as int,
                4 * a,
                new_blocks[idx_mid2 - 1],
                i2 as int,
                ap,
            );
        }
        lemma_entry_after_write(d_mid2, sub as int, 4 * bb, nbe, i2 as int, ap);
    }
    assert(entry_at(d_end, i2 as int, a) == sub) by {
        lemma_entry_after_write(d_mid2, sub as int, 4 * bb, nbe, i2 as int, a);
    }
    // The written first-level entry reads back as `nbe`.
    assert(entry_at(d_end, sub as int, bb) == nbe) by {
        lemma_entry_after_write(d_mid2, sub as int, 4 * bb, nbe, sub as int, bb);
    }

    // Entries of first-level blocks in use before this step keep their
    // values.
    assert forall|j: int| 0 <= j < last implies #[trigger] entry_at(
        d_end,
        entry_at(d_start, i2 as int, j / ik) as int,
        j % ik,
    ) == entry_at(d_start, entry_at(d_start, i2 as int, j / ik) as int, j % ik) by {
        let aj = j / ik;
        let bj = j % ik;
        vstd::arithmetic::div_mod::lemma_fundamental_div_mod(j, ik);
        vstd::arithmetic::div_mod::lemma_mod_bound(j, ik);
        vstd::arithmetic::div_mod::lemma_div_pos_is_pos(j, ik);
        assert(aj <= a) by {
            if aj > a {
                assert(j == ik * aj + bj);
                assert(ik * aj >= ik * (a + 1)) by (nonlinear_arith)
                    requires
                        aj >= a + 1,
                        ik > 0,
                ;
                assert(false);
            }
        }
        if bb == 0 {
            assert(aj < a) by {
                if aj == a {
                    assert(j == ik * a + bj && last == ik * a);
                    assert(false);
                }
            }
        }
        assert(aj < subs_before);
        let sj = entry_at(d_start, i2 as int, aj);
        assert(live_start[2 + aj] == sj);
        assert(sj != i2);
        if bb == 0 {
            assert(sj != sub);
            lemma_entry_after_write(
                d_start,
                i2 as int,
                4 * a,
                new_blocks[idx_mid2 - 1],
                sj as int,
                bj,
            );
            lemma_entry_after_write(d_mid2, sub as int, 4 * bb, nbe, sj as int, bj);
        } else {
            if aj == a {
                assert(sj == sub);
                assert(bj < bb) by {
                    assert(j == ik * a + bj && last == ik * a + bb && j < last);
                }
                lemma_entry_after_write(d_mid2, sub as int, 4 * bb, nbe, sub as int, bj);
            } else {
                assert(sj != sub);
                lemma_entry_after_write(d_mid2, sub as int, 4 * bb, nbe, sj as int, bj);
            }
        }
    }

    // Hence the previously reachable part of the tree is unchanged.
    lemma_ind2_ids_agree(d_start, d_end, i2 as int, last);

    // Entries of the indirect1 block are untouched.
    assert forall|i: int| 0 <= i < ik implies #[trigger] entry_at(d_end, i1 as int, i) == entry_at(
        d_start,
        i1 as int,
        i,
    ) by {
        if bb == 0 {
            lemma_entry_after_write(
                d_start,
                i2 as int,
                4 * a,
                new_blocks[idx_mid2 - 1],
                i1 as int,
                i,
            );
        }
        lemma_entry_after_write(d_mid2, sub as int, 4 * bb, nbe, i1 as int, i);
    }
    lemma_ind1_ids_agree(d_start, d_end, i1 as int, ik);

    // Assemble the reachable sequence for `c + 1` data blocks.
    assert(ind2_ids(d_end, i2 as int, last + 1) == (if bb == 0 {
        ind2_ids(d_end, i2 as int, last).push(sub).push(nbe)
    } else {
        ind2_ids(d_end, i2 as int, last).push(nbe)
    }));
    let appended: Seq<u32> = if c == INDIRECT1_BOUND as int {
        seq![i2, sub, nbe]
    } else if bb == 0 {
        seq![sub, nbe]
    } else {
        seq![nbe]
    };
    if c == INDIRECT1_BOUND as int {
        assert(ind2_ids(d_start, i2 as int, 0) =~= Seq::<u32>::empty());
        assert(ind2_ids(d_end, i2 as int, last + 1) =~= Seq::<u32>::empty().push(sub).push(nbe));
    } else {
        assert(ind2_ids(d_end, i2 as int, last + 1) =~= ind2_ids(d_start, i2 as int, last)
            + (if bb == 0 {
            seq![sub, nbe]
        } else {
            seq![nbe]
        }));
    }
    assert(ind1_ids(d_end, i1 as int, ik) == ind1_ids(d_start, i1 as int, ik));
    assert(reachable_ids(dir_start, i1, i2, d_end, c + 1) =~= reach_start + appended);
    assert(new_blocks.subrange(0, idx_mid2 + 1) =~= new_blocks.subrange(0, idx0) + appended);
    assert(reach0 + new_blocks.subrange(0, idx_mid2 + 1) =~= (reach0 + new_blocks.subrange(
        0,
        idx0,
    )) + appended);
    assert(reachable_ids(dir_start, i1, i2, d_end, c + 1) == reach0 + new_blocks.subrange(
        0,
        idx_mid2 + 1,
    ));

    // The live blocks for `c + 1`.
    let live = live_index_blocks(i1, i2, d_end, c + 1);
    assert(live.len() == 2 + subs_after);
    assert(live[0] == i1 && live[1] == i2);
    assert(forall|x: int|
        0 <= x < subs_after ==> live[2 + x] == #[trigger] entry_at(d_end, i2 as int, x));
    assert(forall|x: int| 0 <= x < a ==> #[trigger] entry_at(d_end, i2 as int, x) == entry_at(
        d_start,
        i2 as int,
        x,
    ));
    assert forall|x: int, y: int| 0 <= x < y < live.len() implies live[x] != live[y] by {
        if y == 2 + a {
            assert(live[y] == sub);
            if x >= 2 {
                assert(live[x] == live_start[x]);
            }
        } else if x == 2 + a {
            assert(false);
        } else {
            if x >= 2 && y >= 2 {
                assert(live[x] == live_start[x] && live[y] == live_start[y]);
            } else if y >= 2 {
                assert(live[y] == live_start[y]);
                if c == INDIRECT1_BOUND as int {
                    assert(false);
                }
            } else {
                if c == INDIRECT1_BOUND as int {
                    assert(x == 0 && y == 1);
                    assert(i2 != i1);
                }
            }
        }
    }
    assert forall|x: int| 0 <= x < live.len() implies ((#[trigger] live[x]) as int)
        < d_end.len() by {
        if x == 2 + a {
            assert(live[x] == sub);
        } else if x >= 2 {
            assert(live[x] == live_start[x]);
        } else if x == 1 {
            assert(live[x] == i2);
        }
    }
    assert forall|x: int| 0 <= x < live.len() implies live0.contains(#[trigger] live[x])
        || new_blocks.subrange(0, idx_mid2 + 1).contains(live[x]) by {
        if x == 2 + a {
            if bb == 0 {
                assert(new_blocks.subrange(0, idx_mid2 + 1)[idx_mid2 - 1] == sub);
            } else {
                assert(live[x] == live_start[2 + a]);
                if live0.contains(live_start[2 + a]) {
                } else {
                    let j = choose|j: int|
                        0 <= j < idx0 && new_blocks.subrange(0, idx0)[j] == live_start[2 + a];
                    assert(new_blocks.subrange(0, idx_mid2 + 1)[j] == live_start[2 + a]);
                }
            }
        } else {
            let v = if x == 0 {
                i1
            } else if x == 1 {
                i2
            } else {
                live_start[x]
            };
            assert(live[x] == v);
            if x == 1 && c == INDIRECT1_BOUND as int {
                assert(new_blocks.subrange(0, idx_mid2 + 1)[idx0] == i2);
            } else {
                assert(live_start.contains(v)) by {
                    if x == 0 {
                        assert(live_start[0] == v);
                    } else if x == 1 {
                        assert(live_start[1] == v);
                    } else {
                        assert(live_start[x] == v);
                    }
                }
                let w = choose|w: int| 0 <= w < live_start.len() && live_start[w] == v;
                if live0.contains(live_start[w]) {
                } else {
                    let j = choose|j: int|
                        0 <= j < idx0 && new_blocks.subrange(0, idx0)[j] == live_start[w];
                    assert(new_blocks.subrange(0, idx_mid2 + 1)[j] == v);
                }
            }
        }
    }

    // Frame: only the `indirect2` block and one first-level block were
    // written, and both are excluded from the untouched set.
    assert forall|b2: int|
        0 <= b2 < disk0.len() && untouched_by_growth(inode0, disk0, new_blocks, b2) implies d_end[b2]
        == disk0[b2] by {
        assert(b2 != sub as int) by {
            if bb == 0 {
            } else {
                assert(sub == live_start[2 + a]);
                if live0.contains(sub) {
                    let w = choose|w: int| 0 <= w < live0.len() && live0[w] == sub;
                } else {
                    let j = choose|j: int|
                        0 <= j < idx0 && new_blocks.subrange(0, idx0)[j] == sub;
                }
            }
        }
        assert(b2 != i2 as int) by {
            if c == INDIRECT1_BOUND as int {
            } else {
                assert(i2 == live_start[1]);
                if live0.contains(i2) {
                    let w = choose|w: int| 0 <= w < live0.len() && live0[w] == i2;
                } else {
                    let j = choose|j: int|
                        0 <= j < idx0 && new_blocks.subrange(0, idx0)[j] == i2;
                }
            }
        }
    }
}

impl DiskInode {
    /// Every block identifier this inode currently references, index
    /// blocks included, in traversal order.
    pub open spec fn spec_reachable_ids(&self, disk: Seq<Seq<u8>>) -> Seq<u32> {
        reachable_ids(self.direct@, self.indirect1, self.indirect2, disk, spec_data_blocks(self.size))
    }

    /// The index blocks this inode keeps live on `disk`.
    pub open spec fn spec_index_blocks(&self, disk: Seq<Seq<u8>>) -> Seq<u32> {
        live_index_blocks(self.indirect1, self.indirect2, disk, spec_data_blocks(self.size))
    }

    /// Grow the file to `new_size`, consuming the freshly allocated
    /// identifiers `new_blocks` in order: remaining direct slots first;
    /// one identifier becomes the `indirect1` block on first crossing
    /// into its range, then identifiers fill its entries; symmetrically
    /// one becomes the `indirect2` block, and within its range one
    /// identifier becomes each new first-level block right before its
    /// entries are filled. Everything reachable below the old size is
    /// left untouched.
    #[verifier::loop_isolation(false)]
    #[verifier::rlimit(100)]
    pub fn increase_size<D: BlockDevice>(
        &mut self,
        new_size: u32,
        new_blocks: Vec<u32>,
        cache: &mut BlockCache<D>,
    )
        requires
            old(cache).wf(),
            old(self).ptrs_valid(old(cache).disk()),
            old(self).size <= new_size,
            spec_data_blocks(new_size) <= INDIRECT2_BOUND as int,
            new_blocks@.len() == spec_total_blocks(new_size) - spec_total_blocks(old(self).size),
            forall|i: int|
                0 <= i < new_blocks@.len() ==> ((#[trigger] new_blocks@[i]) as int) < old(
                    cache,
                ).disk().len(),
            forall|i: int, j: int|
                0 <= i < j < new_blocks@.len() ==> new_blocks@[i] != new_blocks@[j],
            forall|i: int|
                0 <= i < new_blocks@.len() ==> !old(self).spec_index_blocks(
                    old(cache).disk(),
                ).contains(#[trigger] new_blocks@[i]),
            forall|x: int, y: int|
                0 <= x < y < old(self).spec_index_blocks(old(cache).disk()).len() ==> old(
                    self,
                ).spec_index_blocks(old(cache).disk())[x] != old(self).spec_index_blocks(
                    old(cache).disk(),
                )[y],
        ensures
            final(cache).wf(),
            final(cache).spec_num_blocks() == old(cache).spec_num_blocks(),
            final(cache).disk().len() == old(cache).disk().len(),
            final(self).size == new_size,
            final(self).type_ == old(self).type_,
            final(self).ptrs_valid(final(cache).disk()),
            final(self).spec_reachable_ids(final(cache).disk()) == old(self).spec_reachable_ids(
                old(cache).disk(),
            ) + new_blocks@,
            forall|b: int|
                0 <= b < old(cache).disk().len() && untouched_by_growth(
                    *old(self),
                    old(cache).disk(),
                    new_blocks@,
                    b,
                ) ==> final(cache).disk()[b] == old(cache).disk()[b],
    {
        proof {
            old(cache).lemma_disk_shape();
            lemma_total_blocks_monotone(old(self).size, new_size);
            vstd::arithmetic::div_mod::lemma_div_is_ordered(
                old(self).size as int + (BLOCK_SZ as int) - 1,
                new_size as int + (BLOCK_SZ as int) - 1,
                BLOCK_SZ as int,
            );
        }
        let ghost disk0 = old(cache).disk();
        let ghost inode0 = *old(self);
        let ghost reach0 = old(self).spec_reachable_ids(disk0);
        let ghost live0 = old(self).spec_index_blocks(disk0);
        let ghost db0 = spec_data_blocks(old(self).size);
        let ghost dbn = spec_data_blocks(new_size);

        let mut cur: usize = self.data_blocks() as usize;
        let total: usize = Self::_data_block(new_size) as usize;
        let mut idx: usize = 0;

        proof {
            assert(reachable_ids(self.direct@, self.indirect1, self.indirect2, cache.disk(), cur as int)
                =~= reach0 + new_blocks@.subrange(0, 0));
            assert(live_index_blocks(self.indirect1, self.indirect2, cache.disk(), cur as int)
                =~= live0);
        }

        while cur < total
            invariant
                db0 <= cur as int <= total as int,
                total as int == dbn,
                idx as int == spec_total_for(cur as int) - spec_total_for(db0),
                cache.wf(),
                cache.spec_num_blocks() == old(cache).spec_num_blocks(),
                cache.disk().len() == disk0.len(),
                forall|b2: int|
                    0 <= b2 < cache.disk().len() ==> (#[trigger] cache.disk()[b2]).len()
                        == BLOCK_SZ as int,
                self.size == old(self).size,
                self.type_ == old(self).type_,
                cur as int > INODE_DIRECT_COUNT as int ==> (self.indirect1 as int)
                    < cache.disk().len(),
                cur as int > INDIRECT1_BOUND as int ==> (self.indirect2 as int)
                    < cache.disk().len(),
                ({
                    let live = live_index_blocks(
                        self.indirect1,
                        self.indirect2,
                        cache.disk(),
                        cur as int,
                    );
                    &&& forall|x: int, y: int| 0 <= x < y < live.len() ==> live[x] != live[y]
                    &&& forall|x: int|
                        0 <= x < live.len() ==> ((#[trigger] live[x]) as int) < cache.disk().len()
                    &&& forall|x: int|
                        0 <= x < live.len() ==> live0.contains(#[trigger] live[x])
                            || new_blocks@.subrange(0, idx as int).contains(live[x])
                }),
                reachable_ids(self.direct@, self.indirect1, self.indirect2, cache.disk(), cur as int)
                    == reach0 + new_blocks@.subrange(0, idx as int),
                forall|b: int|
                    0 <= b < disk0.len() && untouched_by_growth(inode0, disk0, new_blocks@, b)
                        ==> cache.disk()[b] == disk0[b],
            decreases total - cur,
        {
            let ghost d_start = cache.disk();
            let ghost dir_start = self.direct@;
            let ghost i1_start = self.indirect1;
            let ghost i2_start = self.indirect2;
            let ghost idx0 = idx as int;
            let ghost reach_start = reachable_ids(dir_start, i1_start, i2_start, d_start, cur as int);
            let ghost live_start = live_index_blocks(i1_start, i2_start, d_start, cur as int);
            if cur < INODE_DIRECT_COUNT {
                let nb = new_blocks[idx];
                self.direct[cur] = nb;
                idx += 1;
                proof {
                    assert(self.direct@.subrange(0, cur as int) =~= dir_start.subrange(
                        0,
                        cur as int,
                    ));
                    assert(reachable_ids(
                        self.direct@,
                        self.indirect1,
                        self.indirect2,
                        cache.disk(),
                        cur as int + 1,
                    ) =~= reach_start.push(nb));
                    assert(reach0 + new_blocks@.subrange(0, idx as int) =~= (reach0
                        + new_blocks@.subrange(0, idx0)).push(nb));
                    assert(live_index_blocks(
                        self.indirect1,
                        self.indirect2,
                        cache.disk(),
                        cur as int + 1,
                    ) =~= live_start);
                }
            } else if cur < INDIRECT1_BOUND {
                if cur == INODE_DIRECT_COUNT {
                    let nbp = new_blocks[idx];
                    self.indirect1 = nbp;
                    idx += 1;
                }
                let ghost i1 = self.indirect1;
                let ghost d_mid = cache.disk();
                let ghost idx_mid = idx as int;
                let nbe = new_blocks[idx];
                cache.write_u32(self.indirect1 as usize, 4 * (cur - INODE_DIRECT_COUNT), nbe);
                idx += 1;
                proof {
                    let c = cur as int;
                    let off = 4 * (c - INODE_DIRECT_COUNT as int);
                    // Existing entries of the indirect1 block keep their
                    // values; the new entry takes `nbe`.
                    assert forall|i: int| 0 <= i < c - INODE_DIRECT_COUNT as int implies
                        #[trigger] entry_at(cache.disk(), i1 as int, i) == entry_at(
                        d_mid,
                        i1 as int,
                        i,
                    ) by {
                        lemma_entry_after_write(d_mid, i1 as int, off, nbe, i1 as int, i);
                    }
                    lemma_ind1_ids_agree(
                        d_mid,
                        cache.disk(),
                        i1 as int,
                        c - INODE_DIRECT_COUNT as int,
                    );
                    lemma_entry_after_write(
                        d_mid,
                        i1 as int,
                        off,
                        nbe,
                        i1 as int,
                        c - INODE_DIRECT_COUNT as int,
                    );
                    assert(entry_at(cache.disk(), i1 as int, c - INODE_DIRECT_COUNT as int) == nbe);
                    if cur == INODE_DIRECT_COUNT {
                        // The pointer block itself was consumed first.
                        assert(ind1_ids(d_mid, i1 as int, 0) =~= Seq::<u32>::empty());
                        assert(reachable_ids(
                            self.direct@,
                            self.indirect1,
                            self.indirect2,
                            cache.disk(),
                            c + 1,
                        ) =~= reach_start.push(i1).push(nbe));
                        assert(reach0 + new_blocks@.subrange(0, idx as int) =~= (reach0
                            + new_blocks@.subrange(0, idx0)).push(i1).push(nbe));
                    } else {
                        // `d_mid == d_start` and the entries below stay.
                        assert(ind1_ids(cache.disk(), i1 as int, c - INODE_DIRECT_COUNT as int)
                            == ind1_ids(d_start, i1 as int, c - INODE_DIRECT_COUNT as int));
                        assert(reachable_ids(
                            self.direct@,
                            self.indirect1,
                            self.indirect2,
                            cache.disk(),
                            c + 1,
                        ) =~= reach_start.push(nbe));
                        assert(reach0 + new_blocks@.subrange(0, idx as int) =~= (reach0
                            + new_blocks@.subrange(0, idx0)).push(nbe));
                    }
                    // Live index blocks: now exactly the indirect1 block.
                    assert(live_index_blocks(
                        self.indirect1,
                        self.indirect2,
                        cache.disk(),
                        c + 1,
                    ) =~= seq![i1]);
                    if cur == INODE_DIRECT_COUNT {
                        assert(new_blocks@.subrange(0, idx as int).contains(i1)) by {
                            assert(new_blocks@.subrange(0, idx as int)[idx0] == i1);
                        }
                    } else {
                        assert(live_start[0] == i1);
                    }
                    // Frame: the only touched block is the live indirect1.
                    assert forall|b: int|
                        0 <= b < disk0.len() && untouched_by_growth(inode0, disk0, new_blocks@, b)
                        implies cache.disk()[b] == disk0[b] by {
                        assert(b != i1 as int);
                    }
                }
            } else {
                if cur == INDIRECT1_BOUND {
                    let nbp = new_blocks[idx];
                    self.indirect2 = nbp;
                    idx += 1;
                }
                let ghost i1 = self.indirect1;
                let ghost i2 = self.indirect2;
                let last = cur - INDIRECT1_BOUND;
                let a = last / INODE_INDIRECT1_COUNT;
                let b = last % INODE_INDIRECT1_COUNT;
                proof {
                    vstd::arithmetic::div_mod::lemma_fundamental_div_mod(
                        last as int,
                        INODE_INDIRECT1_COUNT as int,
                    );
                    vstd::arithmetic::div_mod::lemma_div_pos_is_pos(
                        last as int,
                        INODE_INDIRECT1_COUNT as int,
                    );
                    assert(last < INODE_INDIRECT2_COUNT);
                    vstd::arithmetic::div_mod::lemma_div_is_ordered(
                        last as int,
                        (INODE_INDIRECT2_COUNT - 1) as int,
                        INODE_INDIRECT1_COUNT as int,
                    );
                    // ceil identities for this step.
                    vstd::arithmetic::div_mod::lemma_fundamental_div_mod_converse(
                        last as int + (INODE_INDIRECT1_COUNT as int),
                        INODE_INDIRECT1_COUNT as int,
                        a as int + 1,
                        b as int,
                    );
                    if b == 0 {
                        vstd::arithmetic::div_mod::lemma_fundamental_div_mod_converse(
                            last as int + (INODE_INDIRECT1_COUNT as int) - 1,
                            INODE_INDIRECT1_COUNT as int,
                            a as int,
                            (INODE_INDIRECT1_COUNT as int) - 1,
                        );
                    } else {
                        vstd::arithmetic::div_mod::lemma_fundamental_div_mod_converse(
                            last as int + (INODE_INDIRECT1_COUNT as int) - 1,
                            INODE_INDIRECT1_COUNT as int,
                            a as int + 1,
                            b as int - 1,
                        );
                    }
                }
                proof {
                    assert(((INODE_INDIRECT2_COUNT - 1) as int) / (INODE_INDIRECT1_COUNT as int)
                        == 127);
                    if cur as int == INDIRECT1_BOUND as int {
                        assert(i2 == new_blocks@[idx0]);
                    } else {
                        assert(live_start[1] == i2);
                    }
                    assert((i2 as int) < cache.disk().len());
                }
                if b == 0 {
                    let nbs = new_blocks[idx];
                    cache.write_u32(self.indirect2 as usize, 4 * a, nbs);
                    idx += 1;
                }
                let ghost d_mid2 = cache.disk();
                let ghost idx_mid2 = idx as int;
                let sub = cache.read_u32(self.indirect2 as usize, 4 * a);
                proof {
                    if b == 0 {
                        lemma_entry_after_write(
                            d_start,
                            i2 as int,
                            4 * (a as int),
                            new_blocks@[idx_mid2 - 1],
                            i2 as int,
                            a as int,
                        );
                        assert(sub == new_blocks@[idx_mid2 - 1]);
                        assert((sub as int) < cache.disk().len());
                    } else {
                        assert(sub == entry_at(d_start, i2 as int, a as int));
                        assert(live_start[2 + a as int] == sub);
                        assert((sub as int) < cache.disk().len());
                    }
                }
                let nbe = new_blocks[idx];
                cache.write_u32(sub as usize, 4 * b, nbe);
                idx += 1;
                proof {
                    lemma_ind2_step(
                        inode0,
                        disk0,
                        new_blocks@,
                        d_start,
                        d_mid2,
                        cache.disk(),
                        dir_start,
                        i1,
                        i2,
                        cur as int,
                        idx0,
                        idx_mid2,
                        sub,
                        nbe,
                        reach0,
                        live0,
                        reach_start,
                        live_start,
                    );
                }
            }
            cur += 1;
        }
        self.size = new_size;
        proof {
            assert(new_blocks@.subrange(0, new_blocks@.len() as int) =~= new_blocks@);
            assert(self.spec_reachable_ids(cache.disk()) == reach0 + new_blocks@);
            // Valid pointers for the grown size follow from the live
            // index blocks being in range.
            let live = live_index_blocks(self.indirect1, self.indirect2, cache.disk(), dbn);
            if dbn > INDIRECT1_BOUND as int {
                assert forall|a: int|
                    0 <= a < (dbn - (INDIRECT1_BOUND as int) + (INODE_INDIRECT1_COUNT as int) - 1)
                        / (INODE_INDIRECT1_COUNT as int) implies ((#[trigger] entry_at(
                    cache.disk(),
                    self.indirect2 as int,
                    a,
                )) as int) < cache.disk().len() by {
                    assert(live[2 + a] == entry_at(cache.disk(), self.indirect2 as int, a));
                }
            }
        }
    }

    /// Clear the inode to size zero, returning every referenced block
    /// identifier — data blocks and index blocks — in traversal order,
    /// for the caller to hand back to the allocator. Only reads the disk.
    #[verifier::loop_isolation(false)]
    pub fn clear_size<D: BlockDevice>(&mut self, cache: &mut BlockCache<D>) -> (v: Vec<u32>)
        requires
            old(cache).wf(),
            old(self).ptrs_valid(old(cache).disk()),
        ensures
            final(cache).wf(),
            final(cache).disk() == old(cache).disk(),
            final(cache).spec_num_blocks() == old(cache).spec_num_blocks(),
            v@ == old(self).spec_reachable_ids(old(cache).disk()),
            final(self).size == 0,
            final(self).type_ == old(self).type_,
            forall|t: int| 0 <= t < INODE_DIRECT_COUNT as int ==> final(self).direct@[t] == 0,
            final(self).indirect1 == 0,
            final(self).indirect2 == 0,
            spec_data_blocks(final(self).size) == 0,
            final(self).spec_reachable_ids(final(cache).disk()) == Seq::<u32>::empty(),
    {
        proof {
            old(cache).lemma_disk_shape();
        }
        let ghost disk0 = old(cache).disk();
        let ghost inode0 = *old(self);
        let ghost db = spec_data_blocks(old(self).size);
        let data_blocks = self.data_blocks() as usize;
        let mut v: Vec<u32> = Vec::new();
        // Direct entries.
        let direct_count = if data_blocks < INODE_DIRECT_COUNT {
            data_blocks
        } else {
            INODE_DIRECT_COUNT
        };
        let mut i: usize = 0;
        while i < direct_count
            invariant
                i <= direct_count,
                direct_count == if db < INODE_DIRECT_COUNT as int {
                    db
                } else {
                    INODE_DIRECT_COUNT as int
                },
                self == old(self),
                v@ == old(self).direct@.subrange(0, i as int),
            decreases direct_count - i,
        {
            let id = self.direct[i];
            v.push(id);
            proof {
                assert(v@ =~= old(self).direct@.subrange(0, i as int + 1));
            }
            i += 1;
        }
        let mut j: usize = 0;
        while j < INODE_DIRECT_COUNT
            invariant
                j <= INODE_DIRECT_COUNT,
                v@ == old(self).direct@.subrange(
                    0,
                    if db < INODE_DIRECT_COUNT as int {
                        db
                    } else {
                        INODE_DIRECT_COUNT as int
                    },
                ),
                self.size == old(self).size,
                self.indirect1 == old(self).indirect1,
                self.indirect2 == old(self).indirect2,
                self.type_ == old(self).type_,
                forall|t: int| 0 <= t < j as int ==> self.direct@[t] == 0,
            decreases INODE_DIRECT_COUNT - j,
        {
            self.direct[j] = 0;
            j += 1;
        }
        let ghost dpart = v@;
        if data_blocks <= INODE_DIRECT_COUNT {
            self.indirect1 = 0;
            self.indirect2 = 0;
            self.size = 0;
            proof {
                assert(old(self).spec_reachable_ids(disk0) =~= dpart);
                assert(self.spec_reachable_ids(cache.disk()) =~= Seq::<u32>::empty());
            }
            return v;
        }
        // The indirect1 pointer and its entries.
        let ind1 = self.indirect1;
        v.push(ind1);
        let cnt1 = if data_blocks - INODE_DIRECT_COUNT < INODE_INDIRECT1_COUNT {
            data_blocks - INODE_DIRECT_COUNT
        } else {
            INODE_INDIRECT1_COUNT
        };
        let mut k: usize = 0;
        while k < cnt1
            invariant
                k <= cnt1,
                cnt1 <= INODE_INDIRECT1_COUNT,
                cnt1 == if db - (INODE_DIRECT_COUNT as int) < INODE_INDIRECT1_COUNT as int {
                    db - (INODE_DIRECT_COUNT as int)
                } else {
                    INODE_INDIRECT1_COUNT as int
                },
                cache.wf(),
                cache.disk() == disk0,
                cache.spec_num_blocks() == old(cache).spec_num_blocks(),
                (ind1 as int) < disk0.len(),
                v@ == dpart + seq![ind1] + ind1_ids(disk0, ind1 as int, k as int),
            decreases cnt1 - k,
        {
            let e = cache.read_u32(ind1 as usize, 4 * k);
            proof {
                assert(e == entry_at(disk0, ind1 as int, k as int));
            }
            v.push(e);
            proof {
                assert(v@ =~= dpart + seq![ind1] + ind1_ids(disk0, ind1 as int, k as int + 1));
            }
            k += 1;
        }
        self.indirect1 = 0;
        if data_blocks <= INDIRECT1_BOUND {
            self.indirect2 = 0;
            self.size = 0;
            proof {
                assert(old(self).spec_reachable_ids(disk0) =~= v@);
                assert(self.spec_reachable_ids(cache.disk()) =~= Seq::<u32>::empty());
            }
            return v;
        }
        // The indirect2 pointer and its tree.
        let ind2 = self.indirect2;
        v.push(ind2);
        let ghost prefix = dpart + seq![ind1] + ind1_ids(disk0, ind1 as int, cnt1 as int) + seq![
            ind2,
        ];
        proof {
            assert(v@ =~= prefix);
        }
        let total2 = data_blocks - INDIRECT1_BOUND;
        let mut t: usize = 0;
        while t < total2
            invariant
                t <= total2,
                total2 == db - (INDIRECT1_BOUND as int),
                db <= INDIRECT2_BOUND as int,
                cache.wf(),
                cache.disk() == disk0,
                cache.spec_num_blocks() == old(cache).spec_num_blocks(),
                (ind2 as int) < disk0.len(),
                disk0.len() == old(cache).spec_num_blocks(),
                forall|b2: int|
                    0 <= b2 < disk0.len() ==> (#[trigger] disk0[b2]).len() == BLOCK_SZ as int,
                forall|a: int|
                    0 <= a < (db - (INDIRECT1_BOUND as int) + (INODE_INDIRECT1_COUNT as int) - 1)
                        / (INODE_INDIRECT1_COUNT as int) ==> ((#[trigger] entry_at(
                        disk0,
                        ind2 as int,
                        a,
                    )) as int) < disk0.len(),
                v@ == prefix + ind2_ids(disk0, ind2 as int, t as int),
            decreases total2 - t,
        {
            let a = t / INODE_INDIRECT1_COUNT;
            let b = t % INODE_INDIRECT1_COUNT;
            proof {
                vstd::arithmetic::div_mod::lemma_div_is_ordered(
                    t as int,
                    total2 - 1,
                    INODE_INDIRECT1_COUNT as int,
                );
                vstd::arithmetic::div_mod::lemma_div_plus_one(
                    total2 - 1,
                    INODE_INDIRECT1_COUNT as int,
                );
                assert(total2 - 1 + (INODE_INDIRECT1_COUNT as int) == db - (INDIRECT1_BOUND as int)
                    + (INODE_INDIRECT1_COUNT as int) - 1);
                vstd::arithmetic::div_mod::lemma_div_pos_is_pos(
                    t as int,
                    INODE_INDIRECT1_COUNT as int,
                );
            }
            let sub = cache.read_u32(ind2 as usize, 4 * a);
            proof {
                assert(sub == entry_at(disk0, ind2 as int, a as int));
            }
            if b == 0 {
                v.push(sub);
            }
            let e = cache.read_u32(sub as usize, 4 * b);
            proof {
                assert(e == entry_at(disk0, sub as int, b as int));
            }
            v.push(e);
            proof {
                assert(v@ =~= prefix + ind2_ids(disk0, ind2 as int, t as int + 1));
            }
            t += 1;
        }
        self.indirect2 = 0;
        self.size = 0;
        proof {
            assert(old(self).spec_reachable_ids(disk0) =~= v@);
            assert(self.spec_reachable_ids(cache.disk()) =~= Seq::<u32>::empty());
        }
        v
    }

    /// Byte `j` of the file content, resolved through the addressing
    /// tiers.
    pub open spec fn spec_byte(&self, disk: Seq<Seq<u8>>, j: int) -> u8 {
        disk[self.spec_block_id(disk, j / (BLOCK_SZ as int)) as int][j % (BLOCK_SZ as int)]
    }

    /// Every data block of the current size resolves to a block on the
    /// disk.
    pub open spec fn data_valid(&self, disk: Seq<Seq<u8>>) -> bool {
        forall|i: int|
            0 <= i < spec_data_blocks(self.size) ==> ((#[trigger] self.spec_block_id(disk, i)) as int)
                < disk.len()
    }

    /// The data blocks are pairwise distinct and none doubles as an index
    /// block: what keeps a write to one logical block from disturbing any
    /// other part of the file.
    pub open spec fn blocks_exclusive(&self, disk: Seq<Seq<u8>>) -> bool {
        &&& forall|i: int, j: int|
            0 <= i < j < spec_data_blocks(self.size) ==> self.spec_block_id(disk, i)
                != self.spec_block_id(disk, j)
        &&& forall|i: int|
            0 <= i < spec_data_blocks(self.size) ==> !self.spec_index_blocks(disk).contains(
                #[trigger] self.spec_block_id(disk, i),
            )
    }
}

/// How many bytes a clipped transfer at `offset` with a buffer of
/// `buflen` bytes moves on a file of `size` bytes.
pub open spec fn spec_rw_len(size: u32, offset: int, buflen: int) -> int {
    if offset >= size as int {
        0
    } else if buflen < size as int - offset {
        buflen
    } else {
        size as int - offset
    }
}

/// A data-block index touched by a byte below the size lies below the
/// data-block count.
proof fn lemma_pos_block_in_range(pos: int, size: u32)
    requires
        0 <= pos < size as int,
    ensures
        0 <= pos / (BLOCK_SZ as int) < spec_data_blocks(size),
{
    let bsz = BLOCK_SZ as int;
    vstd::arithmetic::div_mod::lemma_div_pos_is_pos(pos, bsz);
    vstd::arithmetic::div_mod::lemma_div_is_ordered(pos, size as int - 1, bsz);
    vstd::arithmetic::div_mod::lemma_div_plus_one(size as int - 1, bsz);
}

/// Writing into a block that is not an index block leaves every
/// resolution — block identifiers, pointer validity, the index-block set
/// — exactly as it was.
proof fn lemma_resolution_after_data_write(
    inode: DiskInode,
    d: Seq<Seq<u8>>,
    w: int,
    off: int,
    bytes: Seq<u8>,
)
    requires
        inode.ptrs_valid(d),
        0 <= w < d.len(),
        forall|x: int|
            0 <= x < inode.spec_index_blocks(d).len() ==> ((#[trigger] inode.spec_index_blocks(
                d,
            )[x]) as int) != w,
    ensures
        ({
            let d1 = d.update(w, crate::block_cache::overwrite_bytes(d[w], off, bytes));
            &&& forall|i: int|
                0 <= i < spec_data_blocks(inode.size) ==> #[trigger] inode.spec_block_id(d1, i)
                    == inode.spec_block_id(d, i)
            &&& inode.ptrs_valid(d1)
            &&& inode.spec_index_blocks(d1) == inode.spec_index_blocks(d)
        }),
{
    let d1 = d.update(w, crate::block_cache::overwrite_bytes(d[w], off, bytes));
    let db = spec_data_blocks(inode.size);
    let ik = INODE_INDIRECT1_COUNT as int;
    let live = inode.spec_index_blocks(d);
    if db > INODE_DIRECT_COUNT as int {
        assert(live[0] == inode.indirect1);
        assert(d1[inode.indirect1 as int] == d[inode.indirect1 as int]);
    }
    if db > INDIRECT1_BOUND as int {
        assert(live[1] == inode.indirect2);
        assert(d1[inode.indirect2 as int] == d[inode.indirect2 as int]);
        assert forall|a: int|
            0 <= a < (db - (INDIRECT1_BOUND as int) + ik - 1) / ik implies #[trigger] entry_at(
            d1,
            inode.indirect2 as int,
            a,
        ) == entry_at(d, inode.indirect2 as int, a) && d1[entry_at(
            d,
            inode.indirect2 as int,
            a,
        ) as int] == d[entry_at(d, inode.indirect2 as int, a) as int] by {
            assert(live[2 + a] == entry_at(d, inode.indirect2 as int, a));
        }
        assert(inode.spec_index_blocks(d1) =~= inode.spec_index_blocks(d));
    } else {
        assert(inode.spec_index_blocks(d1) =~= inode.spec_index_blocks(d));
    }
    assert forall|i: int| 0 <= i < db implies #[trigger] inode.spec_block_id(d1, i)
        == inode.spec_block_id(d, i) by {
        if i < INODE_DIRECT_COUNT as int {
        } else if i < INDIRECT1_BOUND as int {
        } else {
            let last = i - INDIRECT1_BOUND as int;
            vstd::arithmetic::div_mod::lemma_div_pos_is_pos(last, ik);
            vstd::arithmetic::div_mod::lemma_div_is_ordered(
                last,
                db - (INDIRECT1_BOUND as int) - 1,
                ik,
            );
            vstd::arithmetic::div_mod::lemma_div_plus_one(db - (INDIRECT1_BOUND as int) - 1, ik);
            assert(db - (INDIRECT1_BOUND as int) - 1 + ik == db - (INDIRECT1_BOUND as int) + ik - 1);
            let a = last / ik;
            assert(entry_at(d1, inode.indirect2 as int, a) == entry_at(d, inode.indirect2 as int, a));
        }
    }
}

impl DiskInode {
    /// Read bytes from the file into `buf`, starting at byte `offset`,
    /// clipped to the current size; returns how many bytes were read.
    /// The buffer beyond the returned count is untouched.
    #[verifier::loop_isolation(false)]
    pub fn read_at<D: BlockDevice>(
        &self,
        offset: usize,
        buf: &mut Vec<u8>,
        cache: &mut BlockCache<D>,
    ) -> (r: usize)
        requires
            old(cache).wf(),
            self.ptrs_valid(old(cache).disk()),
            self.data_valid(old(cache).disk()),
            offset + old(buf).len() <= usize::MAX,
        ensures
            final(cache).wf(),
            final(cache).disk() == old(cache).disk(),
            final(cache).spec_num_blocks() == old(cache).spec_num_blocks(),
            r as int == spec_rw_len(self.size, offset as int, old(buf).len() as int),
            final(buf).len() == old(buf).len(),
            forall|k: int|
                0 <= k < r as int ==> final(buf)@[k] == self.spec_byte(
                    old(cache).disk(),
                    offset + k,
                ),
            forall|k: int|
                r as int <= k < old(buf).len() as int ==> final(buf)@[k] == old(buf)@[k],
    {
        proof {
            old(cache).lemma_disk_shape();
            lemma_total_blocks_bound(self.size);
        }
        let ghost disk0 = old(cache).disk();
        let size = self.size as usize;
        let end = if offset + buf.len() < size {
            offset + buf.len()
        } else {
            size
        };
        if offset >= end {
            return 0;
        }
        let mut pos = offset;
        while pos < end
            invariant
                offset <= pos <= end,
                cache.wf(),
                cache.disk() == disk0,
                cache.spec_num_blocks() == old(cache).spec_num_blocks(),
                buf.len() == old(buf).len(),
                forall|k: int|
                    0 <= k < pos - offset ==> buf@[k] == self.spec_byte(disk0, offset + k),
                forall|k: int|
                    pos - offset <= k < old(buf).len() as int ==> buf@[k] == old(buf)@[k],
            decreases end - pos,
        {
            let block_idx = pos / BLOCK_SZ;
            let in_off = pos % BLOCK_SZ;
            let chunk = if BLOCK_SZ - in_off < end - pos {
                BLOCK_SZ - in_off
            } else {
                end - pos
            };
            proof {
                lemma_pos_block_in_range(pos as int, self.size);
            }
            let bid = self.get_block_id(block_idx as u32, cache);
            let data = cache.read(bid as usize, in_off, chunk);
            let ghost buf_before = buf@;
            let mut k: usize = 0;
            while k < chunk
                invariant
                    k <= chunk,
                    buf.len() == buf_before.len(),
                    data@.len() == chunk as int,
                    pos - offset + chunk <= buf.len(),
                    forall|t: int| 0 <= t < k as int ==> buf@[pos - offset + t] == data@[t],
                    forall|t: int|
                        0 <= t < buf.len() && !(pos - offset <= t < pos - offset + k as int)
                            ==> buf@[t] == buf_before[t],
                decreases chunk - k,
            {
                let byte = data[k];
                buf.set(pos - offset + k, byte);
                k += 1;
            }
            proof {
                assert forall|k2: int|
                    pos - offset <= k2 < pos - offset + chunk as int implies buf@[k2]
                    == #[trigger] self.spec_byte(disk0, offset + k2) by {
                    let t = k2 - (pos - offset);
                    vstd::arithmetic::div_mod::lemma_fundamental_div_mod(
                        pos as int,
                        BLOCK_SZ as int,
                    );
                    vstd::arithmetic::div_mod::lemma_fundamental_div_mod_converse(
                        pos + t,
                        BLOCK_SZ as int,
                        block_idx as int,
                        in_off + t,
                    );
                    assert(buf@[pos - offset + t] == data@[t]);
                    assert(data@[t] == disk0[bid as int].subrange(
                        in_off as int,
                        in_off as int + chunk as int,
                    )[t]);
                    assert(data@[t] == disk0[bid as int][in_off + t]);
                    assert((pos + t) / (BLOCK_SZ as int) == block_idx as int);
                    assert((pos + t) % (BLOCK_SZ as int) == in_off + t);
                    assert(bid == self.spec_block_id(disk0, block_idx as int));
                }
                assert forall|k2: int| 0 <= k2 < pos - offset implies buf@[k2]
                    == #[trigger] self.spec_byte(disk0, offset + k2) by {
                    assert(buf@[k2] == buf_before[k2]);
                }
            }
            pos += chunk;
        }
        end - offset
    }

    /// Write bytes from `buf` into the file at byte `offset`, clipped to
    /// the current size (grow first to write beyond it); returns how many
    /// bytes were written. Touches only the data blocks of the written
    /// range.
    #[verifier::loop_isolation(false)]
    pub fn write_at<D: BlockDevice>(
        &mut self,
        offset: usize,
        buf: &Vec<u8>,
        cache: &mut BlockCache<D>,
    ) -> (r: usize)
        requires
            old(cache).wf(),
            old(self).ptrs_valid(old(cache).disk()),
            old(self).data_valid(old(cache).disk()),
            old(self).blocks_exclusive(old(cache).disk()),
            offset as int <= old(self).size as int,
            offset + buf.len() <= usize::MAX,
        ensures
            final(cache).wf(),
            final(cache).spec_num_blocks() == old(cache).spec_num_blocks(),
            final(cache).disk().len() == old(cache).disk().len(),
            *final(self) == *old(self),
            r as int == spec_rw_len(old(self).size, offset as int, buf.len() as int),
            forall|i: int|
                0 <= i < spec_data_blocks(old(self).size) ==> #[trigger] old(self).spec_block_id(
                    final(cache).disk(),
                    i,
                ) == old(self).spec_block_id(old(cache).disk(), i),
            old(self).ptrs_valid(final(cache).disk()),
            old(self).spec_index_blocks(final(cache).disk()) == old(self).spec_index_blocks(
                old(cache).disk(),
            ),
            forall|k: int|
                0 <= k < r as int ==> old(self).spec_byte(final(cache).disk(), offset + k)
                    == buf@[k],
            forall|j: int|
                0 <= j < spec_data_blocks(old(self).size) * (BLOCK_SZ as int) && !(offset as int
                    <= j < offset as int + r as int) ==> old(self).spec_byte(
                    final(cache).disk(),
                    j,
                ) == old(self).spec_byte(old(cache).disk(), j),
            forall|b: int|
                0 <= b < old(cache).disk().len() && (forall|i: int|
                    0 <= i < spec_data_blocks(old(self).size) ==> ((#[trigger] old(
                        self,
                    ).spec_block_id(old(cache).disk(), i)) as int) != b)
                    ==> final(cache).disk()[b] == old(cache).disk()[b],
    {
        proof {
            old(cache).lemma_disk_shape();
            lemma_total_blocks_bound(self.size);
        }
        let ghost disk0 = old(cache).disk();
        let ghost inode = *old(self);
        let ghost db = spec_data_blocks(old(self).size);
        let size = self.size as usize;
        let end = if offset + buf.len() < size {
            offset + buf.len()
        } else {
            size
        };
        if offset >= end {
            return 0;
        }
        let mut pos = offset;
        while pos < end
            invariant
                offset <= pos <= end,
                cache.wf(),
                cache.spec_num_blocks() == old(cache).spec_num_blocks(),
                cache.disk().len() == disk0.len(),
                forall|i: int|
                    0 <= i < db ==> #[trigger] inode.spec_block_id(cache.disk(), i)
                        == inode.spec_block_id(disk0, i),
                inode.ptrs_valid(cache.disk()),
                inode.spec_index_blocks(cache.disk()) == inode.spec_index_blocks(disk0),
                forall|k: int|
                    0 <= k < pos - offset ==> inode.spec_byte(cache.disk(), offset + k) == buf@[k],
                forall|j: int|
                    0 <= j < db * (BLOCK_SZ as int) && !(offset as int <= j < pos as int)
                        ==> inode.spec_byte(cache.disk(), j) == inode.spec_byte(disk0, j),
                forall|b: int|
                    0 <= b < disk0.len() && (forall|i: int|
                        0 <= i < db ==> ((#[trigger] inode.spec_block_id(disk0, i)) as int) != b)
                        ==> cache.disk()[b] == disk0[b],
            decreases end - pos,
        {
            proof {
                cache.lemma_disk_shape();
            }
            let ghost d_before = cache.disk();
            let block_idx = pos / BLOCK_SZ;
            let in_off = pos % BLOCK_SZ;
            let chunk = if BLOCK_SZ - in_off < end - pos {
                BLOCK_SZ - in_off
            } else {
                end - pos
            };
            proof {
                lemma_pos_block_in_range(pos as int, self.size);
            }
            let bid = self.get_block_id(block_idx as u32, cache);
            let mut chunk_data: Vec<u8> = Vec::new();
            let mut k: usize = 0;
            while k < chunk
                invariant
                    k <= chunk,
                    chunk_data.len() == k as int,
                    pos - offset + chunk <= buf.len(),
                    forall|t: int| 0 <= t < k as int ==> chunk_data@[t] == buf@[pos - offset + t],
                decreases chunk - k,
            {
                let byte = buf[pos - offset + k];
                chunk_data.push(byte);
                k += 1;
            }
            cache.modify(bid as usize, in_off, &chunk_data);
            proof {
                cache.lemma_disk_shape();
                lemma_resolution_after_data_write(
                    inode,
                    d_before,
                    bid as int,
                    in_off as int,
                    chunk_data@,
                );
                vstd::arithmetic::div_mod::lemma_fundamental_div_mod(pos as int, BLOCK_SZ as int);
                // Bytes of the written chunk now read back from `buf`.
                assert forall|t: int| 0 <= t < chunk as int implies #[trigger] inode.spec_byte(
                    cache.disk(),
                    pos + t,
                ) == buf@[pos - offset + t] by {
                    vstd::arithmetic::div_mod::lemma_fundamental_div_mod_converse(
                        pos + t,
                        BLOCK_SZ as int,
                        block_idx as int,
                        in_off + t,
                    );
                    assert((pos + t) / (BLOCK_SZ as int) == block_idx as int);
                    assert((pos + t) % (BLOCK_SZ as int) == in_off + t);
                    assert(inode.spec_block_id(cache.disk(), block_idx as int) == bid);
                    assert(cache.disk()[bid as int] == crate::block_cache::overwrite_bytes(
                        d_before[bid as int],
                        in_off as int,
                        chunk_data@,
                    ));
                    assert(cache.disk()[bid as int][in_off + t] == chunk_data@[t]);
                }
                // Bytes outside the chunk are untouched.
                assert forall|j: int|
                    0 <= j < db * (BLOCK_SZ as int) && !(pos as int <= j < pos as int
                        + chunk as int) implies inode.spec_byte(cache.disk(), j) == inode.spec_byte(
                    d_before,
                    j,
                ) by {
                    let jb = j / (BLOCK_SZ as int);
                    let jo = j % (BLOCK_SZ as int);
                    vstd::arithmetic::div_mod::lemma_fundamental_div_mod(j, BLOCK_SZ as int);
                    vstd::arithmetic::div_mod::lemma_mod_bound(j, BLOCK_SZ as int);
                    vstd::arithmetic::div_mod::lemma_div_pos_is_pos(j, BLOCK_SZ as int);
                    assert(jb < db) by {
                        if jb >= db {
                            vstd::arithmetic::mul::lemma_mul_inequality(db, jb, BLOCK_SZ as int);
                            assert(j >= jb * (BLOCK_SZ as int));
                            assert(db * (BLOCK_SZ as int) == (BLOCK_SZ as int) * db) by (
                            nonlinear_arith);
                            assert(jb * (BLOCK_SZ as int) == (BLOCK_SZ as int) * jb) by (
                            nonlinear_arith);
                            assert(false);
                        }
                    }
                    let jbid = inode.spec_block_id(d_before, jb);
                    assert(inode.spec_block_id(cache.disk(), jb) == jbid);
                    if jb != block_idx as int {
                        assert(inode.spec_block_id(disk0, jb) != inode.spec_block_id(
                            disk0,
                            block_idx as int,
                        ));
                        assert(jbid != bid);
                        assert(cache.disk()[jbid as int] == d_before[jbid as int]);
                    } else {
                        assert(j == (BLOCK_SZ as int) * jb + jo && pos as int == (BLOCK_SZ as int)
                            * jb + in_off as int);
                        assert(jbid == bid);
                        assert(jo < in_off as int || jo >= in_off as int + chunk as int);
                        assert(cache.disk()[bid as int][jo] == d_before[bid as int][jo]);
                    }
                }
            }
            pos += chunk;
        }
        end - offset
    }
}

/// Growing an inode that holds no data and then clearing it hands back
/// exactly the identifiers that were supplied to the growth: the same
/// sequence, so no identifier is lost and none is invented — and when
/// the supplied identifiers are distinct, so are the returned ones. The
/// premises are what `increase_size` ensures when called on an inode of
/// zero size and what `clear_size` ensures about its result.
pub proof fn lemma_grow_then_clear(
    inode0: DiskInode,
    disk0: Seq<Seq<u8>>,
    inode1: DiskInode,
    disk1: Seq<Seq<u8>>,
    supplied: Seq<u32>,
    returned: Seq<u32>,
)
    requires
        spec_data_blocks(inode0.size) == 0,
        inode1.spec_reachable_ids(disk1) == inode0.spec_reachable_ids(disk0) + supplied,
        returned == inode1.spec_reachable_ids(disk1),
    ensures
        returned == supplied,
{
    assert(inode0.spec_reachable_ids(disk0) =~= Seq::<u32>::empty());
    assert(returned =~= supplied);
}

/// Length and entry positions of the `indirect2` traversal: it holds
/// `kk` data entries plus one first-level pointer per started group of
/// 128, and data entry `k` sits at position `k + k/128 + 1`.
proof fn lemma_ind2_ids_index(disk: Seq<Seq<u8>>, ind2: int, kk: int)
    requires
        kk >= 0,
    ensures
        ind2_ids(disk, ind2, kk).len() == kk + (kk + (INODE_INDIRECT1_COUNT as int) - 1) / (
        INODE_INDIRECT1_COUNT as int),
        forall|k: int|
            0 <= k < kk ==> #[trigger] ind2_ids(disk, ind2, kk)[k + k / (
            INODE_INDIRECT1_COUNT as int) + 1] == entry_at(
                disk,
                entry_at(disk, ind2, k / (INODE_INDIRECT1_COUNT as int)) as int,
                k % (INODE_INDIRECT1_COUNT as int),
            ),
        forall|a: int|
            0 <= a < (kk + (INODE_INDIRECT1_COUNT as int) - 1) / (INODE_INDIRECT1_COUNT as int)
                ==> #[trigger] ind2_ids(disk, ind2, kk)[a * ((INODE_INDIRECT1_COUNT as int) + 1)]
                == entry_at(disk, ind2, a),
    decreases kk,
{
    let ik = INODE_INDIRECT1_COUNT as int;
    if kk == 0 {
        assert((ik - 1) / ik == 0);
    } else {
        lemma_ind2_ids_index(disk, ind2, kk - 1);
        let k = kk - 1;
        let a = k / ik;
        let b = k % ik;
        vstd::arithmetic::div_mod::lemma_fundamental_div_mod(k, ik);
        vstd::arithmetic::div_mod::lemma_mod_bound(k, ik);
        vstd::arithmetic::div_mod::lemma_div_pos_is_pos(k, ik);
        // Closed forms for the two ceilings this step moves across.
        if b == 0 {
            vstd::arithmetic::div_mod::lemma_fundamental_div_mod_converse(k + ik - 1, ik, a, ik - 1);
        } else {
            vstd::arithmetic::div_mod::lemma_fundamental_div_mod_converse(k + ik - 1, ik, a + 1, b - 1);
        }
        vstd::arithmetic::div_mod::lemma_fundamental_div_mod_converse(k + ik, ik, a + 1, b);
        assert forall|k2: int|
            0 <= k2 < kk implies #[trigger] ind2_ids(disk, ind2, kk)[k2 + k2 / ik + 1] == entry_at(
            disk,
            entry_at(disk, ind2, k2 / ik) as int,
            k2 % ik,
        ) by {
            if k2 < k {
                vstd::arithmetic::div_mod::lemma_div_pos_is_pos(k2, ik);
                vstd::arithmetic::div_mod::lemma_div_is_ordered(k2, k - 1, ik);
                assert(k2 / ik <= (k - 1) / ik);
                if b == 0 {
                    vstd::arithmetic::div_mod::lemma_fundamental_div_mod_converse(
                        k - 1,
                        ik,
                        a - 1,
                        ik - 1,
                    );
                } else {
                    vstd::arithmetic::div_mod::lemma_fundamental_div_mod_converse(
                        k - 1,
                        ik,
                        a,
                        b - 1,
                    );
                }
                assert(k2 + k2 / ik + 1 < ind2_ids(disk, ind2, kk - 1).len());
                assert(ind2_ids(disk, ind2, kk)[k2 + k2 / ik + 1] == ind2_ids(disk, ind2, kk - 1)[k2
                    + k2 / ik + 1]);
            } else {
                assert(k2 == k);
            }
        }
        assert forall|a2: int|
            0 <= a2 < (kk + ik - 1) / ik implies #[trigger] ind2_ids(disk, ind2, kk)[a2 * (ik + 1)]
            == entry_at(disk, ind2, a2) by {
            if a2 < (k + ik - 1) / ik {
                assert(a2 * (ik + 1) < ind2_ids(disk, ind2, kk - 1).len()) by {
                    vstd::arithmetic::mul::lemma_mul_inequality(a2 + 1, (k + ik - 1) / ik, ik + 1);
                    vstd::arithmetic::mul::lemma_mul_inequality((k + ik - 1) / ik, k, ik);
                    if b == 0 {
                        assert(a2 < a);
                        assert((a2 + 1) * (ik + 1) <= a * (ik + 1));
                        assert(a * ik <= k) by {
                            vstd::arithmetic::mul::lemma_mul_inequality(a, a, ik);
                        }
                        assert(a * (ik + 1) == a * ik + a) by (nonlinear_arith);
                        assert(a <= k) by {
                            vstd::arithmetic::mul::lemma_mul_inequality(1, ik, a);
                            assert(a * ik == ik * a) by (nonlinear_arith);
                            assert(a * 1 == a) by (nonlinear_arith);
                            if a > 0 {
                                vstd::arithmetic::mul::lemma_mul_inequality(1, ik, a);
                                assert(ik * a >= 1 * a) by (nonlinear_arith)
                                    requires
                                        ik >= 1,
                                        a >= 0,
                                ;
                            }
                        }
                        assert(a2 * (ik + 1) + ik + 1 <= k + a);
                    } else {
                        assert(a2 <= a);
                        assert((a2 + 1) * (ik + 1) <= (a + 1) * (ik + 1));
                        assert((a + 1) * (ik + 1) == a * ik + a + ik + 1) by (nonlinear_arith);
                        assert(a * ik <= k - b) by {
                            assert(k == ik * a + b);
                            assert(a * ik == ik * a) by (nonlinear_arith);
                        }
                        assert(a <= k) by {
                            assert(k == ik * a + b);
                            if a > 0 {
                                assert(ik * a >= 1 * a) by (nonlinear_arith)
                                    requires
                                        ik >= 1,
                                        a >= 0,
                                ;
                                assert(1 * a == a) by (nonlinear_arith);
                            }
                        }
                        assert(a2 * (ik + 1) + ik + 1 <= k - b + a + ik + 1);
                        assert(k - b + a + ik + 1 <= k + a + ik + 1);
                    }
                }
                assert(ind2_ids(disk, ind2, kk)[a2 * (ik + 1)] == ind2_ids(disk, ind2, kk - 1)[a2 * (
                ik + 1)]);
            } else {
                // The step that opened a new first-level block put its
                // pointer right at the previous length.
                assert(b == 0 && a2 == a);
                assert(ind2_ids(disk, ind2, kk - 1).len() == k + a);
                assert(a * (ik + 1) == a * ik + a) by (nonlinear_arith);
                assert(a * ik == ik * a) by (nonlinear_arith);
                assert(a * (ik + 1) == k + a);
            }
        }
    }
}

/// Entry positions of the `indirect1` traversal: entry `k` sits at
/// position `k`.
proof fn lemma_ind1_ids_index(disk: Seq<Seq<u8>>, ind1: int, kk: int)
    requires
        kk >= 0,
    ensures
        ind1_ids(disk, ind1, kk).len() == kk,
        forall|k: int|
            0 <= k < kk ==> #[trigger] ind1_ids(disk, ind1, kk)[k] == entry_at(disk, ind1, k),
    decreases kk,
{
    if kk > 0 {
        lemma_ind1_ids_index(disk, ind1, kk - 1);
    }
}

/// The position of data block `i` within the reachable sequence.
pub open spec fn spec_data_pos(i: int) -> int {
    if i < INODE_DIRECT_COUNT as int {
        i
    } else if i < INDIRECT1_BOUND as int {
        i + 1
    } else {
        i + (i - (INDIRECT1_BOUND as int)) / (INODE_INDIRECT1_COUNT as int) + 3
    }
}

/// Each resolved data block stands in the reachable sequence at its
/// fixed position `spec_data_pos(i)`.
pub proof fn lemma_block_id_position(inode: DiskInode, disk: Seq<Seq<u8>>, i: int)
    requires
        0 <= i < spec_data_blocks(inode.size),
        spec_data_blocks(inode.size) <= INDIRECT2_BOUND as int,
    ensures
        0 <= spec_data_pos(i) < inode.spec_reachable_ids(disk).len(),
        inode.spec_reachable_ids(disk)[spec_data_pos(i)] == inode.spec_block_id(disk, i),
{
    let ik = INODE_INDIRECT1_COUNT as int;
    let db = spec_data_blocks(inode.size);
    let reach = inode.spec_reachable_ids(disk);
    let cnt1 = if db - (INODE_DIRECT_COUNT as int) < ik {
        db - (INODE_DIRECT_COUNT as int)
    } else {
        ik
    };
    if db > INODE_DIRECT_COUNT as int {
        lemma_ind1_ids_index(disk, inode.indirect1 as int, cnt1);
    }
    if db > INDIRECT1_BOUND as int {
        lemma_ind2_ids_index(disk, inode.indirect2 as int, db - (INDIRECT1_BOUND as int));
    }
    if i < INODE_DIRECT_COUNT as int {
    } else if i < INDIRECT1_BOUND as int {
        assert(reach[spec_data_pos(i)] == ind1_ids(disk, inode.indirect1 as int, cnt1)[i
            - (INODE_DIRECT_COUNT as int)]);
    } else {
        let k = i - (INDIRECT1_BOUND as int);
        vstd::arithmetic::div_mod::lemma_div_pos_is_pos(k, ik);
        vstd::arithmetic::div_mod::lemma_div_is_ordered(
            k,
            db - (INDIRECT1_BOUND as int) - 1,
            ik,
        );
        vstd::arithmetic::div_mod::lemma_div_plus_one(db - (INDIRECT1_BOUND as int) - 1, ik);
        assert(reach[spec_data_pos(i)] == ind2_ids(disk, inode.indirect2 as int, db
            - (INDIRECT1_BOUND as int))[k + k / ik + 1]);
    }
}

/// The index blocks also stand at fixed positions of the reachable
/// sequence: the `indirect1` block right after the direct part, the
/// `indirect2` block right after the `indirect1` entries, and each
/// first-level block right before its own entries.
pub proof fn lemma_index_block_positions(inode: DiskInode, disk: Seq<Seq<u8>>)
    requires
        spec_data_blocks(inode.size) <= INDIRECT2_BOUND as int,
    ensures
        ({
            let db = spec_data_blocks(inode.size);
            let reach = inode.spec_reachable_ids(disk);
            let ik = INODE_INDIRECT1_COUNT as int;
            &&& db > INODE_DIRECT_COUNT as int ==> 28 < reach.len() && reach[28] == inode.indirect1
            &&& db > INDIRECT1_BOUND as int ==> 157 < reach.len() && reach[157] == inode.indirect2
            &&& db > INDIRECT1_BOUND as int ==> forall|a: int|
                0 <= a < (db - (INDIRECT1_BOUND as int) + ik - 1) / ik ==> 158 + a * (ik + 1)
                    < reach.len() && #[trigger] reach[158 + a * (ik + 1)] == entry_at(
                    disk,
                    inode.indirect2 as int,
                    a,
                )
        }),
{
    let ik = INODE_INDIRECT1_COUNT as int;
    let db = spec_data_blocks(inode.size);
    let reach = inode.spec_reachable_ids(disk);
    let cnt1 = if db - (INODE_DIRECT_COUNT as int) < ik {
        db - (INODE_DIRECT_COUNT as int)
    } else {
        ik
    };
    if db > INODE_DIRECT_COUNT as int {
        lemma_ind1_ids_index(disk, inode.indirect1 as int, cnt1);
    }
    if db > INDIRECT1_BOUND as int {
        let kk = db - (INDIRECT1_BOUND as int);
        lemma_ind2_ids_index(disk, inode.indirect2 as int, kk);
        assert forall|a: int| 0 <= a < (kk + ik - 1) / ik implies 158 + a * (ik + 1) < reach.len()
            && #[trigger] reach[158 + a * (ik + 1)] == entry_at(
            disk,
            inode.indirect2 as int,
            a,
        ) by {
            let subs = (kk + ik - 1) / ik;
            // The pointer of first-level block `a` sits within the tree
            // part of the sequence.
            assert(a * (ik + 1) < ind2_ids(disk, inode.indirect2 as int, kk).len()) by {
                vstd::arithmetic::div_mod::lemma_fundamental_div_mod(kk + ik - 1, ik);
                vstd::arithmetic::div_mod::lemma_mod_bound(kk + ik - 1, ik);
                assert(ik * subs <= kk + ik - 1);
                vstd::arithmetic::mul::lemma_mul_inequality(a + 1, subs, ik + 1);
                assert((a + 1) * (ik + 1) <= subs * (ik + 1));
                assert(subs * (ik + 1) == ik * subs + subs) by (nonlinear_arith);
                assert(subs <= kk) by {
                    vstd::arithmetic::div_mod::lemma_div_is_ordered(kk + ik - 1, kk * ik, ik);
                    assert(kk + ik - 1 <= kk * ik) by (nonlinear_arith)
                        requires
                            kk >= 1,
                            ik >= 2,
                    ;
                    vstd::arithmetic::div_mod::lemma_div_by_multiple(kk, ik);
                }
            }
            assert(reach[158 + a * (ik + 1)] == ind2_ids(disk, inode.indirect2 as int, kk)[a * (ik
                + 1)]);
        }
    }
}

/// When every identifier an inode references is distinct, its data
/// blocks are exactly the ones `blocks_exclusive` asks for: pairwise
/// distinct and disjoint from the index blocks. Together with the
/// growth contract this lets a caller establish `write_at`'s
/// preconditions.
pub proof fn lemma_blocks_exclusive_from_distinct(inode: DiskInode, disk: Seq<Seq<u8>>)
    requires
        spec_data_blocks(inode.size) <= INDIRECT2_BOUND as int,
        forall|x: int, y: int|
            0 <= x < y < inode.spec_reachable_ids(disk).len() ==> inode.spec_reachable_ids(disk)[x]
                != inode.spec_reachable_ids(disk)[y],
    ensures
        inode.blocks_exclusive(disk),
{
    let ik = INODE_INDIRECT1_COUNT as int;
    let db = spec_data_blocks(inode.size);
    let reach = inode.spec_reachable_ids(disk);
    assert forall|i: int, j: int| 0 <= i < j < db implies inode.spec_block_id(disk, i)
        != inode.spec_block_id(disk, j) by {
        lemma_resolution_injective(inode, disk, i, j);
    }
    lemma_index_block_positions(inode, disk);
    assert forall|i: int| 0 <= i < db implies !inode.spec_index_blocks(disk).contains(
        #[trigger] inode.spec_block_id(disk, i),
    ) by {
        lemma_block_id_position(inode, disk, i);
        let dpos = spec_data_pos(i);
        if inode.spec_index_blocks(disk).contains(inode.spec_block_id(disk, i)) {
            let live = inode.spec_index_blocks(disk);
            let y = choose|y: int| 0 <= y < live.len() && live[y] == inode.spec_block_id(disk, i);
            // Map the live position to its place in the reachable
            // sequence; it never coincides with a data position.
            if db > INDIRECT1_BOUND as int {
                if y == 0 {
                    assert(live[y] == inode.indirect1);
                    assert(reach[28] == live[y] && reach[dpos] == live[y]);
                    assert(dpos != 28) by {
                        if i >= INDIRECT1_BOUND as int {
                            vstd::arithmetic::div_mod::lemma_div_pos_is_pos(
                                i - (INDIRECT1_BOUND as int),
                                ik,
                            );
                        }
                    }
                    assert(false);
                } else if y == 1 {
                    assert(live[y] == inode.indirect2);
                    assert(reach[157] == live[y] && reach[dpos] == live[y]);
                    assert(dpos != 157) by {
                        if i >= INDIRECT1_BOUND as int {
                            vstd::arithmetic::div_mod::lemma_div_pos_is_pos(
                                i - (INDIRECT1_BOUND as int),
                                ik,
                            );
                        }
                    }
                    assert(false);
                } else {
                    let a = y - 2;
                    assert(live[y] == entry_at(disk, inode.indirect2 as int, a));
                    assert(reach[158 + a * (ik + 1)] == live[y] && reach[dpos] == live[y]);
                    assert(dpos != 158 + a * (ik + 1)) by {
                        if i >= INDIRECT1_BOUND as int {
                            let k = i - (INDIRECT1_BOUND as int);
                            vstd::arithmetic::div_mod::lemma_fundamental_div_mod(k, ik);
                            vstd::arithmetic::div_mod::lemma_mod_bound(k, ik);
                            vstd::arithmetic::div_mod::lemma_div_pos_is_pos(k, ik);
                            let ap = k / ik;
                            let bp = k % ik;
                            assert(k + k / ik == ap * (ik + 1) + bp) by (nonlinear_arith)
                                requires
                                    k == ik * ap + bp,
                                    ap == k / ik,
                            ;
                            if dpos == 158 + a * (ik + 1) {
                                assert(159 + ap * (ik + 1) + bp == 158 + a * (ik + 1));
                                assert((a - ap) * (ik + 1) == bp + 1) by (nonlinear_arith)
                                    requires
                                        159 + ap * (ik + 1) + bp == 158 + a * (ik + 1),
                                ;
                                assert(false) by (nonlinear_arith)
                                    requires
                                        (a - ap) * (ik + 1) == bp + 1,
                                        0 <= bp < ik,
                                        ik == 128,
                                ;
                            }
                        }
                    }
                    assert(false);
                }
            } else if db > INODE_DIRECT_COUNT as int {
                assert(y == 0);
                assert(live[y] == inode.indirect1);
                assert(reach[28] == live[y] && reach[dpos] == live[y]);
                assert(dpos != 28);
                assert(false);
            } else {
                assert(live.len() == 0);
                assert(false);
            }
        }
    }
}

/// When every identifier an inode references is distinct, logical
/// data-block indexes resolve without collisions: different indexes give
/// different block identifiers, and each resolves to a referenced one.
pub proof fn lemma_resolution_injective(inode: DiskInode, disk: Seq<Seq<u8>>, i: int, j: int)
    requires
        0 <= i < j < spec_data_blocks(inode.size),
        spec_data_blocks(inode.size) <= INDIRECT2_BOUND as int,
        forall|x: int, y: int|
            0 <= x < y < inode.spec_reachable_ids(disk).len() ==> inode.spec_reachable_ids(disk)[x]
                != inode.spec_reachable_ids(disk)[y],
    ensures
        inode.spec_block_id(disk, i) != inode.spec_block_id(disk, j),
        inode.spec_reachable_ids(disk).contains(inode.spec_block_id(disk, i)),
{
    let ik = INODE_INDIRECT1_COUNT as int;
    lemma_block_id_position(inode, disk, i);
    lemma_block_id_position(inode, disk, j);
    assert(spec_data_pos(i) < spec_data_pos(j)) by {
        if j >= INDIRECT1_BOUND as int {
            if i >= INDIRECT1_BOUND as int {
                vstd::arithmetic::div_mod::lemma_div_is_ordered(
                    i - (INDIRECT1_BOUND as int),
                    j - (INDIRECT1_BOUND as int),
                    ik,
                );
            } else {
                vstd::arithmetic::div_mod::lemma_div_pos_is_pos(j - (INDIRECT1_BOUND as int), ik);
            }
        }
    }
    assert(inode.spec_reachable_ids(disk).contains(inode.spec_block_id(disk, i))) by {
        assert(inode.spec_reachable_ids(disk)[spec_data_pos(i)] == inode.spec_block_id(disk, i));
    }
}

/// Round trip: writing a fully in-bounds byte range and then reading the
/// same range back yields exactly the written bytes. The premises are
/// what `write_at` guarantees about the disk it leaves behind and what
/// `read_at` guarantees about its result on that disk.
pub proof fn lemma_write_read_roundtrip(
    inode: DiskInode,
    disk1: Seq<Seq<u8>>,
    offset: int,
    data: Seq<u8>,
    out: Seq<u8>,
)
    requires
        forall|k: int| 0 <= k < data.len() ==> #[trigger] inode.spec_byte(disk1, offset + k) == data[k],
        out.len() == data.len(),
        forall|k: int| 0 <= k < out.len() ==> #[trigger] out[k] == inode.spec_byte(disk1, offset + k),
    ensures
        out == data,
{
    assert(out =~= data);
}

} // verus!
