//! The block cache: a finite set of in-memory slots that mirror device
//! blocks, with write-back on eviction and an explicit flush.
//!
//! All higher layers reach the device only through this cache. Its
//! specification view, [`BlockCache::disk`], is the *virtual disk*: the
//! device contents overridden by every resident slot. Every operation of
//! the engine states its effect on this view, so a caller never needs to
//! know which blocks happen to be resident.
//!
//! Exclusive access (`&mut`) serializes all use of the cache, which plays
//! the role of the per-slot locks of a concurrent setting: a single
//! operation works on one slot at a time and never re-enters.

use vstd::prelude::*;

use crate::BLOCK_SZ;
use crate::block_dev::BlockDevice;

verus! {

/// Number of blocks the cache can hold at once.
pub const BLOCK_CACHE_SIZE: usize = 16;

/// One in-memory mirror of a device block.
pub struct CacheSlot {
    /// Which device block this slot mirrors.
    block_id: usize,
    /// The block's current bytes; always exactly 512 of them.
    data: Vec<u8>,
    /// Whether the bytes were modified since the last write-back.
    dirty: bool,
}

/// Is some slot of `slots` a mirror of block `b`?
spec fn has_cached(slots: Seq<CacheSlot>, b: int) -> bool {
    exists|j: int| 0 <= j < slots.len() && (#[trigger] slots[j]).block_id as int == b
}

/// The bytes cached for block `b` (meaningful when `has_cached`).
spec fn cached_data(slots: Seq<CacheSlot>, b: int) -> Seq<u8> {
    let j = choose|j: int| 0 <= j < slots.len() && (#[trigger] slots[j]).block_id as int == b;
    slots[j].data@
}

/// `s` with the bytes `[off, off + d.len())` replaced by `d`.
pub open spec fn overwrite_bytes(s: Seq<u8>, off: int, d: Seq<u8>) -> Seq<u8> {
    Seq::new(s.len(), |i: int| if off <= i < off + d.len() { d[i - off] } else { s[i] })
}

/// The block cache over a device `D`, owning the device capability.
pub struct BlockCache<D: BlockDevice> {
    device: D,
    slots: Vec<CacheSlot>,
}

impl<D: BlockDevice> BlockCache<D> {
    /// How many blocks the underlying device has.
    pub closed spec fn spec_num_blocks(&self) -> int {
        self.device.spec_blocks().len() as int
    }

    /// The virtual disk: device contents overridden by resident slots.
    pub closed spec fn disk(&self) -> Seq<Seq<u8>> {
        Seq::new(
            self.device.spec_blocks().len(),
            |b: int|
                if has_cached(self.slots@, b) {
                    cached_data(self.slots@, b)
                } else {
                    self.device.spec_blocks()[b]
                },
        )
    }

    /// Well-formedness: bounded residency, 512-byte slots, distinct block
    /// identifiers, in-range identifiers, and clean slots agreeing with the
    /// device.
    pub closed spec fn wf(&self) -> bool {
        &&& self.device.inv()
        &&& self.slots@.len() <= BLOCK_CACHE_SIZE as int
        &&& forall|j: int|
            0 <= j < self.slots@.len() ==> (#[trigger] self.slots@[j]).data@.len()
                == BLOCK_SZ as int
        &&& forall|j: int|
            0 <= j < self.slots@.len() ==> ((#[trigger] self.slots@[j]).block_id as int)
                < self.spec_num_blocks()
        &&& forall|j: int, k: int|
            0 <= j < self.slots@.len() && 0 <= k < self.slots@.len() && j != k ==> (
            #[trigger] self.slots@[j]).block_id != (#[trigger] self.slots@[k]).block_id
        &&& forall|j: int|
            0 <= j < self.slots@.len() && !(#[trigger] self.slots@[j]).dirty
                ==> self.slots@[j].data@ == self.device.spec_blocks()[self.slots@[j].block_id as int]
    }

    /// The virtual disk of a well-formed cache is block-shaped.
    pub proof fn lemma_disk_shape(&self)
        requires
            self.wf(),
        ensures
            self.disk().len() == self.spec_num_blocks(),
            forall|b: int|
                0 <= b < self.disk().len() ==> (#[trigger] self.disk()[b]).len() == BLOCK_SZ as int,
    {
        self.device.inv_block_size();
        assert forall|b: int| 0 <= b < self.disk().len() implies (#[trigger] self.disk()[b]).len()
            == BLOCK_SZ as int by {
            if has_cached(self.slots@, b) {
                let j = choose|j: int|
                    0 <= j < self.slots@.len() && (#[trigger] self.slots@[j]).block_id as int == b;
                assert(self.slots@[j].data@.len() == BLOCK_SZ as int);
            }
        }
    }

    /// Wrap a device into an empty cache.
    pub fn new(device: D) -> (r: BlockCache<D>)
        requires
            device.inv(),
        ensures
            r.wf(),
            r.disk() == device.spec_blocks(),
    {
        let r = BlockCache { device, slots: Vec::new() };
        proof {
            assert(r.disk() =~= r.device.spec_blocks());
        }
        r
    }

    /// The index of the resident slot for `block_id`, if any.
    fn find_slot(&self, block_id: usize) -> (r: Option<usize>)
        requires
            self.wf(),
        ensures
            match r {
                Some(j) => j < self.slots@.len() && self.slots@[j as int].block_id == block_id,
                None => !has_cached(self.slots@, block_id as int),
            },
    {
        let mut j: usize = 0;
        while j < self.slots.len()
            invariant
                j <= self.slots@.len(),
                forall|k: int| 0 <= k < j as int ==> (#[trigger] self.slots@[k]).block_id != block_id,
            decreases self.slots@.len() - j,
        {
            if self.slots[j].block_id == block_id {
                return Some(j);
            }
            j += 1;
        }
        None
    }
}

/// Pairwise-distinct block identifiers.
spec fn distinct_ids(s: Seq<CacheSlot>) -> bool {
    forall|j: int, k: int|
        0 <= j < s.len() && 0 <= k < s.len() && j != k ==> (#[trigger] s[j]).block_id != (
        #[trigger] s[k]).block_id
}

/// Moving slot `j` to the back leaves the cached view of every block as it
/// was.
proof fn lemma_cached_view_touch(s: Seq<CacheSlot>, j: int, b: int)
    requires
        0 <= j < s.len(),
        distinct_ids(s),
    ensures
        has_cached(s.remove(j).push(s[j]), b) == has_cached(s, b),
        has_cached(s, b) ==> cached_data(s.remove(j).push(s[j]), b) == cached_data(s, b),
{
    let t = s.remove(j).push(s[j]);
    s.remove_ensures(j);
    assert(t.len() == s.len());
    if has_cached(s, b) {
        let k = choose|k: int| 0 <= k < s.len() && (#[trigger] s[k]).block_id as int == b;
        if k == j {
            assert(t[t.len() - 1] == s[j]);
            assert(has_cached(t, b));
        } else if k < j {
            assert(t[k] == s[k]);
            assert(has_cached(t, b));
        } else {
            assert(t[k - 1] == s[k]);
            assert(has_cached(t, b));
        }
        let i = choose|i: int| 0 <= i < t.len() && (#[trigger] t[i]).block_id as int == b;
        let orig = if i == t.len() - 1 {
            j
        } else if i < j {
            i
        } else {
            i + 1
        };
        assert(t[i] == s[orig]);
        assert(s[orig].block_id as int == b && s[k].block_id as int == b);
        assert(orig == k);
        assert(cached_data(t, b) == cached_data(s, b));
    } else {
        if has_cached(t, b) {
            let i = choose|i: int| 0 <= i < t.len() && (#[trigger] t[i]).block_id as int == b;
            let orig = if i == t.len() - 1 {
                j
            } else if i < j {
                i
            } else {
                i + 1
            };
            assert(t[i] == s[orig]);
            assert(has_cached(s, b));
        }
    }
}

/// Removing slot `j` only forgets block `s[j].block_id`; every other block
/// keeps its cached view.
proof fn lemma_cached_view_remove(s: Seq<CacheSlot>, j: int, b: int)
    requires
        0 <= j < s.len(),
        distinct_ids(s),
    ensures
        s[j].block_id as int != b ==> has_cached(s.remove(j), b) == has_cached(s, b),
        s[j].block_id as int != b && has_cached(s, b) ==> cached_data(s.remove(j), b)
            == cached_data(s, b),
        s[j].block_id as int == b ==> !has_cached(s.remove(j), b),
{
    let t = s.remove(j);
    s.remove_ensures(j);
    if s[j].block_id as int == b {
        if has_cached(t, b) {
            let i = choose|i: int| 0 <= i < t.len() && (#[trigger] t[i]).block_id as int == b;
            let orig = if i < j {
                i
            } else {
                i + 1
            };
            assert(t[i] == s[orig]);
            assert(orig != j && s[orig].block_id == s[j].block_id);
            assert(false);
        }
    } else {
        if has_cached(s, b) {
            let k = choose|k: int| 0 <= k < s.len() && (#[trigger] s[k]).block_id as int == b;
            if k < j {
                assert(t[k] == s[k]);
            } else {
                assert(t[k - 1] == s[k]);
            }
            assert(has_cached(t, b));
            let i = choose|i: int| 0 <= i < t.len() && (#[trigger] t[i]).block_id as int == b;
            let orig = if i < j {
                i
            } else {
                i + 1
            };
            assert(t[i] == s[orig]);
            assert(orig == k);
        } else {
            if has_cached(t, b) {
                let i = choose|i: int| 0 <= i < t.len() && (#[trigger] t[i]).block_id as int == b;
                let orig = if i < j {
                    i
                } else {
                    i + 1
                };
                assert(t[i] == s[orig]);
                assert(has_cached(s, b));
            }
        }
    }
}

/// Appending a slot for a block that was absent adds exactly that block to
/// the cached view.
proof fn lemma_cached_view_push(s: Seq<CacheSlot>, slot: CacheSlot, b: int)
    requires
        distinct_ids(s),
        !has_cached(s, slot.block_id as int),
    ensures
        slot.block_id as int == b ==> has_cached(s.push(slot), b) && cached_data(s.push(slot), b)
            == slot.data@,
        slot.block_id as int != b ==> has_cached(s.push(slot), b) == has_cached(s, b),
        slot.block_id as int != b && has_cached(s, b) ==> cached_data(s.push(slot), b)
            == cached_data(s, b),
{
    let t = s.push(slot);
    assert(t[t.len() - 1] == slot);
    if slot.block_id as int == b {
        assert(has_cached(t, b));
        let i = choose|i: int| 0 <= i < t.len() && (#[trigger] t[i]).block_id as int == b;
        if i < t.len() - 1 {
            assert(t[i] == s[i]);
            assert(has_cached(s, b));
            assert(false);
        }
        assert(t[i] == slot);
    } else {
        if has_cached(s, b) {
            let k = choose|k: int| 0 <= k < s.len() && (#[trigger] s[k]).block_id as int == b;
            assert(t[k] == s[k]);
            assert(has_cached(t, b));
            let i = choose|i: int| 0 <= i < t.len() && (#[trigger] t[i]).block_id as int == b;
            assert(i < t.len() - 1);
            assert(t[i] == s[i]);
            assert(i == k);
        } else {
            if has_cached(t, b) {
                let i = choose|i: int| 0 <= i < t.len() && (#[trigger] t[i]).block_id as int == b;
                assert(i < t.len() - 1);
                assert(t[i] == s[i]);
                assert(has_cached(s, b));
            }
        }
    }
}

/// Replacing slot `j` by a slot for the same block changes the cached view
/// of that block alone.
proof fn lemma_cached_view_update(s: Seq<CacheSlot>, j: int, slot: CacheSlot, b: int)
    requires
        0 <= j < s.len(),
        distinct_ids(s),
        slot.block_id == s[j].block_id,
    ensures
        s[j].block_id as int == b ==> has_cached(s.update(j, slot), b) && cached_data(
            s.update(j, slot),
            b,
        ) == slot.data@,
        s[j].block_id as int != b ==> has_cached(s.update(j, slot), b) == has_cached(s, b),
        s[j].block_id as int != b && has_cached(s, b) ==> cached_data(s.update(j, slot), b)
            == cached_data(s, b),
{
    let t = s.update(j, slot);
    assert(t[j] == slot);
    if s[j].block_id as int == b {
        assert(has_cached(t, b));
        let i = choose|i: int| 0 <= i < t.len() && (#[trigger] t[i]).block_id as int == b;
        if i != j {
            assert(t[i] == s[i]);
            assert(s[i].block_id != s[j].block_id);
            assert(false);
        }
    } else {
        if has_cached(s, b) {
            let k = choose|k: int| 0 <= k < s.len() && (#[trigger] s[k]).block_id as int == b;
            assert(k != j);
            assert(t[k] == s[k]);
            assert(has_cached(t, b));
            let i = choose|i: int| 0 <= i < t.len() && (#[trigger] t[i]).block_id as int == b;
            assert(i != j);
            assert(t[i] == s[i]);
            assert(i == k);
        } else {
            if has_cached(t, b) {
                let i = choose|i: int| 0 <= i < t.len() && (#[trigger] t[i]).block_id as int == b;
                assert(i != j);
                assert(t[i] == s[i]);
                assert(has_cached(s, b));
            }
        }
    }
}

impl<D: BlockDevice> BlockCache<D> {
    /// Make block `block_id` resident and return its slot index, evicting
    /// the least-recently-used slot (with write-back if dirty) when the
    /// cache is full. The most recently used slot always sits at the back.
    pub fn get_block(&mut self, block_id: usize) -> (idx: usize)
        requires
            old(self).wf(),
            (block_id as int) < old(self).spec_num_blocks(),
        ensures
            final(self).wf(),
            final(self).disk() == old(self).disk(),
            final(self).spec_num_blocks() == old(self).spec_num_blocks(),
            idx < final(self).num_slots(),
            final(self).slot_id(idx as int) == block_id,
    {
        proof {
            self.device.inv_block_size();
        }
        let found = self.find_slot(block_id);
        match found {
            Some(j) => {
                let ghost s0 = self.slots@;
                let slot = self.slots.remove(j);
                self.slots.push(slot);
                proof {
                    assert forall|b: int| 0 <= b < self.spec_num_blocks() implies self.disk()[b]
                        == old(self).disk()[b] by {
                        lemma_cached_view_touch(s0, j as int, b);
                    }
                    assert(self.disk() =~= old(self).disk());
                }
                let idx = self.slots.len() - 1;
                idx
            },
            None => {
                if self.slots.len() >= BLOCK_CACHE_SIZE {
                    // Evict the least recently used slot, writing it back
                    // first when dirty.
                    let victim_id = self.slots[0].block_id;
                    let dirty = self.slots[0].dirty;
                    if dirty {
                        let ghost dev0 = self.device.spec_blocks();
                        let data = &self.slots[0].data;
                        self.device.write_block(victim_id, data);
                        proof {
                            assert forall|b: int|
                                0 <= b < self.spec_num_blocks() implies self.disk()[b] == old(
                                self,
                            ).disk()[b] by {
                                if has_cached(self.slots@, b) {
                                } else {
                                    assert(b != victim_id as int);
                                }
                            }
                            assert(self.disk() =~= old(self).disk());
                        }
                    }
                    let ghost mid = *self;
                    let ghost s0 = self.slots@;
                    let _evicted = self.slots.remove(0);
                    proof {
                        assert forall|b: int| 0 <= b < self.spec_num_blocks() implies self.disk()[b]
                            == mid.disk()[b] by {
                            lemma_cached_view_remove(s0, 0, b);
                            if s0[0].block_id as int == b {
                                // The victim was clean at this point, so the
                                // device already holds its bytes.
                                assert(s0[0].data@ == self.device.spec_blocks()[b]);
                            }
                        }
                        assert(self.disk() =~= mid.disk());
                    }
                }
                // Fault the block in from the device.
                let ghost pre = *self;
                let mut buf: Vec<u8> = Vec::new();
                let mut j: usize = 0;
                while j < BLOCK_SZ
                    invariant
                        j <= BLOCK_SZ,
                        buf.len() == j as int,
                    decreases BLOCK_SZ - j,
                {
                    buf.push(0u8);
                    j += 1;
                }
                self.device.read_block(block_id, &mut buf);
                let ghost s1 = self.slots@;
                let slot = CacheSlot { block_id, data: buf, dirty: false };
                self.slots.push(slot);
                proof {
                    assert forall|b: int| 0 <= b < self.spec_num_blocks() implies self.disk()[b]
                        == pre.disk()[b] by {
                        lemma_cached_view_push(s1, slot, b);
                        if slot.block_id as int == b {
                            assert(!has_cached(s1, b));
                        }
                    }
                    assert(self.disk() =~= pre.disk());
                    assert(pre.disk() =~= old(self).disk());
                }
                let idx = self.slots.len() - 1;
                idx
            },
        }
    }

    /// How many slots are resident (specification only).
    pub closed spec fn num_slots(&self) -> int {
        self.slots@.len() as int
    }

    /// The block identifier mirrored by slot `idx` (specification only).
    pub closed spec fn slot_id(&self, idx: int) -> usize {
        self.slots@[idx].block_id
    }

    /// What the device itself currently holds (specification only).
    pub closed spec fn device_blocks(&self) -> Seq<Seq<u8>> {
        self.device.spec_blocks()
    }

    /// A resident slot shows exactly the virtual disk of its block.
    proof fn lemma_slot_view(&self, j: int)
        requires
            self.wf(),
            0 <= j < self.num_slots(),
        ensures
            self.disk()[self.slot_id(j) as int] == self.slots@[j].data@,
    {
        let b = self.slot_id(j) as int;
        assert(has_cached(self.slots@, b));
        let k = choose|k: int|
            0 <= k < self.slots@.len() && (#[trigger] self.slots@[k]).block_id as int == b;
        assert(k == j);
    }

    /// Read `len` bytes at `offset` within block `block_id`, faulting the
    /// block in if needed. Never changes the virtual disk.
    pub fn read(&mut self, block_id: usize, offset: usize, len: usize) -> (r: Vec<u8>)
        requires
            old(self).wf(),
            (block_id as int) < old(self).spec_num_blocks(),
            offset + len <= BLOCK_SZ,
        ensures
            final(self).wf(),
            final(self).disk() == old(self).disk(),
            final(self).spec_num_blocks() == old(self).spec_num_blocks(),
            r@ == old(self).disk()[block_id as int].subrange(
                offset as int,
                offset as int + len as int,
            ),
    {
        let idx = self.get_block(block_id);
        proof {
            self.lemma_slot_view(idx as int);
        }
        let slot = &self.slots[idx];
        let mut r: Vec<u8> = Vec::new();
        let mut k: usize = 0;
        while k < len
            invariant
                k <= len,
                offset + len <= BLOCK_SZ,
                r.len() == k as int,
                idx < self.slots@.len(),
                slot == self.slots@[idx as int],
                slot.data@.len() == BLOCK_SZ as int,
                forall|i: int| 0 <= i < k as int ==> (#[trigger] r@[i]) == slot.data@[offset + i],
            decreases len - k,
        {
            let byte = slot.data[offset + k];
            r.push(byte);
            k += 1;
        }
        proof {
            assert(r@ =~= self.disk()[block_id as int].subrange(
                offset as int,
                offset as int + len as int,
            ));
        }
        r
    }

    /// Overwrite the bytes `[offset, offset + data.len())` of block
    /// `block_id` and mark the slot dirty.
    pub fn modify(&mut self, block_id: usize, offset: usize, data: &Vec<u8>)
        requires
            old(self).wf(),
            (block_id as int) < old(self).spec_num_blocks(),
            offset + data.len() <= BLOCK_SZ,
        ensures
            final(self).wf(),
            final(self).spec_num_blocks() == old(self).spec_num_blocks(),
            final(self).disk() == old(self).disk().update(
                block_id as int,
                overwrite_bytes(old(self).disk()[block_id as int], offset as int, data@),
            ),
    {
        let idx = self.get_block(block_id);
        proof {
            self.lemma_slot_view(idx as int);
        }
        let ghost mid = *self;
        let mut new_data: Vec<u8> = Vec::new();
        let mut k: usize = 0;
        while k < BLOCK_SZ
            invariant
                k <= BLOCK_SZ,
                offset + data.len() <= BLOCK_SZ,
                new_data.len() == k as int,
                idx < self.slots@.len(),
                self.slots@[idx as int].data@.len() == BLOCK_SZ as int,
                forall|i: int|
                    0 <= i < k as int ==> (#[trigger] new_data@[i]) == (
                    if offset <= i < offset + data@.len() {
                        data@[i - offset]
                    } else {
                        self.slots@[idx as int].data@[i]
                    }),
            decreases BLOCK_SZ - k,
        {
            let byte = if k >= offset && k < offset + data.len() {
                data[k - offset]
            } else {
                self.slots[idx].data[k]
            };
            new_data.push(byte);
            k += 1;
        }
        let ghost s0 = self.slots@;
        let new_slot = CacheSlot { block_id, data: new_data, dirty: true };
        self.slots.set(idx, new_slot);
        proof {
            assert(new_slot.data@ =~= overwrite_bytes(
                mid.disk()[block_id as int],
                offset as int,
                data@,
            ));
            assert forall|b: int| 0 <= b < self.spec_num_blocks() implies self.disk()[b] == (
            if b == block_id as int {
                overwrite_bytes(mid.disk()[block_id as int], offset as int, data@)
            } else {
                mid.disk()[b]
            }) by {
                lemma_cached_view_update(s0, idx as int, new_slot, b);
            }
            assert(self.disk() =~= old(self).disk().update(
                block_id as int,
                overwrite_bytes(old(self).disk()[block_id as int], offset as int, data@),
            ));
        }
    }

    /// Write every dirty slot back to the device. Afterwards the device
    /// itself holds exactly the virtual disk.
    pub fn flush_all(&mut self)
        requires
            old(self).wf(),
        ensures
            final(self).wf(),
            final(self).spec_num_blocks() == old(self).spec_num_blocks(),
            final(self).disk() == old(self).disk(),
            final(self).device_blocks() == final(self).disk(),
    {
        let mut j: usize = 0;
        while j < self.slots.len()
            invariant
                self.wf(),
                j <= self.slots@.len(),
                self.spec_num_blocks() == old(self).spec_num_blocks(),
                self.disk() == old(self).disk(),
                self.slots@.len() == old(self).slots@.len(),
                forall|k: int| 0 <= k < j as int ==> !(#[trigger] self.slots@[k]).dirty,
            decreases self.slots@.len() - j,
        {
            if self.slots[j].dirty {
                let ghost mid = *self;
                let ghost s0 = self.slots@;
                let id = self.slots[j].block_id;
                let mut data_copy: Vec<u8> = Vec::new();
                let mut k: usize = 0;
                while k < BLOCK_SZ
                    invariant
                        k <= BLOCK_SZ,
                        data_copy.len() == k as int,
                        j < self.slots@.len(),
                        self.slots@[j as int].data@.len() == BLOCK_SZ as int,
                        forall|i: int|
                            0 <= i < k as int ==> (#[trigger] data_copy@[i])
                                == self.slots@[j as int].data@[i],
                    decreases BLOCK_SZ - k,
                {
                    let byte = self.slots[j].data[k];
                    data_copy.push(byte);
                    k += 1;
                }
                proof {
                    assert(data_copy@ =~= self.slots@[j as int].data@);
                    self.lemma_slot_view(j as int);
                }
                self.device.write_block(id, &data_copy);
                proof {
                    assert forall|b: int| 0 <= b < self.spec_num_blocks() implies self.disk()[b]
                        == mid.disk()[b] by {
                        if has_cached(self.slots@, b) {
                        } else {
                            assert(b != id as int);
                        }
                    }
                    assert(self.disk() =~= mid.disk());
                }
                let ghost mid2 = *self;
                let new_slot = CacheSlot { block_id: id, data: data_copy, dirty: false };
                self.slots.set(j, new_slot);
                proof {
                    assert forall|b: int| 0 <= b < self.spec_num_blocks() implies self.disk()[b]
                        == mid2.disk()[b] by {
                        lemma_cached_view_update(s0, j as int, new_slot, b);
                        if s0[j as int].block_id as int == b {
                            mid2.lemma_slot_view(j as int);
                        }
                    }
                    assert(self.disk() =~= mid2.disk());
                }
            }
            j += 1;
        }
        proof {
            assert forall|b: int| 0 <= b < self.spec_num_blocks() implies self.device.spec_blocks()[b]
                == self.disk()[b] by {
                if has_cached(self.slots@, b) {
                    let k = choose|k: int|
                        0 <= k < self.slots@.len() && (#[trigger] self.slots@[k]).block_id as int
                            == b;
                    assert(!self.slots@[k].dirty);
                }
            }
            assert(self.device_blocks() =~= self.disk());
        }
    }

    /// Read the little-endian `u32` at byte `offset` of block `block_id`.
    pub fn read_u32(&mut self, block_id: usize, offset: usize) -> (r: u32)
        requires
            old(self).wf(),
            (block_id as int) < old(self).spec_num_blocks(),
            offset + 4 <= BLOCK_SZ,
        ensures
            final(self).wf(),
            final(self).disk() == old(self).disk(),
            final(self).spec_num_blocks() == old(self).spec_num_blocks(),
            r == vstd::bytes::spec_u32_from_le_bytes(
                old(self).disk()[block_id as int].subrange(offset as int, offset as int + 4),
            ),
    {
        proof {
            self.lemma_disk_shape();
        }
        let v = self.read(block_id, offset, 4);
        assert(v@.len() == 4);
        vstd::bytes::u32_from_le_bytes(v.as_slice())
    }

    /// Store `x` as a little-endian `u32` at byte `offset` of block
    /// `block_id`.
    pub fn write_u32(&mut self, block_id: usize, offset: usize, x: u32)
        requires
            old(self).wf(),
            (block_id as int) < old(self).spec_num_blocks(),
            offset + 4 <= BLOCK_SZ,
        ensures
            final(self).wf(),
            final(self).spec_num_blocks() == old(self).spec_num_blocks(),
            final(self).disk() == old(self).disk().update(
                block_id as int,
                overwrite_bytes(
                    old(self).disk()[block_id as int],
                    offset as int,
                    vstd::bytes::spec_u32_to_le_bytes(x),
                ),
            ),
    {
        let bytes = vstd::bytes::u32_to_le_bytes(x);
        self.modify(block_id, offset, &bytes);
    }

    /// Read the little-endian `u64` at byte `offset` of block `block_id`.
    pub fn read_u64(&mut self, block_id: usize, offset: usize) -> (r: u64)
        requires
            old(self).wf(),
            (block_id as int) < old(self).spec_num_blocks(),
            offset + 8 <= BLOCK_SZ,
        ensures
            final(self).wf(),
            final(self).disk() == old(self).disk(),
            final(self).spec_num_blocks() == old(self).spec_num_blocks(),
            r == vstd::bytes::spec_u64_from_le_bytes(
                old(self).disk()[block_id as int].subrange(offset as int, offset as int + 8),
            ),
    {
        proof {
            self.lemma_disk_shape();
        }
        let v = self.read(block_id, offset, 8);
        assert(v@.len() == 8);
        vstd::bytes::u64_from_le_bytes(v.as_slice())
    }

    /// Store `x` as a little-endian `u64` at byte `offset` of block
    /// `block_id`.
    pub fn write_u64(&mut self, block_id: usize, offset: usize, x: u64)
        requires
            old(self).wf(),
            (block_id as int) < old(self).spec_num_blocks(),
            offset + 8 <= BLOCK_SZ,
        ensures
            final(self).wf(),
            final(self).spec_num_blocks() == old(self).spec_num_blocks(),
            final(self).disk() == old(self).disk().update(
                block_id as int,
                overwrite_bytes(
                    old(self).disk()[block_id as int],
                    offset as int,
                    vstd::bytes::spec_u64_to_le_bytes(x),
                ),
            ),
    {
        let bytes = vstd::bytes::u64_to_le_bytes(x);
        self.modify(block_id, offset, &bytes);
    }
}

} // verus!
