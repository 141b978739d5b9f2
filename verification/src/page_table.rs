//! SV39 page tables over an explicit physical-memory abstraction.
//!
//! Physical memory is reached only through the [`PhysMem`] capability,
//! whose view maps a physical page number to the 512 page-table entries
//! the page holds. The three-level walk, mapping and unmapping are
//! verified against that view; a tree-shaped well-formedness invariant
//! keeps the table pages of the three levels apart, so that a write
//! through one never disturbs a walk through another.

use vstd::prelude::*;

use crate::address::PhysPageNum;
use crate::address::VirtPageNum;
use crate::frame_allocator::FrameTracker;
use crate::frame_allocator::StackFrameAllocator;
use crate::frame_allocator::frame_alloc;

verus! {

/// Entries per page-table page.
pub const PTE_PER_PAGE: usize = 512;

/// Upper bound (exclusive) of a physical page number: 44 bits.
pub const PPN_LIMIT: u64 = 0x1000_0000_0000;

/// The `V` (valid) page-table entry flag.
pub const PTE_FLAG_V: u8 = 1;

/// The `R` (readable) page-table entry flag.
pub const PTE_FLAG_R: u8 = 2;

/// The `W` (writable) page-table entry flag.
pub const PTE_FLAG_W: u8 = 4;

/// The `X` (executable) page-table entry flag.
pub const PTE_FLAG_X: u8 = 8;

/// The `U` (user-accessible) page-table entry flag.
pub const PTE_FLAG_U: u8 = 16;

/// The `G` (global) page-table entry flag.
pub const PTE_FLAG_G: u8 = 32;

/// The `A` (accessed) page-table entry flag.
pub const PTE_FLAG_A: u8 = 64;

/// The `D` (dirty) page-table entry flag.
pub const PTE_FLAG_D: u8 = 128;

/// Page-table entry flags: the low eight flag bits of an entry.
#[derive(Clone, Copy, PartialEq, Eq, Structural, Debug)]
pub struct PTEFlags {
    /// The raw flag bits.
    pub bits: u8,
}

impl PTEFlags {
    /// No flags.
    pub fn empty() -> (r: PTEFlags)
        ensures
            r.bits == 0,
    {
        PTEFlags { bits: 0 }
    }

    /// Flags from raw bits.
    pub fn from_bits(bits: u8) -> (r: PTEFlags)
        ensures
            r.bits == bits,
    {
        PTEFlags { bits }
    }

    /// The raw bits.
    pub fn bits(&self) -> (r: u8)
        ensures
            r == self.bits,
    {
        self.bits
    }

    /// Both flag sets combined.
    pub fn union(self, other: PTEFlags) -> (r: PTEFlags)
        ensures
            r.bits == (self.bits | other.bits),
    {
        PTEFlags { bits: self.bits | other.bits }
    }
}

/// One 64-bit page-table entry: bits `[9:0]` are flags, `[53:10]` the
/// physical page number.
#[derive(Clone, Copy, PartialEq, Eq, Structural, Debug)]
pub struct PageTableEntry {
    /// The raw entry bits.
    pub bits: usize,
}

/// Is the entry marked valid?
pub open spec fn spec_pte_valid(pte: PageTableEntry) -> bool {
    (pte.bits as int) % 2 == 1
}

/// The physical page number an entry points to.
pub open spec fn spec_pte_ppn(pte: PageTableEntry) -> int {
    ((pte.bits as int) / 1024) % (PPN_LIMIT as int)
}

impl PageTableEntry {
    /// Pack a physical page number and flags into an entry.
    pub fn new(ppn: PhysPageNum, flags: PTEFlags) -> (r: PageTableEntry)
        requires
            (ppn.0 as int) < PPN_LIMIT as int,
            (ppn.0 as int) * 1024 + 255 <= usize::MAX as int,
        ensures
            r.bits as int == (ppn.0 as int) * 1024 + (flags.bits as int),
            spec_pte_ppn(r) == ppn.0 as int,
            spec_pte_valid(r) == (flags.bits as int % 2 == 1),
    {
        proof {
            vstd::arithmetic::div_mod::lemma_fundamental_div_mod_converse(
                (ppn.0 as int) * 1024 + (flags.bits as int),
                1024,
                ppn.0 as int,
                flags.bits as int,
            );
            vstd::arithmetic::div_mod::lemma_small_mod(ppn.0 as nat, PPN_LIMIT as nat);
            if flags.bits as int % 2 == 1 {
                vstd::arithmetic::div_mod::lemma_fundamental_div_mod_converse(
                    (ppn.0 as int) * 1024 + (flags.bits as int),
                    2,
                    (ppn.0 as int) * 512 + (flags.bits as int) / 2,
                    1,
                );
            } else {
                vstd::arithmetic::div_mod::lemma_fundamental_div_mod_converse(
                    (ppn.0 as int) * 1024 + (flags.bits as int),
                    2,
                    (ppn.0 as int) * 512 + (flags.bits as int) / 2,
                    0,
                );
            }
        }
        PageTableEntry { bits: ppn.0 * 1024 + flags.bits as usize }
    }

    /// The all-zero, invalid entry.
    pub fn empty() -> (r: PageTableEntry)
        ensures
            r.bits == 0,
            !spec_pte_valid(r),
    {
        PageTableEntry { bits: 0 }
    }

    /// The physical page number this entry points to.
    pub fn ppn(&self) -> (r: PhysPageNum)
        ensures
            r.0 as int == spec_pte_ppn(*self),
    {
        proof {
            vstd::arithmetic::div_mod::lemma_mod_bound(
                (self.bits as int) / 1024,
                PPN_LIMIT as int,
            );
            vstd::arithmetic::div_mod::lemma_mod_decreases(
                ((self.bits as int) / 1024) as nat,
                PPN_LIMIT as nat,
            );
        }
        let wide = ((self.bits as u64) / 1024) % PPN_LIMIT;
        PhysPageNum(wide as usize)
    }

    /// The flag bits of this entry.
    pub fn flags(&self) -> (r: PTEFlags)
        ensures
            r.bits as int == (self.bits as int) % 256,
    {
        PTEFlags { bits: (self.bits % 256) as u8 }
    }

    /// Is the entry valid?
    pub fn is_valid(&self) -> (r: bool)
        ensures
            r == spec_pte_valid(*self),
    {
        self.bits % 2 == 1
    }

    /// Is the mapped page readable?
    pub fn readable(&self) -> (r: bool)
        ensures
            r == ((self.bits as int) / 2 % 2 == 1),
    {
        (self.bits / 2) % 2 == 1
    }

    /// Is the mapped page writable?
    pub fn writable(&self) -> (r: bool)
        ensures
            r == ((self.bits as int) / 4 % 2 == 1),
    {
        (self.bits / 4) % 2 == 1
    }

    /// Is the mapped page executable?
    pub fn executable(&self) -> (r: bool)
        ensures
            r == ((self.bits as int) / 8 % 2 == 1),
    {
        (self.bits / 8) % 2 == 1
    }
}

/// A fully cleared page-table page.
pub open spec fn empty_table() -> Seq<PageTableEntry> {
    Seq::new(PTE_PER_PAGE as nat, |i: int| PageTableEntry { bits: 0 })
}

/// The physical-memory capability: page-table pages addressed by
/// physical page number, each holding 512 entries.
pub trait PhysMem: Sized {
    /// The memory contents: physical page number to its 512 entries.
    spec fn mem(&self) -> Map<int, Seq<PageTableEntry>>;

    /// Implementation-defined well-formedness.
    spec fn inv(&self) -> bool;

    /// Every present page holds exactly 512 entries.
    proof fn inv_page_size(&self)
        requires
            self.inv(),
        ensures
            forall|p: int|
                self.mem().contains_key(p) ==> (#[trigger] self.mem()[p]).len()
                    == PTE_PER_PAGE as int,
    ;

    /// Read entry `idx` of page `ppn`.
    fn read_pte(&self, ppn: PhysPageNum, idx: usize) -> (r: PageTableEntry)
        requires
            self.inv(),
            self.mem().contains_key(ppn.0 as int),
            idx < PTE_PER_PAGE,
        ensures
            r == self.mem()[ppn.0 as int][idx as int],
    ;

    /// Write entry `idx` of page `ppn`.
    fn write_pte(&mut self, ppn: PhysPageNum, idx: usize, pte: PageTableEntry)
        requires
            old(self).inv(),
            old(self).mem().contains_key(ppn.0 as int),
            idx < PTE_PER_PAGE,
        ensures
            final(self).inv(),
            final(self).mem() == old(self).mem().insert(
                ppn.0 as int,
                old(self).mem()[ppn.0 as int].update(idx as int, pte),
            ),
    ;

    /// Zero the whole page `ppn`.
    fn clear_frame(&mut self, ppn: PhysPageNum)
        requires
            old(self).inv(),
            old(self).mem().contains_key(ppn.0 as int),
        ensures
            final(self).inv(),
            final(self).mem() == old(self).mem().insert(ppn.0 as int, empty_table()),
    ;
}

/// RAM-backed physical memory: page numbers `[0, num_pages)`, used by the
/// tests and host-side tooling.
pub struct RamMem {
    pages: Vec<Vec<PageTableEntry>>,
}

impl RamMem {
    /// `num_pages` cleared pages, numbered from zero.
    pub fn new(num_pages: usize) -> (r: RamMem)
        ensures
            r.inv(),
            forall|p: int| r.mem().contains_key(p) == (0 <= p < num_pages as int),
            forall|p: int| 0 <= p < num_pages as int ==> #[trigger] r.mem()[p] == empty_table(),
    {
        let mut pages: Vec<Vec<PageTableEntry>> = Vec::new();
        let mut i: usize = 0;
        while i < num_pages
            invariant
                i <= num_pages,
                pages.len() == i as int,
                forall|k: int| 0 <= k < i as int ==> (#[trigger] pages[k])@ == empty_table(),
            decreases num_pages - i,
        {
            let mut page: Vec<PageTableEntry> = Vec::new();
            let mut j: usize = 0;
            while j < PTE_PER_PAGE
                invariant
                    j <= PTE_PER_PAGE,
                    page.len() == j as int,
                    forall|k: int|
                        0 <= k < j as int ==> (#[trigger] page@[k]) == (PageTableEntry { bits: 0 }),
                decreases PTE_PER_PAGE - j,
            {
                page.push(PageTableEntry { bits: 0 });
                j += 1;
            }
            proof {
                assert(page@ =~= empty_table());
            }
            pages.push(page);
            i += 1;
        }
        RamMem { pages }
    }
}

impl PhysMem for RamMem {
    closed spec fn mem(&self) -> Map<int, Seq<PageTableEntry>> {
        Map::new(|p: int| 0 <= p < self.pages@.len(), |p: int| self.pages@[p]@)
    }

    closed spec fn inv(&self) -> bool {
        forall|k: int|
            0 <= k < self.pages@.len() ==> (#[trigger] self.pages@[k])@.len() == PTE_PER_PAGE as int
    }

    proof fn inv_page_size(&self) {
    }

    fn read_pte(&self, ppn: PhysPageNum, idx: usize) -> (r: PageTableEntry) {
        self.pages[ppn.0][idx]
    }

    fn write_pte(&mut self, ppn: PhysPageNum, idx: usize, pte: PageTableEntry) {
        let mut page: Vec<PageTableEntry> = Vec::new();
        let mut j: usize = 0;
        while j < PTE_PER_PAGE
            invariant
                j <= PTE_PER_PAGE,
                page.len() == j as int,
                ppn.0 < self.pages@.len(),
                self == old(self),
                self.pages@[ppn.0 as int]@.len() == PTE_PER_PAGE as int,
                idx < PTE_PER_PAGE,
                forall|k: int|
                    0 <= k < j as int ==> (#[trigger] page@[k]) == (if k == idx as int {
                        pte
                    } else {
                        self.pages@[ppn.0 as int]@[k]
                    }),
            decreases PTE_PER_PAGE - j,
        {
            let e = if j == idx {
                pte
            } else {
                self.pages[ppn.0][j]
            };
            page.push(e);
            j += 1;
        }
        proof {
            assert(page@ =~= old(self).mem()[ppn.0 as int].update(idx as int, pte));
        }
        self.pages.set(ppn.0, page);
        proof {
            assert(self.mem() =~~= old(self).mem().insert(
                ppn.0 as int,
                old(self).mem()[ppn.0 as int].update(idx as int, pte),
            ));
        }
    }

    fn clear_frame(&mut self, ppn: PhysPageNum) {
        let mut page: Vec<PageTableEntry> = Vec::new();
        let mut j: usize = 0;
        while j < PTE_PER_PAGE
            invariant
                j <= PTE_PER_PAGE,
                page.len() == j as int,
                forall|k: int|
                    0 <= k < j as int ==> (#[trigger] page@[k]) == (PageTableEntry { bits: 0 }),
            decreases PTE_PER_PAGE - j,
        {
            page.push(PageTableEntry { bits: 0 });
            j += 1;
        }
        proof {
            assert(page@ =~= empty_table());
        }
        self.pages.set(ppn.0, page);
        proof {
            assert(self.mem() =~~= old(self).mem().insert(ppn.0 as int, empty_table()));
        }
    }
}

/// Root-level index of a virtual page number.
pub open spec fn spec_vpn_idx0(vpn: VirtPageNum) -> int {
    ((vpn.0 as int) / 262144) % 512
}

/// Middle-level index of a virtual page number.
pub open spec fn spec_vpn_idx1(vpn: VirtPageNum) -> int {
    ((vpn.0 as int) / 512) % 512
}

/// Leaf-level index of a virtual page number.
pub open spec fn spec_vpn_idx2(vpn: VirtPageNum) -> int {
    (vpn.0 as int) % 512
}

/// The three-level walk: the leaf entry for `vpn`, or `None` when an
/// intermediate entry is invalid.
pub open spec fn spec_translate(
    m: Map<int, Seq<PageTableEntry>>,
    root: int,
    vpn: VirtPageNum,
) -> Option<PageTableEntry> {
    let pte0 = m[root][spec_vpn_idx0(vpn)];
    if !spec_pte_valid(pte0) {
        Option::None
    } else {
        let pte1 = m[spec_pte_ppn(pte0)][spec_vpn_idx1(vpn)];
        if !spec_pte_valid(pte1) {
            Option::None
        } else {
            Option::Some(m[spec_pte_ppn(pte1)][spec_vpn_idx2(vpn)])
        }
    }
}

/// Every page the walk for `vpn` touches is present in memory.
pub open spec fn spec_walk_defined(
    m: Map<int, Seq<PageTableEntry>>,
    root: int,
    vpn: VirtPageNum,
) -> bool {
    &&& m.contains_key(root)
    &&& spec_pte_valid(m[root][spec_vpn_idx0(vpn)]) ==> m.contains_key(
        spec_pte_ppn(m[root][spec_vpn_idx0(vpn)]),
    )
    &&& (spec_pte_valid(m[root][spec_vpn_idx0(vpn)]) && spec_pte_valid(
        m[spec_pte_ppn(m[root][spec_vpn_idx0(vpn)])][spec_vpn_idx1(vpn)],
    )) ==> m.contains_key(
        spec_pte_ppn(m[spec_pte_ppn(m[root][spec_vpn_idx0(vpn)])][spec_vpn_idx1(vpn)]),
    )
}

/// No leaf entry maps `vpn`: the walk dies early or ends on an invalid
/// entry.
pub open spec fn spec_unmapped(
    m: Map<int, Seq<PageTableEntry>>,
    root: int,
    vpn: VirtPageNum,
) -> bool {
    match spec_translate(m, root, vpn) {
        Option::None => true,
        Option::Some(l) => !spec_pte_valid(l),
    }
}

/// The three level indexes lie in `[0, 512)`.
proof fn lemma_idx_bounds(vpn: VirtPageNum)
    ensures
        0 <= spec_vpn_idx0(vpn) < 512,
        0 <= spec_vpn_idx1(vpn) < 512,
        0 <= spec_vpn_idx2(vpn) < 512,
{
    vstd::arithmetic::div_mod::lemma_mod_bound((vpn.0 as int) / 262144, 512);
    vstd::arithmetic::div_mod::lemma_mod_bound((vpn.0 as int) / 512, 512);
    vstd::arithmetic::div_mod::lemma_mod_bound(vpn.0 as int, 512);
    vstd::arithmetic::div_mod::lemma_div_pos_is_pos(vpn.0 as int, 262144);
    vstd::arithmetic::div_mod::lemma_div_pos_is_pos(vpn.0 as int, 512);
}

/// An SV39 page table: the root page, ownership of every table frame it
/// allocated, and (ghost) the sets of middle- and leaf-level table pages.
pub struct PageTable {
    root_ppn: PhysPageNum,
    frames: Vec<FrameTracker>,
    tables1: Ghost<Set<int>>,
    tables2: Ghost<Set<int>>,
}

impl PageTable {
    /// The root table page (specification only).
    pub closed spec fn spec_root(&self) -> int {
        self.root_ppn.0 as int
    }

    /// Every table page of this tree: the root and both ghost level
    /// sets.
    pub closed spec fn spec_all_tables(&self) -> Set<int> {
        self.tables1@.union(self.tables2@).insert(self.root_ppn.0 as int)
    }

    /// The tree invariant: all table pages are present, in range and
    /// level-disjoint; a valid root entry points into level one, a valid
    /// level-one entry into level two.
    pub closed spec fn wf_on(&self, m: Map<int, Seq<PageTableEntry>>) -> bool {
        let root = self.root_ppn.0 as int;
        &&& m.contains_key(root)
        &&& 0 <= root < PPN_LIMIT as int
        &&& (root as int) * 1024 + 255 <= usize::MAX as int
        &&& forall|t: int| self.tables1@.contains(t) ==> m.contains_key(t)
        &&& forall|t: int| self.tables2@.contains(t) ==> m.contains_key(t)
        &&& forall|t: int| self.tables1@.contains(t) ==> 0 <= t < PPN_LIMIT as int
        &&& forall|t: int| self.tables2@.contains(t) ==> 0 <= t < PPN_LIMIT as int
        &&& !self.tables1@.contains(root)
        &&& !self.tables2@.contains(root)
        &&& forall|t: int| self.tables1@.contains(t) ==> !self.tables2@.contains(t)
        &&& forall|i: int|
            0 <= i < 512 && spec_pte_valid(#[trigger] m[root][i]) ==> self.tables1@.contains(
                spec_pte_ppn(m[root][i]),
            )
        &&& forall|t: int, i: int|
            self.tables1@.contains(t) && 0 <= i < 512 && spec_pte_valid(#[trigger] m[t][i])
                ==> self.tables2@.contains(spec_pte_ppn(m[t][i]))
    }

    /// The tree invariant makes every walk stay on present pages.
    pub proof fn lemma_wf_walk_defined(&self, m: Map<int, Seq<PageTableEntry>>, vpn: VirtPageNum)
        requires
            self.wf_on(m),
        ensures
            spec_walk_defined(m, self.spec_root(), vpn),
    {
        lemma_idx_bounds(vpn);
    }

    /// A fresh page table: one cleared root frame taken from `alloc_`.
    pub fn new<M: PhysMem>(mem: &mut M, alloc_: &mut StackFrameAllocator) -> (pt: PageTable)
        requires
            old(mem).inv(),
            old(alloc_).wf(),
            old(alloc_).spec_avail() >= 1,
            forall|p: int|
                old(alloc_).spec_possible(p) ==> old(mem).mem().contains_key(p) && 0 <= p
                    < PPN_LIMIT as int && p * 1024 + 255 <= usize::MAX as int,
        ensures
            final(mem).inv(),
            final(alloc_).wf(),
            final(alloc_).spec_avail() == old(alloc_).spec_avail() - 1,
            forall|q: int|
                final(alloc_).spec_possible(q) ==> old(alloc_).spec_possible(q) && q
                    != pt.spec_root(),
            pt.wf_on(final(mem).mem()),
            pt.spec_all_tables() == Set::empty().insert(pt.spec_root()),
            old(alloc_).spec_possible(pt.spec_root()),
            final(mem).mem() == old(mem).mem().insert(pt.spec_root(), empty_table()),
    {
        let got = frame_alloc(alloc_, mem);
        match got {
            Some(f) => {
                let root_ppn = f.ppn;
                let mut frames: Vec<FrameTracker> = Vec::new();
                frames.push(f);
                let pt = PageTable {
                    root_ppn,
                    frames,
                    tables1: Ghost(Set::empty()),
                    tables2: Ghost(Set::empty()),
                };
                proof {
                    assert(pt.spec_all_tables() =~= Set::empty().insert(pt.spec_root()));
                    assert forall|i: int|
                        0 <= i < 512 && spec_pte_valid(
                            #[trigger] final(mem).mem()[pt.spec_root()][i],
                        ) implies pt.tables1@.contains(
                        spec_pte_ppn(final(mem).mem()[pt.spec_root()][i]),
                    ) by {
                        assert(final(mem).mem()[pt.spec_root()] == empty_table());
                        assert(!spec_pte_valid(empty_table()[i]));
                    }
                }
                pt
            },
            None => {
                proof {
                    assert(false);
                }
                PageTable {
                    root_ppn: PhysPageNum(0),
                    frames: Vec::new(),
                    tables1: Ghost(Set::empty()),
                    tables2: Ghost(Set::empty()),
                }
            },
        }
    }

    /// A table handle for an address space named by its `satp` token;
    /// used to inspect a foreign table, so it owns no frames.
    pub fn from_token(satp: u64) -> (pt: PageTable)
        requires
            satp % (PPN_LIMIT as u64) <= usize::MAX as u64,
        ensures
            pt.spec_root() == (satp % (PPN_LIMIT as u64)) as int,
    {
        PageTable {
            root_ppn: PhysPageNum((satp % PPN_LIMIT) as usize),
            frames: Vec::new(),
            tables1: Ghost(Set::empty()),
            tables2: Ghost(Set::empty()),
        }
    }

    /// The `satp` token for this table: mode 8 (SV39) plus the root page
    /// number.
    pub fn token(&self) -> (r: u64)
        requires
            0 <= self.spec_root() < PPN_LIMIT as int,
        ensures
            r == 0x8000_0000_0000_0000u64 + self.spec_root(),
    {
        0x8000_0000_0000_0000u64 + self.root_ppn.0 as u64
    }

    /// The location of the leaf entry for `vpn`: its table page and
    /// index, or `None` when an intermediate entry is invalid.
    fn find_pte<M: PhysMem>(&self, vpn: VirtPageNum, mem: &M) -> (r: Option<(PhysPageNum, usize)>)
        requires
            mem.inv(),
            spec_walk_defined(mem.mem(), self.spec_root(), vpn),
        ensures
            ({
                let m = mem.mem();
                let root = self.spec_root();
                let pte0 = m[root][spec_vpn_idx0(vpn)];
                match r {
                    Some(loc) => {
                        &&& spec_pte_valid(pte0)
                        &&& spec_pte_valid(m[spec_pte_ppn(pte0)][spec_vpn_idx1(vpn)])
                        &&& loc.0.0 as int == spec_pte_ppn(
                            m[spec_pte_ppn(pte0)][spec_vpn_idx1(vpn)],
                        )
                        &&& loc.1 as int == spec_vpn_idx2(vpn)
                        &&& m.contains_key(loc.0.0 as int)
                        &&& spec_translate(m, root, vpn) == Option::Some(
                            m[loc.0.0 as int][loc.1 as int],
                        )
                    },
                    None => spec_translate(m, root, vpn) is None,
                }
            }),
    {
        proof {
            lemma_idx_bounds(vpn);
            mem.inv_page_size();
        }
        let idxs = vpn.indexes();
        let pte0 = mem.read_pte(self.root_ppn, idxs[0]);
        if !pte0.is_valid() {
            return None;
        }
        let p1 = pte0.ppn();
        let pte1 = mem.read_pte(p1, idxs[1]);
        if !pte1.is_valid() {
            return None;
        }
        let p2 = pte1.ppn();
        Some((p2, idxs[2]))
    }

    /// The leaf entry for `vpn`, or `None` when no walk reaches one.
    pub fn translate<M: PhysMem>(&self, vpn: VirtPageNum, mem: &M) -> (r: Option<PageTableEntry>)
        requires
            mem.inv(),
            spec_walk_defined(mem.mem(), self.spec_root(), vpn),
        ensures
            r == spec_translate(mem.mem(), self.spec_root(), vpn),
    {
        proof {
            lemma_idx_bounds(vpn);
        }
        let loc = self.find_pte(vpn, mem);
        match loc {
            Some((p, i)) => Some(mem.read_pte(p, i)),
            None => None,
        }
    }

    /// Map `vpn` to `ppn` with `flags` (made valid), creating the two
    /// intermediate tables from `alloc_` as needed. `vpn` must be
    /// unmapped: mapping a page twice is a caller error.
    #[verifier::rlimit(100)]
    pub fn map<M: PhysMem>(
        &mut self,
        vpn: VirtPageNum,
        ppn: PhysPageNum,
        flags: PTEFlags,
        mem: &mut M,
        alloc_: &mut StackFrameAllocator,
    )
        requires
            old(self).wf_on(old(mem).mem()),
            old(mem).inv(),
            old(alloc_).wf(),
            old(alloc_).spec_avail() >= 2,
            forall|p: int|
                old(alloc_).spec_possible(p) ==> old(mem).mem().contains_key(p) && !old(
                    self,
                ).spec_all_tables().contains(p) && 0 <= p < PPN_LIMIT as int && p * 1024 + 255
                    <= usize::MAX as int,
            spec_unmapped(old(mem).mem(), old(self).spec_root(), vpn),
            (ppn.0 as int) < PPN_LIMIT as int,
            (ppn.0 as int) * 1024 + 255 <= usize::MAX as int,
        ensures
            final(mem).inv(),
            final(alloc_).wf(),
            final(self).wf_on(final(mem).mem()),
            final(self).spec_root() == old(self).spec_root(),
            final(alloc_).spec_avail() >= old(alloc_).spec_avail() - 2,
            forall|q: int|
                final(alloc_).spec_possible(q) ==> old(alloc_).spec_possible(q),
            forall|t: int|
                old(self).spec_all_tables().contains(t) ==> final(self).spec_all_tables().contains(
                    t,
                ),
            forall|t: int|
                final(self).spec_all_tables().contains(t) ==> old(self).spec_all_tables().contains(
                    t,
                ) || old(alloc_).spec_possible(t),
            forall|p: int|
                final(mem).mem().contains_key(p) == old(mem).mem().contains_key(p),
            forall|p: int|
                old(mem).mem().contains_key(p) && !final(self).spec_all_tables().contains(p)
                    ==> final(mem).mem()[p] == old(mem).mem()[p],
            spec_translate(final(mem).mem(), old(self).spec_root(), vpn) == Option::Some(
                (PageTableEntry { bits: (ppn.0 * 1024 + (flags.bits | PTE_FLAG_V) as usize) as usize }),
            ),
    {
        proof {
            lemma_idx_bounds(vpn);
            old(mem).inv_page_size();
        }
        let ghost m0 = old(mem).mem();
        let ghost root = self.spec_root();
        let idxs = vpn.indexes();
        let i0 = idxs[0];
        let i1 = idxs[1];
        let i2 = idxs[2];
        // Level zero: find or create the middle table.
        let pte0 = mem.read_pte(self.root_ppn, i0);
        let p1: PhysPageNum;
        if pte0.is_valid() {
            p1 = pte0.ppn();
        } else {
            let got = frame_alloc(alloc_, mem);
            match got {
                Some(f) => {
                    let fppn = f.ppn;
                    self.frames.push(f);
                    self.tables1 = Ghost(self.tables1@.insert(fppn.0 as int));
                    mem.write_pte(
                        self.root_ppn,
                        i0,
                        PageTableEntry::new(fppn, PTEFlags::from_bits(PTE_FLAG_V)),
                    );
                    p1 = fppn;
                },
                None => {
                    proof {
                        assert(false);
                    }
                    p1 = PhysPageNum(0);
                },
            }
        }
        proof {
            mem.inv_page_size();
            assert(self.wf_on(mem.mem()));
            assert(mem.mem().contains_key(p1.0 as int));
            assert(self.tables1@.contains(p1.0 as int));
            assert(spec_pte_valid(mem.mem()[root][i0 as int]) && spec_pte_ppn(
                mem.mem()[root][i0 as int],
            ) == p1.0 as int);
            // The walk to `vpn` is still unmapped.
            assert(spec_unmapped(mem.mem(), root, vpn));
        }
        let ghost m1 = mem.mem();
        let ghost alloc1 = *alloc_;
        // Level one: find or create the leaf table.
        let pte1 = mem.read_pte(p1, i1);
        let p2: PhysPageNum;
        if pte1.is_valid() {
            p2 = pte1.ppn();
        } else {
            let got = frame_alloc(alloc_, mem);
            match got {
                Some(f) => {
                    let fppn = f.ppn;
                    self.frames.push(f);
                    self.tables2 = Ghost(self.tables2@.insert(fppn.0 as int));
                    mem.write_pte(p1, i1, PageTableEntry::new(fppn, PTEFlags::from_bits(PTE_FLAG_V)));
                    p2 = fppn;
                },
                None => {
                    proof {
                        assert(false);
                    }
                    p2 = PhysPageNum(0);
                },
            }
        }
        proof {
            mem.inv_page_size();
            assert(self.wf_on(mem.mem()));
            assert(mem.mem().contains_key(p2.0 as int));
            assert(self.tables2@.contains(p2.0 as int));
            assert(spec_pte_valid(mem.mem()[root][i0 as int]) && spec_pte_ppn(
                mem.mem()[root][i0 as int],
            ) == p1.0 as int);
            assert(spec_pte_valid(mem.mem()[p1.0 as int][i1 as int]) && spec_pte_ppn(
                mem.mem()[p1.0 as int][i1 as int],
            ) == p2.0 as int);
            assert(spec_unmapped(mem.mem(), root, vpn));
        }
        let ghost m2 = mem.mem();
        // The leaf entry must be free; a mapped one would be a caller
        // error.
        let leaf = mem.read_pte(p2, i2);
        proof {
            assert(!spec_pte_valid(leaf));
        }
        let new_leaf = PageTableEntry::new(ppn, flags.union(PTEFlags::from_bits(PTE_FLAG_V)));
        mem.write_pte(p2, i2, new_leaf);
        proof {
            mem.inv_page_size();
            assert(mem.mem()[root] == m2[root]);
            assert(mem.mem()[p1.0 as int] == m2[p1.0 as int]);
            assert(mem.mem()[p2.0 as int][i2 as int] == new_leaf);
            assert(self.wf_on(mem.mem()));
            let fb = flags.bits;
            assert((fb | 1u8) as int % 2 == 1) by (bit_vector);
            assert((flags.bits | PTE_FLAG_V) == (fb | 1u8));
            assert(spec_translate(mem.mem(), root, vpn) == Option::Some(new_leaf));
        }
    }

    /// Remove the mapping of `vpn`: its leaf entry becomes the empty,
    /// invalid entry. Unmapping a page that is not mapped is a caller
    /// error.
    pub fn unmap<M: PhysMem>(&mut self, vpn: VirtPageNum, mem: &mut M)
        requires
            old(self).wf_on(old(mem).mem()),
            old(mem).inv(),
            ({
                let t = spec_translate(old(mem).mem(), old(self).spec_root(), vpn);
                t is Some && spec_pte_valid(t.unwrap())
            }),
        ensures
            final(mem).inv(),
            *final(self) == *old(self),
            final(self).wf_on(final(mem).mem()),
            spec_unmapped(final(mem).mem(), old(self).spec_root(), vpn),
            spec_translate(final(mem).mem(), old(self).spec_root(), vpn) == Option::Some(
                (PageTableEntry { bits: 0 }),
            ),
            forall|p: int|
                final(mem).mem().contains_key(p) == old(mem).mem().contains_key(p),
            forall|p: int|
                old(mem).mem().contains_key(p) && !old(self).spec_all_tables().contains(p)
                    ==> final(mem).mem()[p] == old(mem).mem()[p],
    {
        proof {
            lemma_idx_bounds(vpn);
            old(mem).inv_page_size();
            self.lemma_wf_walk_defined(old(mem).mem(), vpn);
        }
        let ghost m0 = old(mem).mem();
        let ghost root = self.spec_root();
        let loc = self.find_pte(vpn, mem);
        match loc {
            Some((p2, i2)) => {
                let pte = mem.read_pte(p2, i2);
                proof {
                    assert(spec_pte_valid(pte));
                }
                mem.write_pte(p2, i2, PageTableEntry::empty());
                proof {
                    mem.inv_page_size();
                    assert(self.tables2@.contains(p2.0 as int));
                    assert(mem.mem()[root] == m0[root]);
                    let pte0 = m0[root][spec_vpn_idx0(vpn)];
                    assert(mem.mem()[spec_pte_ppn(pte0)] == m0[spec_pte_ppn(pte0)]);
                    assert(self.wf_on(mem.mem()));
                }
            },
            None => {
                proof {
                    assert(false);
                }
            },
        }
    }
}

/// Split the user buffer `[ptr, ptr + len)` of the address space named by
/// `token` into per-page segments: for each virtual page touched, the
/// physical page it maps to together with the in-page start and end
/// offsets of the segment. The caller turns these into actual memory
/// views.
#[verifier::loop_isolation(false)]
pub fn translated_byte_buffer<M: PhysMem>(token: u64, ptr: usize, len: usize, mem: &M) -> (r: Vec<
    (PhysPageNum, usize, usize),
>)
    requires
        mem.inv(),
        token % (PPN_LIMIT as u64) <= usize::MAX as u64,
        ptr + len <= usize::MAX,
        forall|v: int|
            (ptr as int) / (crate::address::PAGE_SIZE as int) <= v <= (ptr + len - 1) / (
            crate::address::PAGE_SIZE as int) ==> {
                &&& spec_walk_defined(
                    mem.mem(),
                    (token % (PPN_LIMIT as u64)) as int,
                    (VirtPageNum(v as usize)),
                )
                &&& (#[trigger] spec_translate(
                    mem.mem(),
                    (token % (PPN_LIMIT as u64)) as int,
                    (VirtPageNum(v as usize)),
                )) is Some
                &&& spec_pte_valid(
                    spec_translate(
                        mem.mem(),
                        (token % (PPN_LIMIT as u64)) as int,
                        (VirtPageNum(v as usize)),
                    ).unwrap(),
                )
            },
    ensures
        ({
            let psz = crate::address::PAGE_SIZE as int;
            let root = (token % (PPN_LIMIT as u64)) as int;
            let end = ptr as int + len as int;
            &&& r.len() == (if len == 0 {
                0int
            } else {
                (end - 1) / psz - (ptr as int) / psz + 1
            })
            &&& forall|k: int|
                0 <= k < r.len() ==> ((#[trigger] r[k]).0.0 as int) == spec_pte_ppn(
                    spec_translate(
                        mem.mem(),
                        root,
                        (VirtPageNum(((ptr as int) / psz + k) as usize)),
                    ).unwrap(),
                )
            &&& forall|k: int|
                0 <= k < r.len() ==> ((#[trigger] r[k]).1 as int) == (if k == 0 {
                    (ptr as int) % psz
                } else {
                    0int
                })
            &&& forall|k: int|
                0 <= k < r.len() ==> ((#[trigger] r[k]).2 as int) == (if k == r.len() - 1 {
                    if end % psz == 0 {
                        psz
                    } else {
                        end % psz
                    }
                } else {
                    psz
                })
        }),
{
    let mut r: Vec<(PhysPageNum, usize, usize)> = Vec::new();
    if len == 0 {
        return r;
    }
    let page_table = PageTable::from_token(token);
    let psz = crate::address::PAGE_SIZE;
    let end = ptr + len;
    let first_page = ptr / psz;
    let last_page = (end - 1) / psz;
    proof {
        vstd::arithmetic::div_mod::lemma_div_is_ordered(ptr as int, end - 1, psz as int);
    }
    let pages = last_page - first_page + 1;
    let mut k: usize = 0;
    while k < pages
        invariant
            len >= 1,
            end == ptr + len,
            first_page as int == (ptr as int) / (psz as int),
            last_page as int == (end - 1) / (psz as int),
            psz == crate::address::PAGE_SIZE,
            pages == last_page - first_page + 1,
            page_table.spec_root() == (token % (PPN_LIMIT as u64)) as int,
            k <= pages,
            r.len() == k as int,
            forall|t: int|
                0 <= t < k as int ==> ((#[trigger] r[t]).0.0 as int) == spec_pte_ppn(
                    spec_translate(
                        mem.mem(),
                        page_table.spec_root(),
                        (VirtPageNum((first_page as int + t) as usize)),
                    ).unwrap(),
                ),
            forall|t: int|
                0 <= t < k as int ==> ((#[trigger] r[t]).1 as int) == (if t == 0 {
                    (ptr as int) % (psz as int)
                } else {
                    0int
                }),
            forall|t: int|
                0 <= t < k as int ==> ((#[trigger] r[t]).2 as int) == (if t == pages as int - 1 {
                    if (end as int) % (psz as int) == 0 {
                        psz as int
                    } else {
                        (end as int) % (psz as int)
                    }
                } else {
                    psz as int
                }),
        decreases pages - k,
    {
        let vpn_val = first_page + k;
        let lo = if k == 0 {
            ptr % psz
        } else {
            0
        };
        let hi = if k == pages - 1 {
            if end % psz == 0 {
                psz
            } else {
                end % psz
            }
        } else {
            psz
        };
        proof {
            let vv = vpn_val as int;
            assert(first_page as int <= vv <= last_page as int);
            assert((vv as usize) == vpn_val);
            assert(spec_walk_defined(
                mem.mem(),
                (token % (PPN_LIMIT as u64)) as int,
                (VirtPageNum(vv as usize)),
            ));
            assert(spec_translate(
                mem.mem(),
                (token % (PPN_LIMIT as u64)) as int,
                (VirtPageNum(vv as usize)),
            ) is Some);
        }
        let pte_opt = page_table.translate(VirtPageNum(vpn_val), mem);
        match pte_opt {
            Some(pte) => {
                let ppn = pte.ppn();
                r.push((ppn, lo, hi));
            },
            None => {
                proof {
                    assert(false);
                }
            },
        }
        k += 1;
    }
    r
}

} // verus!
