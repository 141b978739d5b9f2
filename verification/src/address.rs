//! Physical and virtual addresses and page numbers for an SV39 paging
//! scheme: 4096-byte pages, 39-bit virtual and 56-bit physical addresses,
//! with the floor/ceiling/offset arithmetic the paging code relies on.

use vstd::prelude::*;

verus! {

/// Bytes per page.
pub const PAGE_SIZE: usize = 4096;

/// Log2 of the page size.
pub const PAGE_SIZE_BITS: usize = 12;

/// Bits of a physical address.
pub const PA_WIDTH_SV39: usize = 56;

/// Bits of a virtual address.
pub const VA_WIDTH_SV39: usize = 39;

/// Bits of a physical page number.
pub const PPN_WIDTH_SV39: usize = 44;

/// Bits of a virtual page number.
pub const VPN_WIDTH_SV39: usize = 27;

/// A physical address.
#[derive(Clone, Copy, PartialEq, Eq, Structural, Debug)]
pub struct PhysAddr(pub usize);

/// A virtual address.
#[derive(Clone, Copy, PartialEq, Eq, Structural, Debug)]
pub struct VirtAddr(pub usize);

/// A physical page number.
#[derive(Clone, Copy, PartialEq, Eq, Structural, Debug)]
pub struct PhysPageNum(pub usize);

/// A virtual page number.
#[derive(Clone, Copy, PartialEq, Eq, Structural, Debug)]
pub struct VirtPageNum(pub usize);

impl VirtAddr {
    /// The page that contains this address.
    pub fn floor(&self) -> (r: VirtPageNum)
        ensures
            r.0 as int == (self.0 as int) / (PAGE_SIZE as int),
    {
        VirtPageNum(self.0 / PAGE_SIZE)
    }

    /// The lowest page boundary at or above this address, as a page
    /// number.
    pub fn ceil(&self) -> (r: VirtPageNum)
        ensures
            r.0 as int == ((self.0 as int) + (PAGE_SIZE as int) - 1) / (PAGE_SIZE as int),
    {
        if self.0 == 0 {
            VirtPageNum(0)
        } else {
            proof {
                vstd::arithmetic::div_mod::lemma_div_plus_one(self.0 as int - 1, PAGE_SIZE as int);
                vstd::arithmetic::div_mod::lemma_div_is_ordered(
                    self.0 as int - 1,
                    usize::MAX as int - 1,
                    PAGE_SIZE as int,
                );
            }
            VirtPageNum((self.0 - 1) / PAGE_SIZE + 1)
        }
    }

    /// The offset of this address within its page.
    pub fn page_offset(&self) -> (r: usize)
        ensures
            r as int == (self.0 as int) % (PAGE_SIZE as int),
    {
        self.0 % PAGE_SIZE
    }

    /// Does this address sit exactly on a page boundary?
    pub fn aligned(&self) -> (r: bool)
        ensures
            r == ((self.0 as int) % (PAGE_SIZE as int) == 0),
    {
        self.page_offset() == 0
    }
}

impl PhysAddr {
    /// The page that contains this address.
    pub fn floor(&self) -> (r: PhysPageNum)
        ensures
            r.0 as int == (self.0 as int) / (PAGE_SIZE as int),
    {
        PhysPageNum(self.0 / PAGE_SIZE)
    }

    /// The lowest page boundary at or above this address, as a page
    /// number.
    pub fn ceil(&self) -> (r: PhysPageNum)
        ensures
            r.0 as int == ((self.0 as int) + (PAGE_SIZE as int) - 1) / (PAGE_SIZE as int),
    {
        if self.0 == 0 {
            PhysPageNum(0)
        } else {
            proof {
                vstd::arithmetic::div_mod::lemma_div_plus_one(self.0 as int - 1, PAGE_SIZE as int);
                vstd::arithmetic::div_mod::lemma_div_is_ordered(
                    self.0 as int - 1,
                    usize::MAX as int - 1,
                    PAGE_SIZE as int,
                );
            }
            PhysPageNum((self.0 - 1) / PAGE_SIZE + 1)
        }
    }

    /// The offset of this address within its page.
    pub fn page_offset(&self) -> (r: usize)
        ensures
            r as int == (self.0 as int) % (PAGE_SIZE as int),
    {
        self.0 % PAGE_SIZE
    }

    /// Does this address sit exactly on a page boundary?
    pub fn aligned(&self) -> (r: bool)
        ensures
            r == ((self.0 as int) % (PAGE_SIZE as int) == 0),
    {
        self.page_offset() == 0
    }
}

impl VirtPageNum {
    /// The three 9-bit page-table indexes of this page number, root
    /// level first.
    pub fn indexes(&self) -> (r: [usize; 3])
        ensures
            r@[2] as int == (self.0 as int) % 512,
            r@[1] as int == ((self.0 as int) / 512) % 512,
            r@[0] as int == ((self.0 as int) / 262144) % 512,
    {
        let mut vpn = self.0;
        let idx2 = vpn & 511;
        proof {
            lemma_low_nine_bits(vpn);
        }
        vpn = vpn >> 9;
        let idx1 = vpn & 511;
        proof {
            lemma_low_nine_bits(vpn);
            vstd::arithmetic::div_mod::lemma_div_denominator(self.0 as int, 512, 512);
        }
        vpn = vpn >> 9;
        let idx0 = vpn & 511;
        proof {
            lemma_low_nine_bits(vpn);
        }
        [idx0, idx1, idx2]
    }
}

/// Masking with 511 takes a value modulo 512, and shifting right by nine
/// divides by 512.
proof fn lemma_low_nine_bits(x: usize)
    ensures
        (x & 511) as int == (x as int) % 512,
        (x >> 9) as int == (x as int) / 512,
{
    assert((x & 511) == x % 512) by (bit_vector);
    assert((x >> 9) == x / 512) by (bit_vector);
}

/// A type whose values can step to a successor: what an address range
/// iterates with.
pub trait StepByOne: Sized {
    /// The value as a number (specification only).
    spec fn val(&self) -> int;

    /// The value as a machine word.
    fn value(&self) -> (r: usize)
        ensures
            r as int == self.val(),
    ;

    /// Advance to the successor.
    fn step(&mut self)
        requires
            old(self).val() < usize::MAX as int,
        ensures
            final(self).val() == old(self).val() + 1,
    ;
}

impl StepByOne for VirtPageNum {
    open spec fn val(&self) -> int {
        self.0 as int
    }

    fn value(&self) -> (r: usize) {
        self.0
    }

    fn step(&mut self) {
        self.0 += 1;
    }
}

/// A half-open range `[l, r)` of steppable values.
#[derive(Clone, Copy)]
pub struct SimpleRange<T: StepByOne + Copy> {
    l: T,
    r: T,
}

impl<T: StepByOne + Copy> SimpleRange<T> {
    /// The lower end (specification only).
    pub closed spec fn spec_start(&self) -> T {
        self.l
    }

    /// The upper end (specification only).
    pub closed spec fn spec_end(&self) -> T {
        self.r
    }

    /// The range `[start, end)`; `start` must not exceed `end`.
    pub fn new(start: T, end: T) -> (res: SimpleRange<T>)
        requires
            start.val() <= end.val(),
        ensures
            res.spec_start() == start,
            res.spec_end() == end,
    {
        SimpleRange { l: start, r: end }
    }

    /// The lower end of the range.
    pub fn get_start(&self) -> (res: T)
        ensures
            res == self.spec_start(),
    {
        self.l
    }

    /// The upper end of the range.
    pub fn get_end(&self) -> (res: T)
        ensures
            res == self.spec_end(),
    {
        self.r
    }

    /// An iterator over the range, from the lower end.
    pub fn iter(&self) -> (res: SimpleRangeIterator<T>)
        ensures
            res.spec_current() == self.spec_start(),
            res.spec_end() == self.spec_end(),
    {
        SimpleRangeIterator::new(self.l, self.r)
    }
}

/// A cursor over a [`SimpleRange`], handing out each value in turn.
pub struct SimpleRangeIterator<T: StepByOne + Copy> {
    current: T,
    end: T,
}

impl<T: StepByOne + Copy> SimpleRangeIterator<T> {
    /// The next value to hand out (specification only).
    pub closed spec fn spec_current(&self) -> T {
        self.current
    }

    /// The upper end (specification only).
    pub closed spec fn spec_end(&self) -> T {
        self.end
    }

    /// A cursor starting at `l`, exhausted at `r`.
    pub fn new(l: T, r: T) -> (res: SimpleRangeIterator<T>)
        ensures
            res.spec_current() == l,
            res.spec_end() == r,
    {
        SimpleRangeIterator { current: l, end: r }
    }

    /// The next value, or `None` when the cursor has reached the end.
    pub fn next(&mut self) -> (res: Option<T>)
        requires
            old(self).spec_current().val() <= old(self).spec_end().val(),
            old(self).spec_end().val() < usize::MAX as int,
        ensures
            final(self).spec_end() == old(self).spec_end(),
            match res {
                Some(t) => {
                    &&& old(self).spec_current().val() < old(self).spec_end().val()
                    &&& t == old(self).spec_current()
                    &&& final(self).spec_current().val() == old(self).spec_current().val() + 1
                },
                None => {
                    &&& old(self).spec_current().val() == old(self).spec_end().val()
                    &&& *final(self) == *old(self)
                },
            },
    {
        if self.current.value() == self.end.value() {
            None
        } else {
            let t = self.current;
            self.current.step();
            Some(t)
        }
    }
}

/// A range of virtual page numbers.
pub type VPNRange = SimpleRange<VirtPageNum>;

} // verus!
