use vstd::prelude::*;
use crate::{PAGE_SIZE, page_aligned};

verus! {

/// A plain physical machine address. Distinguished from `VirtAddr` only by
/// name, to keep the two from being mixed up.
pub type PhysAddr = u64;

/// A plain virtual machine address.
pub type VirtAddr = u64;

/// `align` is a power of two.
pub open spec fn is_pow2(align: u64) -> bool {
    &&& align > 0
    &&& align & ((align - 1) as u64) == 0
}

/// `addr` rounded down to the nearest multiple of `align` (for power-of-two
/// alignments).
pub open spec fn spec_align_down(addr: u64, align: u64) -> u64 {
    addr & !((align - 1) as u64)
}

/// `addr` rounded up to the nearest multiple of `align` (for power-of-two
/// alignments), assuming the sum does not overflow.
pub open spec fn spec_align_up(addr: u64, align: u64) -> u64 {
    ((addr + ((align - 1) as u64)) as u64) & !((align - 1) as u64)
}

/// Rounds `addr` down to a multiple of `align`.
pub fn align_down(addr: u64, align: u64) -> (r: u64)
    requires
        is_pow2(align),
    ensures
        r == spec_align_down(addr, align),
        r & ((align - 1) as u64) == 0,
        r <= addr < r + align,
        addr & ((align - 1) as u64) == 0 ==> r == addr,
{
    proof {
        lemma_align_down(addr, align);
    }
    addr & !(align - 1)
}

pub proof fn lemma_align_down(addr: u64, align: u64)
    requires
        is_pow2(align),
    ensures
        spec_align_down(addr, align) & ((align - 1) as u64) == 0,
        spec_align_down(addr, align) <= addr < spec_align_down(addr, align) + align,
        addr & ((align - 1) as u64) == 0 ==> spec_align_down(addr, align) == addr,
{
    assert({
        let r = addr & !((align - 1) as u64);
        &&& r & ((align - 1) as u64) == 0
        &&& r <= addr < r + align
        &&& addr & ((align - 1) as u64) == 0 ==> r == addr
    }) by (bit_vector)
        requires
            align > 0 && align & ((align - 1) as u64) == 0,
    ;
}

/// Rounds `addr` up to a multiple of `align`.
pub fn align_up(addr: u64, align: u64) -> (r: u64)
    requires
        is_pow2(align),
        addr + align - 1 <= u64::MAX,
    ensures
        r == spec_align_up(addr, align),
        r & ((align - 1) as u64) == 0,
        addr <= r < addr + align,
        addr & ((align - 1) as u64) == 0 ==> r == addr,
{
    proof {
        lemma_align_up(addr, align);
    }
    (addr + (align - 1)) & !(align - 1)
}

pub proof fn lemma_align_up(addr: u64, align: u64)
    requires
        is_pow2(align),
        addr + align - 1 <= u64::MAX,
    ensures
        spec_align_up(addr, align) & ((align - 1) as u64) == 0,
        addr <= spec_align_up(addr, align) < addr + align,
        addr & ((align - 1) as u64) == 0 ==> spec_align_up(addr, align) == addr,
{
    assert({
        let r = ((addr + ((align - 1) as u64)) as u64) & !((align - 1) as u64);
        &&& r & ((align - 1) as u64) == 0
        &&& addr <= r < addr + align
        &&& addr & ((align - 1) as u64) == 0 ==> r == addr
    }) by (bit_vector)
        requires
            align > 0 && align & ((align - 1) as u64) == 0 && addr + align - 1 <= u64::MAX,
    ;
}

/// The page size is a power of two.
pub proof fn lemma_page_size_pow2()
    ensures
        is_pow2(PAGE_SIZE),
{
    assert(4096u64 & 4095u64 == 0) by (bit_vector);
}

/// A fixed-size unit of physical memory, identified by the address of its
/// first byte.
#[derive(Debug, Clone, Copy, PartialEq, Eq, Structural)]
pub struct Frame {
    pub start_address: PhysAddr,
}

impl Frame {
    /// The frame that holds `address`: `address` rounded down to the nearest
    /// frame boundary.
    pub fn containing_address(address: PhysAddr) -> (r: Self)
        ensures
            r.start_address == spec_align_down(address, PAGE_SIZE),
            page_aligned(r.start_address),
    {
        proof {
            lemma_page_size_pow2();
        }
        let start = align_down(address, PAGE_SIZE);
        proof {
            assert((address & !0xfffu64) & 0xfff == 0) by (bit_vector);
        }
        Self { start_address: start }
    }
}

/// A fixed-size unit of virtual memory, identified by the address of its
/// first byte.
#[derive(Debug, Clone, Copy, PartialEq, Eq, Structural)]
pub struct Page {
    pub start_address: VirtAddr,
}

/// The pages from `start` to `end`, both bounds included. The sequence is
/// advanced by moving `start` up one page at a time; when `start` already sits
/// on the topmost page of the address space, `end` is moved down instead, so
/// the iteration ends without the start bound ever overflowing.
#[derive(Debug, Clone, Copy, PartialEq, Eq, Structural)]
pub struct IterPage {
    pub start: Page,
    pub end: Page,
}

impl Page {
    /// The page that holds `address`: `address` rounded down to the nearest
    /// page boundary.
    pub fn containing_address(address: VirtAddr) -> (r: Self)
        ensures
            r.start_address == spec_align_down(address, PAGE_SIZE),
            page_aligned(r.start_address),
            page_aligned(address) ==> r.start_address == address,
    {
        proof {
            lemma_page_size_pow2();
        }
        let start = align_down(address, PAGE_SIZE);
        proof {
            assert((address & !0xfffu64) & 0xfff == 0) by (bit_vector);
            assert(page_aligned(address) ==> (address & !0xfffu64) == address) by (bit_vector);
        }
        Self { start_address: start }
    }

    /// The inclusive range of pages from `start` to `end`.
    pub fn iter_pages(start: Page, end: Page) -> (r: IterPage)
        ensures
            r == (IterPage { start, end }),
    {
        IterPage { start, end }
    }
}

/// Every address `b` inside a page yields that page: rounding any address in
/// `[a, a + PAGE_SIZE)` down to a page boundary gives the boundary `a` itself.
pub proof fn lemma_containing_address_in_page(a: u64, b: u64)
    requires
        page_aligned(a),
        a <= b < a + PAGE_SIZE,
    ensures
        spec_align_down(b, PAGE_SIZE) == a,
        spec_align_down(a, PAGE_SIZE) == a,
{
    assert(a & 0xfff == 0 && a <= b < a + 4096 ==> (b & !0xfffu64) == a && (a & !0xfffu64) == a)
        by (bit_vector);
}

impl IterPage {
    /// Both bounds are page boundaries.
    pub open spec fn wf(self) -> bool {
        &&& page_aligned(self.start.start_address)
        &&& page_aligned(self.end.start_address)
    }

    /// How many pages are still to be yielded.
    pub open spec fn remaining(self) -> nat {
        if self.start.start_address <= self.end.start_address {
            ((self.end.start_address / PAGE_SIZE - self.start.start_address / PAGE_SIZE) + 1) as nat
        } else {
            0
        }
    }

    /// Yields the next page of the range, lowest address first, or `None`
    /// once the range is exhausted.
    pub fn next(&mut self) -> (r: Option<Page>)
        requires
            old(self).wf(),
        ensures
            final(self).wf(),
            old(self).remaining() == 0 ==> r is None && *final(self) == *old(self),
            old(self).remaining() > 0 ==> {
                &&& r == Some(old(self).start)
                &&& final(self).remaining() == old(self).remaining() - 1
                &&& final(self).remaining() > 0 ==> final(self).start.start_address == old(
                    self,
                ).start.start_address + PAGE_SIZE
            },
    {
        if self.start.start_address <= self.end.start_address {
            let page = self.start;
            let max_page_addr = u64::MAX - (PAGE_SIZE - 1);
            proof {
                lemma_iter_page_step(self.start.start_address, self.end.start_address);
            }
            if self.start.start_address < max_page_addr {
                self.start.start_address = self.start.start_address + PAGE_SIZE;
            } else {
                self.end.start_address = self.end.start_address - PAGE_SIZE;
            }
            Some(page)
        } else {
            None
        }
    }
}

/// The arithmetic behind one step of `IterPage::next`: advancing the start
/// bound (or, at the very top of the address space, shrinking the end bound)
/// lowers the number of pages left by exactly one.
proof fn lemma_iter_page_step(s: u64, e: u64)
    requires
        s & 0xfff == 0,
        e & 0xfff == 0,
        s <= e,
    ensures
        s < u64::MAX - 0xfff ==> s + 4096 <= u64::MAX,
        s < u64::MAX - 0xfff && s + 4096 <= e ==> (e / 4096 - (s + 4096) / 4096) + 1 == (e / 4096
            - s / 4096),
        s < u64::MAX - 0xfff && s + 4096 > e ==> e / 4096 - s / 4096 == 0,
        s >= u64::MAX - 0xfff ==> s == e && e >= 4096 && ((e - 4096) as u64) < s,
        s < u64::MAX - 0xfff ==> ((s + 4096) as u64) & 0xfff == 0,
        e >= 4096 ==> ((e - 4096) as u64) & 0xfff == 0,
{
    assert({
        &&& (s < u64::MAX - 0xfff ==> s + 4096 <= u64::MAX)
        &&& (s < u64::MAX - 0xfff && s + 4096 <= e ==> (e / 4096 - ((s + 4096) as u64) / 4096) + 1
            == (e / 4096 - s / 4096))
        &&& (s < u64::MAX - 0xfff && s + 4096 > e ==> e / 4096 - s / 4096 == 0)
        &&& (s >= u64::MAX - 0xfff ==> s == e && e >= 4096 && ((e - 4096) as u64) < s)
        &&& (s < u64::MAX - 0xfff ==> ((s + 4096) as u64) & 0xfff == 0)
        &&& (e >= 4096 ==> ((e - 4096) as u64) & 0xfff == 0)
    }) by (bit_vector)
        requires
            s & 0xfff == 0 && e & 0xfff == 0 && s <= e,
    ;
}

/// A one-page range yields exactly one page.
pub proof fn lemma_iter_single_page(p: Page)
    ensures
        (IterPage { start: p, end: p }).remaining() == 1,
{
}

/// Exhausts a page range and reports how many pages it yielded. The range may
/// end at the topmost page of the address space: the count is still the
/// number of pages between the bounds, inclusive, and no step overflows.
pub fn count_pages(iter: IterPage) -> (r: u64)
    requires
        iter.wf(),
    ensures
        r == iter.remaining(),
{
    let mut it = iter;
    let mut count: u64 = 0;
    proof {
        let s = iter.start.start_address;
        let e = iter.end.start_address;
        assert(s <= e ==> e / 4096 - s / 4096 < 0x10_0000_0000_0000) by (bit_vector);
    }
    loop
        invariant
            it.wf(),
            count + it.remaining() == iter.remaining(),
            count <= iter.remaining(),
        decreases it.remaining(),
    {
        match it.next() {
            Some(_) => {
                count = count + 1;
            },
            None => {
                return count;
            },
        }
    }
}

} // verus!
