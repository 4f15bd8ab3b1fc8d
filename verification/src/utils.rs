//! Small address helpers.
use vstd::prelude::*;
use crate::consts::{DIRECT_MAP_START, PAGE_SIZE};

verus! {

/// Number of pages in a block of the given order: two to the power `order`.
pub open spec fn spec_order2pages(order: int) -> int
    decreases order,
{
    if order <= 0 {
        1
    } else {
        2 * spec_order2pages(order - 1)
    }
}

/// The block sizes of the orders the frame allocator uses.
pub proof fn lemma_order2pages_values()
    ensures
        spec_order2pages(0) == 1,
        spec_order2pages(1) == 2,
        spec_order2pages(2) == 4,
        spec_order2pages(3) == 8,
        spec_order2pages(4) == 16,
        spec_order2pages(5) == 32,
        spec_order2pages(6) == 64,
        spec_order2pages(7) == 128,
        spec_order2pages(8) == 256,
        spec_order2pages(9) == 512,
        spec_order2pages(10) == 1024,
        spec_order2pages(11) == 2048,
{
    reveal_with_fuel(spec_order2pages, 13);
}

/// A block of a higher order is at least as large.
pub proof fn lemma_order2pages_monotone(a: int, b: int)
    requires
        a <= b,
    ensures
        1 <= spec_order2pages(a) <= spec_order2pages(b),
    decreases b,
{
    if b <= 0 {
    } else if a == b {
        lemma_order2pages_monotone(a - 1, b - 1);
    } else {
        lemma_order2pages_monotone(a, b - 1);
    }
}

proof fn lemma_order2pages_30()
    ensures
        spec_order2pages(30) == 0x4000_0000,
{
    lemma_order2pages_values();
    assert(spec_order2pages(20) == 0x10_0000) by {
        reveal_with_fuel(spec_order2pages, 10);
    }
    assert(spec_order2pages(30) == 0x4000_0000) by {
        reveal_with_fuel(spec_order2pages, 11);
    }
}

/// Number of pages in a block of the given order.
pub fn order2pages(order: usize) -> (pgs: usize)
    requires
        order < 32,
    ensures
        pgs == spec_order2pages(order as int),
        1 <= pgs <= 0x8000_0000,
{
    let mut pgs: usize = 1;
    let mut i: usize = 0;
    while i < order
        invariant
            i <= order,
            order < 32,
            pgs == spec_order2pages(i as int),
        decreases order - i,
    {
        proof {
            lemma_order2pages_monotone(i as int, 30);
            lemma_order2pages_30();
        }
        pgs = pgs * 2;
        i = i + 1;
    }
    proof {
        lemma_order2pages_monotone(order as int, 31);
        lemma_order2pages_30();
        lemma_order2pages_monotone(0, order as int);
    }
    pgs
}

/// The start of the next page, or `addr` itself if it starts a page: the
/// least multiple of `PAGE_SIZE` that is not below `addr`.
pub fn addr_page_align_upper(addr: u64) -> (ret: u64)
    requires
        addr <= u64::MAX - 4095,
    ensures
        ret % 4096 == 0,
        addr <= ret < addr + 4096,
{
    let rest = addr % 4096u64;
    if rest == 0 {
        addr
    } else {
        addr - rest + 4096u64
    }
}

/// The start of the page that holds `addr`: the greatest multiple of
/// `PAGE_SIZE` that is not above `addr`.
pub fn addr_page_align_lower(addr: u64) -> (ret: u64)
    ensures
        ret % 4096 == 0,
        ret <= addr < ret + 4096,
{
    addr - addr % 4096u64
}

/// The physical address behind an address of the direct map.
pub fn vaddr2paddr(addr: u64) -> (ret: u64)
    requires
        addr >= DIRECT_MAP_START,
    ensures
        ret == addr - DIRECT_MAP_START,
{
    addr - DIRECT_MAP_START
}

/// The address in the direct map of a physical address.
pub fn paddr2vaddr(addr: u64) -> (ret: u64)
    requires
        addr + DIRECT_MAP_START <= u64::MAX,
    ensures
        ret == addr + DIRECT_MAP_START,
{
    addr + DIRECT_MAP_START
}

/// Index into the last-level table: bits 12 to 20 of the address.
pub open spec fn spec_ppn0(vaddr: u64) -> u64 {
    (vaddr >> 12) & 0x1FF
}

/// Index into the middle table: bits 21 to 29 of the address.
pub open spec fn spec_ppn1(vaddr: u64) -> u64 {
    (vaddr >> 21) & 0x1FF
}

/// Index into the root table: bits 30 to 38 of the address.
pub open spec fn spec_ppn2(vaddr: u64) -> u64 {
    (vaddr >> 30) & 0x1FF
}

pub fn addr_get_ppn0(vaddr: u64) -> (ret: u64)
    ensures
        ret == spec_ppn0(vaddr),
        ret < 512,
{
    assert((vaddr >> 12) & 0x1FF < 512) by (bit_vector);
    (vaddr >> 12) & 0x1FF
}

pub fn addr_get_ppn1(vaddr: u64) -> (ret: u64)
    ensures
        ret == spec_ppn1(vaddr),
        ret < 512,
{
    assert((vaddr >> 21) & 0x1FF < 512) by (bit_vector);
    (vaddr >> 21) & 0x1FF
}

pub fn addr_get_ppn2(vaddr: u64) -> (ret: u64)
    ensures
        ret == spec_ppn2(vaddr),
        ret < 512,
{
    assert((vaddr >> 30) & 0x1FF < 512) by (bit_vector);
    (vaddr >> 30) & 0x1FF
}

} // verus!
