//! Physical frames, page tables and address spaces.
//!
//! The `MemoryManager` joins the three parts that stand for physical memory:
//! the buddy allocator, which knows the free frames; the registry, which
//! knows the frames in use and their holders; and the window through which
//! the frames are read and written.
use vstd::prelude::*;

pub mod addr;
pub mod bitmap;
pub mod buddy_model;
pub mod buddy_laws;
pub mod buddy;
pub mod phys;
pub mod page;
pub mod pte;
pub mod pagetable;
pub mod step;
pub mod vma;
pub mod mm;
pub mod fault;
pub mod cow;
pub mod cow_laws;
pub mod auxv;
pub mod elf;
pub mod kmap;

use crate::consts::{MAX_ORDER, PAGE_SIZE, PHY_MEM_OFFSET};
use crate::mm::addr::{spec_ceil, spec_floor, PageAlign, Vaddr};
use crate::mm::buddy::{spec_block_addr, spec_block_bytes, BuddyAllocator};
use crate::mm::buddy_model::{
    lemma_allocate, lemma_ancestor_nonneg, lemma_ancestor_range, lemma_first_page, lemma_release, spec_ancestor,
    spec_first_page, spec_in_range,
};
use crate::mm::page::{
    lemma_block_pages, spec_drop_block, spec_in_block, spec_take_block, Page, PageSlot, PagesManager,
};
use crate::mm::phys::PhysMemory;
use crate::utils::{lemma_order2pages_monotone, lemma_order2pages_values, spec_order2pages};

verus! {

/// Physical memory as the kernel manages it.
pub struct MemoryManager {
    pub buddy: BuddyAllocator,
    pub pages: PagesManager,
    pub ram: PhysMemory,
}

impl MemoryManager {
    /// The invariant: the three parts are well-formed and speak of the same
    /// range, which lies in the direct map, and no frame in use is free.
    pub open spec fn wf(&self) -> bool {
        &&& self.buddy.wf()
        &&& self.pages.wf()
        &&& self.ram.wf()
        &&& self.buddy@.start == self.pages.spec_start()
        &&& self.buddy@.start == self.ram.spec_start()
        &&& self.pages@.len() == self.buddy@.pages
        &&& self.ram@.len() == self.buddy@.pages * 4096
        &&& self.buddy@.start >= PHY_MEM_OFFSET
        &&& forall|p: int|
            0 <= p < self.pages@.len() && (#[trigger] self.pages@[p]) is Some ==> !self.buddy@.page_free(p)
    }

    /// The address of the first managed frame.
    pub open spec fn spec_start(&self) -> int {
        self.buddy@.start
    }

    /// The index of the frame that holds `addr`.
    pub open spec fn spec_index(&self, addr: int) -> int {
        (addr - self.buddy@.start) / 4096
    }

    /// Whether `addr` is the address of a managed frame.
    pub open spec fn spec_is_frame(&self, addr: int) -> bool {
        &&& addr % 4096 == 0
        &&& self.buddy@.start <= addr
        &&& addr + 4096 <= self.buddy@.start + self.buddy@.pages * 4096
    }

    /// Whether the frame at `addr` is free.
    pub open spec fn spec_frame_free(&self, addr: int) -> bool {
        self.buddy@.page_free(self.spec_index(addr))
    }

    /// Whether `addr` is the address of a managed frame that is in use.
    pub open spec fn spec_frame_in_use(&self, addr: int) -> bool {
        self.spec_is_frame(addr) && self.pages@[self.spec_index(addr)] is Some
    }

    /// Whether `addr` is the address of a managed frame that is in use.
    pub fn frame_in_use(&self, addr: Vaddr) -> (b: bool)
        requires
            self.wf(),
        ensures
            b == self.spec_frame_in_use(addr.0 as int),
            b ==> !self.spec_frame_free(addr.0 as int),
    {
        proof {
            self.buddy.lemma_wf();
            if addr.0 % 4096 == 0 && addr.0 >= self.buddy@.start {
                crate::mm::vma::lemma_aligned_place(self.buddy@.start, addr.0 as int);
            }
        }
        self.pages.in_use(addr)
    }

    /// Memory management over the whole frames between `start_addr` and
    /// `end_addr`: all frames free, none in use, all bytes zero.
    pub fn new(start_addr: Vaddr, end_addr: Vaddr) -> (mem: MemoryManager)
        requires
            PHY_MEM_OFFSET <= start_addr.0,
            spec_ceil(start_addr.0 as int) <= spec_floor(end_addr.0 as int),
            (spec_floor(end_addr.0 as int) - spec_ceil(start_addr.0 as int)) <= usize::MAX / 16,
        ensures
            mem.wf(),
            mem.buddy@.start == spec_ceil(start_addr.0 as int),
            mem.buddy@.pages == (spec_floor(end_addr.0 as int) - spec_ceil(start_addr.0 as int)) / 4096,
            mem.buddy@.all_free(),
            mem.buddy@.free_pages_from(0) == mem.buddy@.pages,
            forall|i: int| 0 <= i < mem.pages@.len() ==> mem.pages@[i] is None,
            forall|i: int| 0 <= i < mem.ram@.len() ==> mem.ram@[i] == 0,
    {
        let s_addr = start_addr.ceil();
        let e_addr = end_addr.floor();
        let buddy = BuddyAllocator::new(s_addr, e_addr);
        let pages = PagesManager::new(s_addr, e_addr);
        let len = (e_addr.0 - s_addr.0) as usize;
        let ram = PhysMemory::new(s_addr, len);
        proof {
            buddy.lemma_wf();
        }
        MemoryManager { buddy, pages, ram }
    }
}

/// What an allocation of order `order` that handed out `page` has done to
/// the memory: the frames of the block were free and are in use now, held
/// once; they hold zeros; and all other frames are as they were.
pub open spec fn spec_allocated(before: &MemoryManager, after: &MemoryManager, order: int, page: &Page) -> bool {
    let idx = before.spec_index(page.vaddr.0 as int);
    &&& page.wf()
    &&& page.is_leader_flag
    &&& page.inner.order == order
    &&& page.inner.pos == 0
    &&& before.buddy@.allocate(order).1 is Some
    &&& page.vaddr.0 == spec_block_addr(before.buddy@.start, order, before.buddy@.allocate(order).1->0)
    &&& idx == spec_first_page(before.buddy@.allocate(order).1->0, order)
    &&& before.spec_is_frame(page.vaddr.0 as int)
    &&& before.ram.spec_contains(page.vaddr.0 as int, page.spec_max_pos())
    &&& after.pages.spec_holds(page)
    &&& after.pages@ == spec_take_block(before.pages@, idx, order)
    &&& before.ram.same_but(&after.ram, page.vaddr.0 as int, page.spec_max_pos())
    &&& forall|a: int|
        page.vaddr.0 <= a < page.vaddr.0 + page.spec_max_pos() ==> #[trigger] after.ram.spec_byte(a) == 0
    &&& forall|p: int| #[trigger] spec_in_block(p, idx, order) ==> before.buddy@.page_free(p) && before.pages@[p] is None
    &&& forall|p: int|
        0 <= p ==> (#[trigger] after.buddy@.page_free(p) <==> before.buddy@.page_free(p) && !spec_in_block(
            p,
            idx,
            order,
        ))
}

/// Allocates a block of `2^order` frames, takes it into use and fills it
/// with zeros. Fails, changing nothing, where `order` is no order of the
/// allocator or no order from `order` up has a free block.
pub fn alloc_pages(mem: &mut MemoryManager, order: usize) -> (r: Option<Page>)
    requires
        old(mem).wf(),
    ensures
        final(mem).wf(),
        final(mem).buddy@ == old(mem).buddy@.allocate(order as int).0,
        r is None <==> old(mem).buddy@.allocate(order as int).1 is None,
        r is None <==> old(mem).buddy@.first_nonempty(order as int) == MAX_ORDER,
        r is None ==> final(mem).pages@ == old(mem).pages@ && final(mem).ram == old(mem).ram,
        r matches Some(pg) ==> spec_allocated(old(mem), final(mem), order as int, &pg),
{
    proof {
        mem.buddy.lemma_wf();
        lemma_allocate(mem.buddy@, order as int);
    }
    if order >= MAX_ORDER {
        return None;
    }
    let area = mem.buddy.alloc_area(order);
    return match area {
        Ok(vaddr) => {
            let ghost k = old(mem).buddy@.allocate(order as int).1->0;
            let ghost start = old(mem).buddy@.start;
            let ghost pgs = spec_order2pages(order as int);
            let ghost idx = k * pgs;
            proof {
                lemma_order2pages_values();
                lemma_order2pages_monotone(order as int, 10);
                lemma_order2pages_monotone(0, order as int);
                assert(spec_in_range(order as int, k, old(mem).buddy@.pages));
                assert(k * (pgs * 4096) == (k * pgs) * 4096) by (nonlinear_arith);
                assert((k + 1) * pgs == k * pgs + pgs) by (nonlinear_arith);
                assert(0 <= k * pgs) by (nonlinear_arith)
                    requires
                        0 <= k,
                        0 < pgs,
                ;
                assert(vaddr.0 - start == idx * 4096);
                assert(old(mem).pages.spec_index(vaddr.0 as int) == idx);
                lemma_first_page(k, order as int);
                lemma_ancestor_range(idx, order as int, k);
                assert(idx == spec_first_page(k, order as int));
                assert(spec_ancestor(idx, order as int) == k);
                assert forall|p: int| #[trigger] spec_in_block(p, idx, order as int) implies p < old(mem).pages@.len()
                    && old(mem).pages@[p] is None && old(mem).buddy@.page_free(p) by {
                    lemma_block_pages(idx, order as int, p);
                    assert(spec_ancestor(p, order as int) == k);
                    assert(old(mem).buddy@.page_free(p));
                }
            }
            let pgs_block = mem.pages.new_pages_block_in_memory(vaddr, order);
            pgs_block.clear_pages_block(&mut mem.ram);
            proof {
                assert forall|p: int| 0 <= p < mem.pages@.len() && (#[trigger] mem.pages@[p]) is Some implies 
                    !mem.buddy@.page_free(p) by {
                    if !spec_in_block(p, idx, order as int) {
                        assert(old(mem).pages@[p] is Some);
                    }
                }
            }
            Some(pgs_block)
        },
        _ => None,
    }
}

/// Allocates one frame.
pub fn alloc_one_page(mem: &mut MemoryManager) -> (r: Option<Page>)
    requires
        old(mem).wf(),
    ensures
        final(mem).wf(),
        final(mem).buddy@ == old(mem).buddy@.allocate(0).0,
        r is None <==> old(mem).buddy@.allocate(0).1 is None,
        r is None <==> old(mem).buddy@.first_nonempty(0) == MAX_ORDER,
        r is None <==> old(mem).buddy@.free_pages_from(0) == 0,
        r is None ==> final(mem).pages@ == old(mem).pages@ && final(mem).ram == old(mem).ram,
        r matches Some(pg) ==> spec_allocated(old(mem), final(mem), 0, &pg),
        r is Some ==> final(mem).buddy@.free_pages_from(0) == old(mem).buddy@.free_pages_from(0) - 1,
{
    proof {
        mem.buddy.lemma_wf();
        crate::mm::buddy_model::lemma_allocate_count(mem.buddy@, 0);
        lemma_order2pages_values();
    }
    let r = alloc_pages(mem, 0);
    proof {
        mem.buddy.lemma_wf();
        crate::mm::buddy_model::lemma_allocate_count(mem.buddy@, 0);
    }
    r
}

/// Lets go of one hold on the block that `page` leads. With the last hold
/// the frames of the block leave the registry and become free again. A
/// placeholder, and a page that leads no block, hold nothing.
pub fn free_pages(mem: &mut MemoryManager, page: Page)
    requires
        old(mem).wf(),
        !page.default_flag && page.is_leader_flag ==> old(mem).pages.spec_holds(&page),
    ensures
        final(mem).wf(),
        final(mem).ram == old(mem).ram,
        final(mem).buddy@.start == old(mem).buddy@.start,
        final(mem).buddy@.pages == old(mem).buddy@.pages,
        page.default_flag || !page.is_leader_flag ==> final(mem).pages@ == old(mem).pages@ && final(mem).buddy@
            == old(mem).buddy@,
        !page.default_flag && page.is_leader_flag ==> {
            let idx = old(mem).spec_index(page.vaddr.0 as int);
            let s = old(mem).pages@[idx]->0;
            &&& s.refs > 1 ==> final(mem).buddy@ == old(mem).buddy@ && final(mem).pages@ == old(mem).pages@.update(
                idx,
                Some(PageSlot { refs: (s.refs - 1) as usize, ..s }),
            )
            &&& s.refs == 1 ==> {
                &&& final(mem).pages@ == spec_drop_block(old(mem).pages@, idx, page.inner.order as int)
                &&& final(mem).buddy@ == old(mem).buddy@.release(
                    page.inner.order as int,
                    spec_ancestor(idx, page.inner.order as int),
                )
                &&& final(mem).buddy@.free_pages_from(0) == old(mem).buddy@.free_pages_from(0) + spec_order2pages(
                    page.inner.order as int,
                )
                &&& forall|p: int|
                    0 <= p ==> (#[trigger] final(mem).buddy@.page_free(p) <==> old(mem).buddy@.page_free(p)
                        || spec_in_block(p, idx, page.inner.order as int))
            }
        },
{
    proof {
        mem.buddy.lemma_wf();
    }
    match mem.pages.release(&page) {
        Some((vaddr, order)) => {
            let ghost idx = old(mem).spec_index(vaddr.0 as int);
            let ghost k = spec_ancestor(idx, order as int);
            let ghost pgs = spec_order2pages(order as int);
            let ghost start = old(mem).buddy@.start;
            proof {
                lemma_order2pages_values();
                lemma_order2pages_monotone(order as int, 10);
                lemma_order2pages_monotone(0, order as int);
                let s = old(mem).pages@[idx]->0;
                assert(old(mem).pages@[idx] is Some);
                lemma_ancestor_nonneg(idx, order as int);
                lemma_ancestor_range(idx, order as int, k);
                assert(idx == k * pgs);
                assert(k * (pgs * 4096) == (k * pgs) * 4096) by (nonlinear_arith);
                assert((k * (pgs * 4096)) % (pgs * 4096) == 0) by {
                    vstd::arithmetic::div_mod::lemma_mod_multiples_basic(k, pgs * 4096);
                }
                assert((k * (pgs * 4096)) / (pgs * 4096) == k) by {
                    vstd::arithmetic::div_mod::lemma_div_by_multiple(k, pgs * 4096);
                }
                assert(vaddr.0 - start == idx * 4096);
                lemma_block_pages(idx, order as int, idx + pgs - 1);
                assert(spec_in_block(idx + pgs - 1, s.leader as int, s.order as int));
                assert(idx + pgs <= old(mem).pages@.len());
                assert(mem.buddy.spec_valid_block(vaddr.0 as int, order as int));
                assert(mem.buddy.spec_block_index(vaddr.0 as int, order as int) == k);
                assert((k + 1) * pgs == k * pgs + pgs) by (nonlinear_arith);
                assert(spec_in_range(order as int, k, mem.buddy@.pages));
                assert forall|p: int| 0 <= p && #[trigger] spec_ancestor(p, order as int) == k implies 
                    !mem.buddy@.page_free(p) by {
                    assert(spec_in_block(p, s.leader as int, s.order as int));
                    assert(old(mem).pages@[p] is Some);
                }
                lemma_release(mem.buddy@, order as int, k);
            }
            let r = mem.buddy.free_area(vaddr, order);
            proof {
                assert forall|p: int| 0 <= p < mem.pages@.len() && (#[trigger] mem.pages@[p]) is Some implies 
                    !mem.buddy@.page_free(p) by {
                    assert(!spec_in_block(p, idx, order as int));
                    assert(old(mem).pages@[p] is Some);
                }
            }
        },
        None => {
            proof {
                if !page.default_flag && page.is_leader_flag {
                    let idx = old(mem).spec_index(page.vaddr.0 as int);
                    assert forall|p: int| 0 <= p < mem.pages@.len() && (#[trigger] mem.pages@[p]) is Some implies 
                        !mem.buddy@.page_free(p) by {
                        assert(old(mem).pages@[p] is Some);
                    }
                }
            }
        },
    }
}

} // verus!
