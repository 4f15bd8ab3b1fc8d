//! How one operation on an address space may change the memory, seen from
//! whoever else holds frames and page tables in it.
use vstd::prelude::*;
use crate::mm::{spec_allocated, MemoryManager};
use crate::mm::page::{spec_drop_block, spec_in_block, Page, PageSlot};
use crate::mm::pagetable::{lemma_kept, spec_frame_of, spec_grown, spec_kept, spec_vpn, PageTable};

verus! {

/// A step from the page table `pt0` over the memory `mem0` to `pt1` over
/// `mem1`. The page table is well-formed after it, over the same range, and
/// manages the same part of the same root. It has kept its tables, and the
/// tables that it has gained were free frames, or among the frames `given`.
/// A frame that was not free and is not among `given` is still not free,
/// is recorded as before, and, unless it is a table, holds what it held.
/// Every address is mapped as before, but for those on the pages `touched`.
#[verifier::opaque]
pub open spec fn spec_step(
    pt0: PageTable,
    mem0: MemoryManager,
    pt1: PageTable,
    mem1: MemoryManager,
    touched: Set<u64>,
    given: Set<int>,
) -> bool {
    &&& pt1.wf(&mem1)
    &&& pt1.spec_root() == pt0.spec_root()
    &&& pt1.spec_first_index() == pt0.spec_first_index()
    &&& pt1.spec_end_index() == pt0.spec_end_index()
    &&& mem1.buddy@.start == mem0.buddy@.start
    &&& mem1.buddy@.pages == mem0.buddy@.pages
    &&& forall|t: int| #[trigger] pt0.spec_tables().contains(t) ==> pt1.spec_tables().contains(t)
    &&& forall|t: int| #[trigger]
        pt1.spec_tables().contains(t) && !pt0.spec_tables().contains(t) ==> mem0.spec_is_frame(t) && (
        mem0.spec_frame_free(t) || given.contains(mem0.spec_index(t)))
    &&& forall|p: int|
        0 <= p < mem0.pages@.len() && !mem0.buddy@.page_free(p) && !given.contains(p) ==> #[trigger] mem1.pages@[p]
            == mem0.pages@[p] && !mem1.buddy@.page_free(p)
    &&& forall|a: int|
        mem0.ram.spec_contains(a, 1) && !mem0.buddy@.page_free(mem0.spec_index(a)) && !given.contains(
            mem0.spec_index(a),
        ) && !pt1.spec_tables().contains(spec_frame_of(a)) ==> #[trigger] mem1.ram.spec_byte(a)
            == mem0.ram.spec_byte(a)
    &&& forall|v: u64|
        pt0.spec_covers(v) && !touched.contains(spec_vpn(v)) ==> #[trigger] pt1.spec_translate(&mem1, v)
            == pt0.spec_translate(&mem0, v)
}

/// What a step means, for use where its definition is out of sight.
pub proof fn lemma_step(
    pt0: PageTable,
    mem0: MemoryManager,
    pt1: PageTable,
    mem1: MemoryManager,
    touched: Set<u64>,
    given: Set<int>,
    v: u64,
    p: int,
)
    requires
        spec_step(pt0, mem0, pt1, mem1, touched, given),
    ensures
        pt1.wf(&mem1),
        pt1.spec_root() == pt0.spec_root(),
        pt1.spec_first_index() == pt0.spec_first_index(),
        pt1.spec_end_index() == pt0.spec_end_index(),
        pt1.spec_covers(v) == pt0.spec_covers(v),
        mem1.buddy@.start == mem0.buddy@.start,
        mem1.buddy@.pages == mem0.buddy@.pages,
        pt0.spec_covers(v) && !touched.contains(spec_vpn(v)) ==> pt1.spec_translate(&mem1, v) == pt0.spec_translate(
            &mem0,
            v,
        ),
        0 <= p < mem0.pages@.len() && !mem0.buddy@.page_free(p) && !given.contains(p) ==> mem1.pages@[p]
            == mem0.pages@[p] && !mem1.buddy@.page_free(p),
{
    reveal(spec_step);
}

/// Nothing is a step.
pub proof fn lemma_step_refl(pt0: PageTable, mem0: MemoryManager)
    requires
        pt0.wf(&mem0),
    ensures
        spec_step(pt0, mem0, pt0, mem0, Set::empty(), Set::empty()),
{
    reveal(spec_step);
}

/// A step that touches some pages and gives some frames is a step that
/// touches and gives more.
pub proof fn lemma_step_more(
    pt0: PageTable,
    mem0: MemoryManager,
    pt1: PageTable,
    mem1: MemoryManager,
    touched: Set<u64>,
    given: Set<int>,
    touched2: Set<u64>,
    given2: Set<int>,
)
    requires
        spec_step(pt0, mem0, pt1, mem1, touched, given),
        touched.subset_of(touched2),
        given.subset_of(given2),
    ensures
        spec_step(pt0, mem0, pt1, mem1, touched2, given2),
{
    reveal(spec_step);
}

/// Two steps in a row are one.
pub proof fn lemma_step_trans(
    pt0: PageTable,
    mem0: MemoryManager,
    pt1: PageTable,
    mem1: MemoryManager,
    pt2: PageTable,
    mem2: MemoryManager,
    touched1: Set<u64>,
    given1: Set<int>,
    touched2: Set<u64>,
    given2: Set<int>,
)
    requires
        mem0.wf(),
        spec_step(pt0, mem0, pt1, mem1, touched1, given1),
        spec_step(pt1, mem1, pt2, mem2, touched2, given2),
    ensures
        spec_step(pt0, mem0, pt2, mem2, touched1.union(touched2), given1.union(given2)),
{
    reveal(spec_step);
    mem0.buddy.lemma_wf();
    mem1.buddy.lemma_wf();
    let given = given1.union(given2);
    assert forall|t: int| #[trigger] pt2.spec_tables().contains(t) && !pt0.spec_tables().contains(t) implies 
        mem0.spec_is_frame(t) && (mem0.spec_frame_free(t) || given.contains(mem0.spec_index(t))) by {
        if !pt1.spec_tables().contains(t) {
            let p = mem0.spec_index(t);
            assert(mem1.spec_is_frame(t));
            if !mem0.buddy@.page_free(p) && !given1.contains(p) {
                assert(mem1.pages@[p] == mem0.pages@[p]);
            }
        }
    }
    assert forall|p: int|
        0 <= p < mem0.pages@.len() && !mem0.buddy@.page_free(p) && !given.contains(p) implies #[trigger] mem2.pages@[p]
        == mem0.pages@[p] && !mem2.buddy@.page_free(p) by {
        assert(mem1.pages@[p] == mem0.pages@[p]);
    }
    assert forall|a: int|
        mem0.ram.spec_contains(a, 1) && !mem0.buddy@.page_free(mem0.spec_index(a)) && !given.contains(
            mem0.spec_index(a),
        ) && !pt2.spec_tables().contains(spec_frame_of(a)) implies #[trigger] mem2.ram.spec_byte(a)
        == mem0.ram.spec_byte(a) by {
        let p = mem0.spec_index(a);
        assert(mem1.pages@[p] == mem0.pages@[p]);
        assert(mem1.ram.spec_byte(a) == mem0.ram.spec_byte(a));
    }
    assert forall|v: u64|
        pt0.spec_covers(v) && !touched1.union(touched2).contains(spec_vpn(v)) implies #[trigger] pt2.spec_translate(
        &mem2,
        v,
    ) == pt0.spec_translate(&mem0, v) by {
        assert(pt1.spec_translate(&mem1, v) == pt0.spec_translate(&mem0, v));
    }
}

/// Growth of the page table is a step that gives no frame.
pub proof fn lemma_step_from_grown(
    pt0: PageTable,
    mem0: MemoryManager,
    pt1: PageTable,
    mem1: MemoryManager,
    touched: Set<u64>,
)
    requires
        pt0.wf(&mem0),
        spec_grown(pt0, mem0, pt1, mem1, touched),
    ensures
        spec_step(pt0, mem0, pt1, mem1, touched, Set::empty()),
{
    reveal(spec_step);
    reveal(spec_grown);
    mem0.buddy.lemma_wf();
    assert forall|p: int|
        0 <= p < mem0.pages@.len() && !mem0.buddy@.page_free(p) implies #[trigger] mem1.pages@[p] == mem0.pages@[p]
        && !mem1.buddy@.page_free(p) by {
        let t = mem0.buddy@.start + p * 4096;
        if pt1.spec_tables().contains(t) && !pt0.spec_tables().contains(t) {
            assert(mem0.spec_frame_free(t));
            assert(mem0.spec_index(t) == p);
        }
    }
}

/// A change of the memory that leaves the tables of the page table alone,
/// and leaves every frame alone that was not free, but for the frames
/// `given`, is a step.
pub proof fn lemma_step_from_kept(pt: PageTable, mem0: MemoryManager, mem1: MemoryManager, given: Set<int>)
    requires
        pt.wf(&mem0),
        spec_kept(pt, mem0, mem1),
        forall|p: int|
            0 <= p < mem0.pages@.len() && !mem0.buddy@.page_free(p) && !given.contains(p) ==> #[trigger] mem1.pages@[p]
                == mem0.pages@[p] && !mem1.buddy@.page_free(p),
        forall|a: int|
            mem0.ram.spec_contains(a, 1) && !mem0.buddy@.page_free(mem0.spec_index(a)) && !given.contains(
                mem0.spec_index(a),
            ) ==> #[trigger] mem1.ram.spec_byte(a) == mem0.ram.spec_byte(a),
    ensures
        spec_step(pt, mem0, pt, mem1, Set::empty(), given),
{
    reveal(spec_step);
    lemma_kept(pt, mem0, mem1);
}

/// The allocation of a block is a step.
pub proof fn lemma_step_from_alloc(pt: PageTable, mem0: MemoryManager, mem1: MemoryManager, order: int, page: Page)
    requires
        pt.wf(&mem0),
        mem1.wf(),
        mem1.buddy@.start == mem0.buddy@.start,
        mem1.buddy@.pages == mem0.buddy@.pages,
        spec_allocated(&mem0, &mem1, order, &page),
    ensures
        spec_step(pt, mem0, pt, mem1, Set::empty(), Set::empty()),
        spec_kept(pt, mem0, mem1),
        pt.wf(&mem1),
        forall|t: int| #[trigger]
            pt.spec_tables().contains(t) ==> !spec_in_block(
                mem0.spec_index(t),
                mem0.spec_index(page.vaddr.0 as int),
                order,
            ),
{
    mem0.buddy.lemma_wf();
    mem1.buddy.lemma_wf();
    crate::mm::buddy_model::lemma_allocate(mem0.buddy@, order);
    let idx = mem0.spec_index(page.vaddr.0 as int);
    // a frame of the block was free, so it is no table, and it lies in the block's range
    assert forall|a: int|
        mem0.ram.spec_contains(a, 1) && !mem0.buddy@.page_free(mem0.spec_index(a)) implies #[trigger] mem1.ram.spec_byte(
        a,
    ) == mem0.ram.spec_byte(a) && !(page.vaddr.0 <= a < page.vaddr.0 + page.spec_max_pos()) by {
        let p = mem0.spec_index(a);
        crate::mm::page::lemma_block_pages(idx, order, p);
        crate::mm::buddy_model::lemma_ancestor_range(idx, order, mem0.buddy@.allocate(order).1->0);
        crate::mm::buddy_model::lemma_first_page(mem0.buddy@.allocate(order).1->0, order);
        assert(!spec_in_block(p, idx, order));
        crate::utils::lemma_order2pages_monotone(0, order);
        assert(page.spec_max_pos() == crate::utils::spec_order2pages(order) * 4096);
        assert(a < page.vaddr.0 || a >= page.vaddr.0 + page.spec_max_pos());
    }
    assert forall|t: int| #[trigger] pt.spec_tables().contains(t) implies !spec_in_block(mem0.spec_index(t), idx, order) by {
        assert(!mem0.spec_frame_free(t));
    }
    assert forall|p: int|
        0 <= p < mem0.pages@.len() && !mem0.buddy@.page_free(p) implies #[trigger] mem1.pages@[p] == mem0.pages@[p]
        && !mem1.buddy@.page_free(p) by {
        assert(!spec_in_block(p, idx, order));
    }
    assert(spec_kept(pt, mem0, mem1)) by {
        assert forall|a: int|
            mem0.ram.spec_contains(a, 1) && pt.spec_tables().contains(spec_frame_of(a)) implies #[trigger] mem1.ram.spec_byte(
            a,
        ) == mem0.ram.spec_byte(a) by {
            assert(!mem0.spec_frame_free(spec_frame_of(a)));
            assert(mem0.spec_index(a) == mem0.spec_index(spec_frame_of(a)));
        }
        assert forall|t: int| #[trigger] pt.spec_tables().contains(t) implies !mem1.spec_frame_free(t) by {
            assert(!mem0.spec_frame_free(t));
        }
    }
    lemma_step_from_kept(pt, mem0, mem1, Set::empty());
    lemma_kept(pt, mem0, mem1);
}

/// Whether `page` is a frame of its own, held once, that is no table of the
/// page table.
pub open spec fn spec_frame_ok(page: Page, pt: &PageTable, mem: &MemoryManager) -> bool {
    &&& page.wf()
    &&& page.is_leader_flag
    &&& page.inner.order == 0
    &&& mem.pages.spec_holds(&page)
    &&& mem.pages@[mem.spec_index(page.vaddr.0 as int)]->0.refs == 1
    &&& !pt.spec_tables().contains(page.vaddr.0 as int)
}

/// A frame that is held stays as it is through a step that does not give
/// it.
pub proof fn lemma_frame_step(
    page: Page,
    pt0: PageTable,
    mem0: MemoryManager,
    pt1: PageTable,
    mem1: MemoryManager,
    touched: Set<u64>,
    given: Set<int>,
)
    requires
        mem0.wf(),
        spec_frame_ok(page, &pt0, &mem0),
        spec_step(pt0, mem0, pt1, mem1, touched, given),
        !given.contains(mem0.spec_index(page.vaddr.0 as int)),
    ensures
        spec_frame_ok(page, &pt1, &mem1),
        !mem0.spec_frame_free(page.vaddr.0 as int),
        mem0.spec_is_frame(page.vaddr.0 as int),
        forall|a: int|
            page.vaddr.0 <= a < page.vaddr.0 + 4096 ==> #[trigger] mem1.ram.spec_byte(a) == mem0.ram.spec_byte(a),
{
    reveal(spec_step);
    mem0.buddy.lemma_wf();
    mem1.buddy.lemma_wf();
    let p = mem0.spec_index(page.vaddr.0 as int);
    assert(mem0.pages@[p] is Some);
    assert(!mem0.buddy@.page_free(p));
    assert(mem1.pages@[p] == mem0.pages@[p]);
    assert forall|a: int| page.vaddr.0 <= a < page.vaddr.0 + 4096 implies #[trigger] mem1.ram.spec_byte(a)
        == mem0.ram.spec_byte(a) by {
        assert(mem0.spec_index(a) == p);
        assert(spec_frame_of(a) == page.vaddr.0);
    }
}


/// What letting go of the one hold on the frame `page` has done to the
/// memory: the frame has left the registry and is free; nothing else has
/// changed.
pub open spec fn spec_freed(mem0: &MemoryManager, mem1: &MemoryManager, page: &Page) -> bool {
    let idx = mem0.spec_index(page.vaddr.0 as int);
    &&& mem1.wf()
    &&& mem1.ram == mem0.ram
    &&& mem1.buddy@.start == mem0.buddy@.start
    &&& mem1.buddy@.pages == mem0.buddy@.pages
    &&& mem1.pages@ == spec_drop_block(mem0.pages@, idx, 0)
    &&& forall|p: int| 0 <= p ==> (#[trigger] mem1.buddy@.page_free(p) <==> mem0.buddy@.page_free(p) || p == idx)
}

/// Letting go of a frame that is held once and is no table is a step that
/// gives that frame.
pub proof fn lemma_step_from_free(pt: PageTable, mem0: MemoryManager, mem1: MemoryManager, page: Page)
    requires
        pt.wf(&mem0),
        spec_frame_ok(page, &pt, &mem0),
        spec_freed(&mem0, &mem1, &page),
    ensures
        spec_step(pt, mem0, pt, mem1, Set::empty(), set![mem0.spec_index(page.vaddr.0 as int)]),
        pt.wf(&mem1),
        mem1.spec_frame_free(page.vaddr.0 as int),
{
    mem0.buddy.lemma_wf();
    mem1.buddy.lemma_wf();
    let idx = mem0.spec_index(page.vaddr.0 as int);
    assert forall|p: int| spec_in_block(p, idx, 0) <==> p == idx by {
        assert(crate::mm::buddy_model::spec_ancestor(p, 0) == p);
        assert(crate::mm::buddy_model::spec_ancestor(idx, 0) == idx);
    }
    assert(spec_kept(pt, mem0, mem1)) by {
        assert forall|t: int| #[trigger] pt.spec_tables().contains(t) implies !mem1.spec_frame_free(t) by {
            assert(!mem0.spec_frame_free(t));
            assert(mem0.spec_index(t) != idx);
        }
    }
    lemma_step_from_kept(pt, mem0, mem1, set![idx]);
    lemma_kept(pt, mem0, mem1);
}

/// An address lies in the frame at `frame` if and only if that is its
/// frame, and if and only if it has the place of that frame.
pub proof fn lemma_in_frame(start: int, frame: int, a: int)
    requires
        start % 4096 == 0,
        frame % 4096 == 0,
        start <= frame,
        start <= a,
    ensures
        (frame <= a < frame + 4096) <==> spec_frame_of(a) == frame,
        (frame <= a < frame + 4096) <==> (a - start) / 4096 == (frame - start) / 4096,
{
}

/// A store into a frame that is held and is no table is a step that gives
/// that frame.
pub proof fn lemma_step_from_write(
    pt: PageTable,
    mem0: MemoryManager,
    mem1: MemoryManager,
    page: Page,
    addr: int,
    len: int,
)
    requires
        pt.wf(&mem0),
        mem0.spec_is_frame(page.vaddr.0 as int),
        !mem0.spec_frame_free(page.vaddr.0 as int),
        !pt.spec_tables().contains(page.vaddr.0 as int),
        page.vaddr.0 <= addr,
        addr + len <= page.vaddr.0 + 4096,
        mem1.wf(),
        mem1.buddy@ == mem0.buddy@,
        mem1.pages@ == mem0.pages@,
        mem0.ram.same_but(&mem1.ram, addr, len),
    ensures
        spec_step(pt, mem0, pt, mem1, Set::empty(), set![mem0.spec_index(page.vaddr.0 as int)]),
        spec_kept(pt, mem0, mem1),
        pt.wf(&mem1),
{
    mem0.buddy.lemma_wf();
    mem1.buddy.lemma_wf();
    let idx = mem0.spec_index(page.vaddr.0 as int);
    let start = mem0.buddy@.start;
    assert forall|a: int| mem0.ram.spec_contains(a, 1) && !(addr <= a < addr + len) implies #[trigger] mem1.ram.spec_byte(
        a,
    ) == mem0.ram.spec_byte(a) by {}
    assert(spec_kept(pt, mem0, mem1)) by {
        assert forall|a: int|
            mem0.ram.spec_contains(a, 1) && pt.spec_tables().contains(spec_frame_of(a)) implies #[trigger] mem1.ram.spec_byte(
            a,
        ) == mem0.ram.spec_byte(a) by {
            lemma_in_frame(start, page.vaddr.0 as int, a);
        }
    }
    assert forall|a: int|
        mem0.ram.spec_contains(a, 1) && !mem0.buddy@.page_free(mem0.spec_index(a)) && !set![idx].contains(
            mem0.spec_index(a),
        ) implies #[trigger] mem1.ram.spec_byte(a) == mem0.ram.spec_byte(a) by {
        lemma_in_frame(start, page.vaddr.0 as int, a);
    }
    lemma_step_from_kept(pt, mem0, mem1, set![idx]);
    lemma_kept(pt, mem0, mem1);
}


/// The places of the frames that are tables of `pt`.
pub open spec fn spec_table_places(pt: PageTable, mem: MemoryManager) -> Set<int> {
    Set::new(|p: int| pt.spec_tables().contains(mem.buddy@.start + p * 4096))
}

/// A step of one page table, seen from another that shares the memory but
/// no table with it: to the other it is a step that touches none of its
/// pages and gives, besides what it gives, the tables of the first. The two
/// still share no table.
pub proof fn lemma_step_foreign(
    pt0: PageTable,
    mem0: MemoryManager,
    pt1: PageTable,
    mem1: MemoryManager,
    touched: Set<u64>,
    given: Set<int>,
    other: PageTable,
)
    requires
        pt0.wf(&mem0),
        other.wf(&mem0),
        spec_step(pt0, mem0, pt1, mem1, touched, given),
        forall|t: int| !(#[trigger] pt0.spec_tables().contains(t) && other.spec_tables().contains(t)),
        forall|t: int| #[trigger] other.spec_tables().contains(t) ==> !given.contains(mem0.spec_index(t)),
    ensures
        spec_step(other, mem0, other, mem1, Set::empty(), given.union(spec_table_places(pt0, mem0))),
        forall|t: int| !(#[trigger] pt1.spec_tables().contains(t) && other.spec_tables().contains(t)),
{
    reveal(spec_step);
    mem0.buddy.lemma_wf();
    mem1.buddy.lemma_wf();
    let more = given.union(spec_table_places(pt0, mem0));
    let start = mem0.buddy@.start;
    assert forall|t: int| !(#[trigger] pt1.spec_tables().contains(t) && other.spec_tables().contains(t)) by {
        if pt1.spec_tables().contains(t) && other.spec_tables().contains(t) {
            assert(!pt0.spec_tables().contains(t));
            assert(!mem0.spec_frame_free(t));
        }
    }
    assert forall|a: int| mem0.ram.spec_contains(a, 1) implies spec_frame_of(a) == start + mem0.spec_index(a) * 4096
        && mem0.spec_index(spec_frame_of(a)) == mem0.spec_index(a) && 0 <= mem0.spec_index(a) < mem0.pages@.len() by {
        assert(start % 4096 == 0);
    }
    assert(spec_kept(other, mem0, mem1)) by {
        assert forall|t: int| #[trigger] other.spec_tables().contains(t) implies !mem1.spec_frame_free(t) by {
            let p = mem0.spec_index(t);
            assert(mem0.spec_is_frame(t));
            assert(0 <= p < mem0.pages@.len());
            assert(mem1.pages@[p] == mem0.pages@[p]);
        }
        assert forall|a: int|
            mem0.ram.spec_contains(a, 1) && other.spec_tables().contains(spec_frame_of(a)) implies #[trigger] mem1.ram.spec_byte(
            a,
        ) == mem0.ram.spec_byte(a) by {
            let t = spec_frame_of(a);
            assert(!mem0.spec_frame_free(t));
            assert(!pt1.spec_tables().contains(t));
        }
    }
    lemma_kept(other, mem0, mem1);
    assert forall|a: int|
        mem0.ram.spec_contains(a, 1) && !mem0.buddy@.page_free(mem0.spec_index(a)) && !more.contains(
            mem0.spec_index(a),
        ) && !other.spec_tables().contains(spec_frame_of(a)) implies #[trigger] mem1.ram.spec_byte(a)
        == mem0.ram.spec_byte(a) by {
        let t = spec_frame_of(a);
        if pt1.spec_tables().contains(t) {
            if pt0.spec_tables().contains(t) {
                assert(spec_table_places(pt0, mem0).contains(mem0.spec_index(a)));
            } else {
                assert(mem0.spec_frame_free(t) || given.contains(mem0.spec_index(t)));
            }
        }
    }
}


/// A byte of a frame that was in use, was not given and is no table holds
/// after a step what it held before.
pub proof fn lemma_step_byte(
    pt0: PageTable,
    mem0: MemoryManager,
    pt1: PageTable,
    mem1: MemoryManager,
    touched: Set<u64>,
    given: Set<int>,
    a: int,
)
    requires
        spec_step(pt0, mem0, pt1, mem1, touched, given),
        mem0.ram.spec_contains(a, 1),
        !mem0.buddy@.page_free(mem0.spec_index(a)),
        !given.contains(mem0.spec_index(a)),
        !pt1.spec_tables().contains(spec_frame_of(a)),
    ensures
        mem1.ram.spec_byte(a) == mem0.ram.spec_byte(a),
{
    reveal(spec_step);
}


/// A table after a step was a table before it, or a frame that was free or
/// among those given.
pub proof fn lemma_step_table(
    pt0: PageTable,
    mem0: MemoryManager,
    pt1: PageTable,
    mem1: MemoryManager,
    touched: Set<u64>,
    given: Set<int>,
    t: int,
)
    requires
        spec_step(pt0, mem0, pt1, mem1, touched, given),
        pt1.spec_tables().contains(t),
    ensures
        pt0.spec_tables().contains(t) || (mem0.spec_is_frame(t) && (mem0.spec_frame_free(t) || given.contains(
            mem0.spec_index(t),
        ))),
{
    reveal(spec_step);
}


/// The allocation of one frame that is then written to is a step: the
/// frame was free, so nobody held it.
pub proof fn lemma_step_from_fresh(pt: PageTable, mem0: MemoryManager, mem1: MemoryManager, frame: int)
    requires
        pt.wf(&mem0),
        mem1.wf(),
        mem1.buddy@ == mem0.buddy@.allocate(0).0,
        mem0.spec_is_frame(frame),
        mem0.spec_frame_free(frame),
        mem0.ram.same_but(&mem1.ram, frame, 4096),
        forall|p: int|
            0 <= p < mem0.pages@.len() && p != mem0.spec_index(frame) ==> #[trigger] mem1.pages@[p] == mem0.pages@[p],
    ensures
        spec_step(pt, mem0, pt, mem1, Set::empty(), Set::empty()),
        pt.wf(&mem1),
{
    mem0.buddy.lemma_wf();
    mem1.buddy.lemma_wf();
    crate::mm::buddy_model::lemma_allocate(mem0.buddy@, 0);
    let idx = mem0.spec_index(frame);
    assert forall|a: int|
        mem0.ram.spec_contains(a, 1) && !mem0.buddy@.page_free(mem0.spec_index(a)) implies #[trigger] mem1.ram.spec_byte(
        a,
    ) == mem0.ram.spec_byte(a) by {
        assert(mem0.spec_index(a) != idx);
        assert(!(frame <= a < frame + 4096));
    }
    assert forall|p: int|
        0 <= p < mem0.pages@.len() && !mem0.buddy@.page_free(p) implies #[trigger] mem1.pages@[p] == mem0.pages@[p]
        && !mem1.buddy@.page_free(p) by {
        assert(p != idx);
    }
    assert(spec_kept(pt, mem0, mem1)) by {
        assert forall|a: int|
            mem0.ram.spec_contains(a, 1) && pt.spec_tables().contains(spec_frame_of(a)) implies #[trigger] mem1.ram.spec_byte(
            a,
        ) == mem0.ram.spec_byte(a) by {
            assert(!mem0.spec_frame_free(spec_frame_of(a)));
            assert(mem0.spec_index(a) == mem0.spec_index(spec_frame_of(a)));
        }
        assert forall|t: int| #[trigger] pt.spec_tables().contains(t) implies !mem1.spec_frame_free(t) by {
            assert(!mem0.spec_frame_free(t));
        }
    }
    lemma_step_from_kept(pt, mem0, mem1, Set::empty());
    lemma_kept(pt, mem0, mem1);
}

} // verus!
