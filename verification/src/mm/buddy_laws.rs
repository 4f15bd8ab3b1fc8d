//! Laws of the buddy allocator, stated over its model.
use vstd::prelude::*;
use crate::mm::buddy_model::{
    lemma_allocate, lemma_area_insert, lemma_area_pop, lemma_first_page, lemma_release, spec_ancestor,
    spec_first_page, spec_in_range, spec_max_order, spec_sibling, AreaView, BuddyView,
};

verus! {

/// Round trip: releasing the block that an allocation has just handed out
/// restores every free list and every bitmap.
pub proof fn lemma_allocate_release_round_trip(bv: BuddyView, order: int)
    requires
        bv.wf(),
        0 <= order < spec_max_order(),
        bv.allocate(order).1 is Some,
    ensures
        bv.allocate(order).0.release(order, bv.allocate(order).1->0) == bv,
    decreases spec_max_order() - order,
{
    let (nv, r) = bv.allocate(order);
    let k = r->0;
    let av = bv.areas[order];
    assert(av.wf(order, bv.pages));
    if av.list.len() > 0 {
        lemma_area_pop(av, order, bv.pages);
        let (popped, kk) = av.pop();
        let q = k / 2;
        assert(av.list[av.list.len() - 1] == k);
        assert(spec_in_range(order, k, bv.pages));
        assert(0 <= q < av.bits.len());
        assert(av.bits[q] <==> (av.list.contains(2 * q) != av.list.contains(2 * q + 1)));
        assert(nv.areas[order] == popped);
        if order < spec_max_order() - 1 {
            assert(!(av.list.contains(2 * q) && av.list.contains(2 * q + 1)));
            assert(av.bits[q]);
        }
        let (back, ir) = popped.insert(order, k);
        assert(ir is None);
        assert(back.list =~= av.list);
        assert(back.bits =~= av.bits);
        assert(back == av);
        assert(nv.with_area(order, back).areas =~= bv.areas);
        assert(nv.release(order, k) == bv);
    } else {
        let (higher, hr) = bv.allocate(order + 1);
        lemma_allocate(bv, order + 1);
        let m = hr->0;
        assert(k == 2 * m);
        assert(higher.areas[order] == av);
        assert(av.list =~= Seq::<int>::empty());
        crate::mm::buddy_model::lemma_in_range_family(order, m, bv.pages);
        assert((2 * m + 1) / 2 == m && (2 * m) / 2 == m);
        assert(0 <= m < av.bits.len());
        assert(av.bits[m] <==> (av.list.contains(2 * m) != av.list.contains(2 * m + 1)));
        assert(!av.bits[m]);
        let (area, ir) = av.insert(order, 2 * m + 1);
        assert(ir is None);
        assert(area.list =~= seq![2 * m + 1]);
        assert(nv == higher.with_area(order, area));
        assert(nv.areas[order] == area);
        // the release merges the two halves again
        let (back, br) = area.insert(order, 2 * m);
        assert(area.bits[m]);
        assert(spec_sibling(2 * m) == 2 * m + 1);
        assert(area.list[0] == 2 * m + 1);
        let i = area.list.index_of(2 * m + 1);
        assert(0 <= i < area.list.len());
        assert(br == Some(m));
        assert(back.list =~= av.list);
        assert(back.bits =~= av.bits);
        assert(back == av);
        assert(nv.with_area(order, back).areas =~= higher.areas);
        assert(nv.with_area(order, back) == higher);
        assert(nv.release(order, k) == higher.release(order + 1, m));
        lemma_allocate_release_round_trip(bv, order + 1);
    }
}

/// Merge: releasing both buddies of a pair, in either order, leaves the free
/// list and the bitmap of their order as they were, and is the release of the
/// block of the next order that the two form.
pub proof fn lemma_release_both_buddies(bv: BuddyView, order: int, k: int)
    requires
        bv.wf(),
        0 <= order < spec_max_order() - 1,
        spec_in_range(order, k, bv.pages),
        spec_in_range(order, spec_sibling(k), bv.pages),
        bv.block_unused(order, k),
        bv.block_unused(order, spec_sibling(k)),
    ensures
        bv.release(order, k).release(order, spec_sibling(k)) == bv.release(order + 1, k / 2),
        bv.release(order, k).release(order, spec_sibling(k)).areas[order] == bv.areas[order],
        !bv.release(order, k).release(order, spec_sibling(k)).areas[order].list.contains(k),
        !bv.release(order, k).release(order, spec_sibling(k)).areas[order].list.contains(spec_sibling(k)),
{
    let av = bv.areas[order];
    let sib = spec_sibling(k);
    let q = k / 2;
    assert(av.wf(order, bv.pages));
    lemma_first_page(k, order);
    lemma_first_page(sib, order);
    assert(!av.list.contains(k)) by {
        if av.list.contains(k) {
            assert(bv.areas[order].list.contains(spec_ancestor(spec_first_page(k, order), order)));
            assert(bv.page_free(spec_first_page(k, order)));
        }
    }
    assert(!av.list.contains(sib)) by {
        if av.list.contains(sib) {
            assert(bv.areas[order].list.contains(spec_ancestor(spec_first_page(sib, order), order)));
            assert(bv.page_free(spec_first_page(sib, order)));
        }
    }
    assert(0 <= q < av.bits.len());
    assert(av.bits[q] <==> (av.list.contains(2 * q) != av.list.contains(2 * q + 1)));
    assert(!av.bits[q]);
    lemma_area_insert(av, order, bv.pages, k);
    let (first, fr) = av.insert(order, k);
    assert(fr is None);
    let mid = bv.with_area(order, first);
    assert(bv.release(order, k) == mid);
    assert(mid.areas[order] == first);
    assert(sib / 2 == q);
    assert(spec_sibling(sib) == k);
    assert(first.bits[q]);
    let (second, sr) = first.insert(order, sib);
    assert(sr == Some(q));
    assert(first.list == av.list.push(k));
    assert(first.list[av.list.len() as int] == k);
    let i = first.list.index_of(k);
    assert(0 <= i < first.list.len() && first.list[i] == k);
    assert(i == av.list.len()) by {
        if i < av.list.len() {
            assert(av.list[i] == k);
        }
    }
    assert(second.list =~= av.list);
    assert(second.bits =~= av.bits);
    assert(second == av);
    assert(mid.with_area(order, second).areas =~= bv.areas);
    assert(mid.with_area(order, second) == bv);
    assert(mid.release(order, sib) == bv.release(order + 1, q));
    // the order's own area is untouched by the release at the next order
    crate::mm::buddy_model::lemma_in_range_family(order, q, bv.pages);
    assert(spec_in_range(order + 1, q, bv.pages));
    assert forall|p: int| 0 <= p && #[trigger] spec_ancestor(p, order + 1) == q implies !bv.page_free(p) by {
        assert(spec_ancestor(p, order + 1) == spec_ancestor(p, order) / 2);
        assert(spec_ancestor(p, order) == k || spec_ancestor(p, order) == sib);
    }
    lemma_release(bv, order + 1, q);
}

/// Non-overlap: a block handed out by an allocation shares no page with a
/// block whose pages were not free before that allocation, such as a block
/// handed out earlier and not released since.
pub proof fn lemma_allocated_blocks_disjoint(bv: BuddyView, held_order: int, held: int, order: int)
    requires
        bv.wf(),
        0 <= order,
        bv.block_unused(held_order, held),
        bv.allocate(order).1 is Some,
    ensures
        forall|p: int|
            0 <= p ==> !(spec_ancestor(p, held_order) == held && #[trigger] spec_ancestor(p, order)
                == bv.allocate(order).1->0),
        bv.allocate(order).0.block_unused(held_order, held),
        bv.allocate(order).0.block_unused(order, bv.allocate(order).1->0),
{
    lemma_allocate(bv, order);
    let (nv, r) = bv.allocate(order);
    let k = r->0;
    assert forall|p: int| 0 <= p implies !(spec_ancestor(p, held_order) == held && #[trigger] spec_ancestor(
        p,
        order,
    ) == k) by {
        if spec_ancestor(p, held_order) == held && spec_ancestor(p, order) == k {
            assert(bv.page_free(p));
            assert(!bv.page_free(p));
        }
    }
    assert forall|p: int| 0 <= p && #[trigger] spec_ancestor(p, held_order) == held implies !nv.page_free(p) by {
        assert(!bv.page_free(p));
        assert(nv.page_free(p) <==> (bv.page_free(p) && spec_ancestor(p, order) != k));
    }
    assert forall|p: int| 0 <= p && #[trigger] spec_ancestor(p, order) == k implies !nv.page_free(p) by {
        assert(nv.page_free(p) <==> (bv.page_free(p) && spec_ancestor(p, order) != k));
    }
}

/// A block that is held stays held when another block, which shares no page
/// with it, is released.
pub proof fn lemma_release_keeps_held(bv: BuddyView, held_order: int, held: int, order: int, k: int)
    requires
        bv.wf(),
        0 <= order < spec_max_order(),
        spec_in_range(order, k, bv.pages),
        bv.block_unused(order, k),
        bv.block_unused(held_order, held),
        forall|p: int| 0 <= p ==> !(#[trigger] spec_ancestor(p, held_order) == held && spec_ancestor(p, order) == k),
    ensures
        bv.release(order, k).block_unused(held_order, held),
{
    lemma_release(bv, order, k);
    let nv = bv.release(order, k);
    assert forall|p: int| 0 <= p && #[trigger] spec_ancestor(p, held_order) == held implies !nv.page_free(p) by {
        assert(!bv.page_free(p));
        assert(nv.page_free(p) <==> (bv.page_free(p) || spec_ancestor(p, order) == k));
    }
}

} // verus!
