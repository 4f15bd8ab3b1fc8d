//! The mathematical model of the buddy allocator: free blocks as indices in
//! per-order lists, and one bit for each pair of buddies.
//!
//! A block of order `o` and index `k` covers the pages whose index, halved `o`
//! times, is `k`. Its buddy has the index with the lowest bit flipped, and the
//! two together form block `k / 2` of order `o + 1`.
use vstd::prelude::*;
use crate::utils::spec_order2pages;

verus! {

/// Number of orders.
pub open spec fn spec_max_order() -> int {
    11
}

/// The index of the block of order `o + n` that holds block `k` of order `o`.
pub open spec fn spec_ancestor(k: int, n: int) -> int
    decreases n,
{
    if n <= 0 {
        k
    } else {
        spec_ancestor(k, n - 1) / 2
    }
}

/// The index of the buddy of block `k`.
pub open spec fn spec_sibling(k: int) -> int {
    if k % 2 == 0 {
        k + 1
    } else {
        k - 1
    }
}

/// The index of the first page of block `k` of order `order`.
pub open spec fn spec_first_page(k: int, order: int) -> int
    decreases order,
{
    if order <= 0 {
        k
    } else {
        spec_first_page(2 * k, order - 1)
    }
}

/// Whether block `k` of order `order` lies within the first `pages` pages.
pub open spec fn spec_in_range(order: int, k: int, pages: int) -> bool {
    0 <= k && (k + 1) * spec_order2pages(order) <= pages
}

/// The free blocks of one order and the bits of its buddy pairs.
#[verifier::ext_equal]
pub struct AreaView {
    /// Indices of the free blocks, in the order in which they will be handed
    /// out last to first.
    pub list: Seq<int>,
    /// Bit `p` belongs to the blocks `2 * p` and `2 * p + 1`.
    pub bits: Seq<bool>,
}

impl AreaView {
    /// Takes the last block off the list and inverts the bit of its pair.
    pub open spec fn pop(self) -> (AreaView, int) {
        let k = self.list.last();
        (AreaView { list: self.list.drop_last(), bits: self.bits.update(k / 2, !self.bits[k / 2]) }, k)
    }

    /// Hands block `k` back. Where the bit of its pair is set and `order` is
    /// not the highest, the buddy leaves the list, the bit is cleared and the
    /// merged block of the next order is returned. Otherwise the block joins
    /// the list and the bit is inverted.
    pub open spec fn insert(self, order: int, k: int) -> (AreaView, Option<int>) {
        if self.bits[k / 2] && order != spec_max_order() - 1 {
            (
                AreaView {
                    list: self.list.remove(self.list.index_of(spec_sibling(k))),
                    bits: self.bits.update(k / 2, false),
                },
                Some(k / 2),
            )
        } else {
            (AreaView { list: self.list.push(k), bits: self.bits.update(k / 2, !self.bits[k / 2]) }, None)
        }
    }

    /// The invariant of one order: every listed block lies in range and is
    /// listed once, the bitmap has a bit for every block in range, a bit is
    /// set if and only if exactly one block of its pair is listed, and below
    /// the highest order no pair is listed whole.
    pub open spec fn wf(self, order: int, pages: int) -> bool {
        &&& forall|i: int| 0 <= i < self.list.len() ==> spec_in_range(order, #[trigger] self.list[i], pages)
        &&& self.list.no_duplicates()
        &&& forall|k: int| #[trigger] spec_in_range(order, k, pages) ==> k / 2 < self.bits.len()
        &&& forall|p: int|
            0 <= p < self.bits.len() ==> (#[trigger] self.bits[p] <==> (self.list.contains(2 * p)
                != self.list.contains(2 * p + 1)))
        &&& order < spec_max_order() - 1 ==> forall|p: int|
            !(#[trigger] self.list.contains(2 * p) && self.list.contains(2 * p + 1))
    }
}

/// The state of the allocator: the managed range and one area for each order.
#[verifier::ext_equal]
pub struct BuddyView {
    /// Address of the first managed page.
    pub start: int,
    /// Number of managed pages.
    pub pages: int,
    pub areas: Seq<AreaView>,
}

impl BuddyView {
    /// Whether page `p` lies in a free block of some order.
    pub open spec fn page_free(self, p: int) -> bool {
        exists|o: int| 0 <= o < spec_max_order() && #[trigger] self.areas[o].list.contains(spec_ancestor(p, o))
    }

    /// Whether no page of block `k` of order `order` lies in a free block.
    pub open spec fn block_unused(self, order: int, k: int) -> bool {
        forall|p: int| 0 <= p && #[trigger] spec_ancestor(p, order) == k ==> !self.page_free(p)
    }

    /// The invariant of the allocator: each order's invariant, and no page
    /// lies in free blocks of two orders.
    pub open spec fn wf(self) -> bool {
        &&& self.areas.len() == spec_max_order()
        &&& 0 <= self.pages
        &&& forall|o: int| 0 <= o < spec_max_order() ==> (#[trigger] self.areas[o]).wf(o, self.pages)
        &&& forall|p: int, o1: int, o2: int|
            0 <= p && 0 <= o1 < o2 < spec_max_order() ==> !(#[trigger] self.areas[o1].list.contains(
                spec_ancestor(p, o1),
            ) && #[trigger] self.areas[o2].list.contains(spec_ancestor(p, o2)))
    }

    pub open spec fn with_area(self, order: int, area: AreaView) -> BuddyView {
        BuddyView { areas: self.areas.update(order, area), ..self }
    }

    /// Allocation of a block of order `order`: the last free block of that
    /// order if there is one; else the lower half of a block allocated at the
    /// next order, whose upper half becomes free at `order`. Fails, changing
    /// nothing, where no order from `order` up has a free block.
    pub open spec fn allocate(self, order: int) -> (BuddyView, Option<int>)
        decreases spec_max_order() - order,
    {
        if order < 0 || order >= spec_max_order() {
            (self, None)
        } else if self.areas[order].list.len() > 0 {
            let (area, k) = self.areas[order].pop();
            (self.with_area(order, area), Some(k))
        } else {
            let (higher, r) = self.allocate(order + 1);
            match r {
                Some(m) => (
                    higher.with_area(order, higher.areas[order].insert(order, 2 * m + 1).0),
                    Some(2 * m),
                ),
                None => (self, None),
            }
        }
    }

    /// Release of block `k` of order `order`: the block is handed to its
    /// order's area, and as long as that merges it with its buddy, the merged
    /// block is handed to the next order.
    pub open spec fn release(self, order: int, k: int) -> BuddyView
        decreases spec_max_order() - order,
    {
        if order < 0 || order >= spec_max_order() {
            self
        } else {
            let (area, r) = self.areas[order].insert(order, k);
            let next = self.with_area(order, area);
            match r {
                Some(m) => next.release(order + 1, m),
                None => next,
            }
        }
    }

    /// The first order from `order` up that has a free block, or the number
    /// of orders if none has.
    pub open spec fn first_nonempty(self, order: int) -> int
        decreases spec_max_order() - order,
    {
        if order < 0 || order >= spec_max_order() {
            spec_max_order()
        } else if self.areas[order].list.len() > 0 {
            order
        } else {
            self.first_nonempty(order + 1)
        }
    }

    /// Number of free pages, counted block by block from `order` up.
    pub open spec fn free_pages_from(self, order: int) -> int
        decreases spec_max_order() - order,
    {
        if order < 0 || order >= spec_max_order() {
            0
        } else {
            self.areas[order].list.len() * spec_order2pages(order) + self.free_pages_from(order + 1)
        }
    }
}

/// Halving `a` times and then `b` times is halving `a + b` times.
pub proof fn lemma_ancestor_add(k: int, a: int, b: int)
    requires
        0 <= a,
        0 <= b,
    ensures
        spec_ancestor(spec_ancestor(k, a), b) == spec_ancestor(k, a + b),
    decreases b,
{
    if b > 0 {
        lemma_ancestor_add(k, a, b - 1);
    }
}

/// Halving keeps an index from becoming negative.
pub proof fn lemma_ancestor_nonneg(k: int, n: int)
    requires
        0 <= k,
    ensures
        0 <= spec_ancestor(k, n),
    decreases n,
{
    if n > 0 {
        lemma_ancestor_nonneg(k, n - 1);
    }
}

/// The first page of a block is one of its pages.
pub proof fn lemma_first_page(k: int, order: int)
    requires
        0 <= k,
        0 <= order,
    ensures
        spec_ancestor(spec_first_page(k, order), order) == k,
        0 <= spec_first_page(k, order),
    decreases order,
{
    if order > 0 {
        lemma_first_page(2 * k, order - 1);
        lemma_ancestor_add(spec_first_page(k, order), order - 1, 1);
        assert(spec_ancestor(spec_first_page(2 * k, order - 1), order - 1) == 2 * k);
        assert(spec_ancestor(2 * k, 1) == k) by {
            reveal_with_fuel(spec_ancestor, 2);
        }
    }
}

/// The two halves of a block in range are in range, and a block whose buddy
/// is in range too forms a block in range with it.
pub proof fn lemma_in_range_family(order: int, m: int, pages: int)
    requires
        0 <= order,
    ensures
        spec_in_range(order + 1, m, pages) ==> spec_in_range(order, 2 * m, pages) && spec_in_range(
            order,
            2 * m + 1,
            pages,
        ),
        spec_in_range(order, 2 * m + 1, pages) && 0 <= m ==> spec_in_range(order + 1, m, pages),
{
    let s = spec_order2pages(order);
    assert(spec_order2pages(order + 1) == 2 * s);
    crate::utils::lemma_order2pages_monotone(0, order);
    assert((m + 1) * (2 * s) == (2 * m + 1 + 1) * s) by (nonlinear_arith);
    assert(0 <= m ==> (2 * m + 1) * s <= (2 * m + 1 + 1) * s) by (nonlinear_arith)
        requires
            s >= 1,
    ;
}


proof fn lemma_seq_remove(s: Seq<int>, i: int)
    requires
        s.no_duplicates(),
        0 <= i < s.len(),
    ensures
        s.remove(i).no_duplicates(),
        s.remove(i).len() == s.len() - 1,
        forall|x: int| s.remove(i).contains(x) == (s.contains(x) && x != s[i]),
{
    let r = s.remove(i);
    assert forall|x: int| r.contains(x) == (s.contains(x) && x != s[i]) by {
        if r.contains(x) {
            let j = choose|j: int| 0 <= j < r.len() && r[j] == x;
            if j < i {
                assert(s[j] == x);
            } else {
                assert(s[j + 1] == x);
            }
        }
        if s.contains(x) && x != s[i] {
            let j = choose|j: int| 0 <= j < s.len() && s[j] == x;
            if j < i {
                assert(r[j] == x);
            } else {
                assert(r[j - 1] == x);
            }
        }
    }
}

proof fn lemma_seq_push(s: Seq<int>, v: int)
    requires
        s.no_duplicates(),
        !s.contains(v),
    ensures
        s.push(v).no_duplicates(),
        forall|x: int| s.push(v).contains(x) == (s.contains(x) || x == v),
        s.push(v).index_of(v) == s.len(),
        s.push(v).remove(s.len() as int) == s,
{
    let r = s.push(v);
    assert forall|x: int| r.contains(x) == (s.contains(x) || x == v) by {
        if s.contains(x) {
            let j = choose|j: int| 0 <= j < s.len() && s[j] == x;
            assert(r[j] == x);
        }
        if x == v {
            assert(r[s.len() as int] == x);
        }
    }
    assert(r[s.len() as int] == v);
    assert(r.remove(s.len() as int) =~= s);
}

proof fn lemma_seq_drop_last(s: Seq<int>)
    requires
        s.no_duplicates(),
        s.len() > 0,
    ensures
        s.drop_last().no_duplicates(),
        forall|x: int| s.drop_last().contains(x) == (s.contains(x) && x != s.last()),
        s.drop_last().push(s.last()) == s,
{
    let r = s.drop_last();
    assert forall|x: int| r.contains(x) == (s.contains(x) && x != s.last()) by {
        if r.contains(x) {
            let j = choose|j: int| 0 <= j < r.len() && r[j] == x;
            assert(s[j] == x);
        }
        if s.contains(x) && x != s.last() {
            let j = choose|j: int| 0 <= j < s.len() && s[j] == x;
            assert(r[j] == x);
        }
    }
    assert(r.push(s.last()) =~= s);
}

/// Taking the last block off a well-formed area leaves a well-formed area
/// that lists the same blocks but that one.
pub proof fn lemma_area_pop(av: AreaView, order: int, pages: int)
    requires
        av.wf(order, pages),
        av.list.len() > 0,
    ensures
        av.pop().0.wf(order, pages),
        spec_in_range(order, av.pop().1, pages),
        av.list.contains(av.pop().1),
        forall|x: int| av.pop().0.list.contains(x) == (av.list.contains(x) && x != av.pop().1),
{
    let (nv, k) = av.pop();
    lemma_seq_drop_last(av.list);
    assert(av.list[av.list.len() - 1] == k);
    assert(spec_in_range(order, k, pages));
    let q = k / 2;
    assert forall|p: int| 0 <= p < nv.bits.len() implies (#[trigger] nv.bits[p] <==> (nv.list.contains(2 * p)
        != nv.list.contains(2 * p + 1))) by {
        assert(av.bits[p] <==> (av.list.contains(2 * p) != av.list.contains(2 * p + 1)));
    }
    assert forall|i: int| 0 <= i < nv.list.len() implies spec_in_range(order, #[trigger] nv.list[i], pages) by {
        assert(nv.list[i] == av.list[i]);
    }
    if order < spec_max_order() - 1 {
        assert forall|p: int| !(#[trigger] nv.list.contains(2 * p) && nv.list.contains(2 * p + 1)) by {
            assert(!(av.list.contains(2 * p) && av.list.contains(2 * p + 1)));
        }
    }
}

/// Handing a block in range that is not listed back to a well-formed area
/// leaves a well-formed area. Either the buddy was listed and has left, or the
/// block is listed now.
pub proof fn lemma_area_insert(av: AreaView, order: int, pages: int, k: int)
    requires
        av.wf(order, pages),
        0 <= order < spec_max_order(),
        spec_in_range(order, k, pages),
        !av.list.contains(k),
    ensures
        av.insert(order, k).0.wf(order, pages),
        av.insert(order, k).1 is Some ==> {
            &&& av.insert(order, k).1 == Some(k / 2)
            &&& order < spec_max_order() - 1
            &&& av.bits[k / 2]
            &&& av.list.contains(spec_sibling(k))
            &&& forall|x: int|
                av.insert(order, k).0.list.contains(x) == (av.list.contains(x) && x != spec_sibling(k))
        },
        av.insert(order, k).1 is None ==> {
            &&& av.insert(order, k).0.list == av.list.push(k)
            &&& forall|x: int| av.insert(order, k).0.list.contains(x) == (av.list.contains(x) || x == k)
        },
{
    let (nv, r) = av.insert(order, k);
    let q = k / 2;
    let sib = spec_sibling(k);
    assert(0 <= q < av.bits.len());
    assert(av.bits[q] <==> (av.list.contains(2 * q) != av.list.contains(2 * q + 1)));
    if av.bits[q] && order != spec_max_order() - 1 {
        assert(av.list.contains(sib));
        let i = av.list.index_of(sib);
        assert(0 <= i < av.list.len() && av.list[i] == sib);
        lemma_seq_remove(av.list, i);
        assert forall|p: int| 0 <= p < nv.bits.len() implies (#[trigger] nv.bits[p] <==> (nv.list.contains(
            2 * p,
        ) != nv.list.contains(2 * p + 1))) by {
            assert(av.bits[p] <==> (av.list.contains(2 * p) != av.list.contains(2 * p + 1)));
        }
        assert forall|j: int| 0 <= j < nv.list.len() implies spec_in_range(order, #[trigger] nv.list[j], pages) by {
            if j < i {
                assert(nv.list[j] == av.list[j]);
            } else {
                assert(nv.list[j] == av.list[j + 1]);
            }
        }
        assert forall|p: int| !(#[trigger] nv.list.contains(2 * p) && nv.list.contains(2 * p + 1)) by {
            assert(!(av.list.contains(2 * p) && av.list.contains(2 * p + 1)));
        }
    } else {
        lemma_seq_push(av.list, k);
        assert forall|p: int| 0 <= p < nv.bits.len() implies (#[trigger] nv.bits[p] <==> (nv.list.contains(
            2 * p,
        ) != nv.list.contains(2 * p + 1))) by {
            assert(av.bits[p] <==> (av.list.contains(2 * p) != av.list.contains(2 * p + 1)));
        }
        assert forall|j: int| 0 <= j < nv.list.len() implies spec_in_range(order, #[trigger] nv.list[j], pages) by {
            if j < av.list.len() {
                assert(nv.list[j] == av.list[j]);
            }
        }
        if order < spec_max_order() - 1 {
            assert(!av.bits[q]);
            assert forall|p: int| !(#[trigger] nv.list.contains(2 * p) && nv.list.contains(2 * p + 1)) by {
                assert(!(av.list.contains(2 * p) && av.list.contains(2 * p + 1)));
            }
        }
    }
}


proof fn lemma_ancestor_step(p: int, order: int, m: int)
    requires
        0 <= order,
    ensures
        spec_ancestor(p, order + 1) == spec_ancestor(p, order) / 2,
        spec_ancestor(p, order + 1) == m <==> (spec_ancestor(p, order) == 2 * m || spec_ancestor(p, order) == 2
            * m + 1),
{
}

/// What an allocation does to a well-formed allocator. It fails, changing
/// nothing, exactly where no order from `order` up has a free block.
/// Otherwise the allocator stays well-formed, the block handed out lies in
/// range, all its pages were free, and afterwards exactly the other pages
/// that were free are free.
pub proof fn lemma_allocate(bv: BuddyView, order: int)
    requires
        bv.wf(),
        0 <= order,
    ensures
        bv.allocate(order).0.wf(),
        bv.allocate(order).0.start == bv.start,
        bv.allocate(order).0.pages == bv.pages,
        forall|j: int| 0 <= j < order ==> bv.allocate(order).0.areas[j] == bv.areas[j],
        bv.allocate(order).1 is None <==> bv.first_nonempty(order) == spec_max_order(),
        bv.allocate(order).1 is None ==> bv.allocate(order).0 == bv,
        bv.allocate(order).1 matches Some(k) ==> {
            &&& order < spec_max_order()
            &&& spec_in_range(order, k, bv.pages)
            &&& forall|p: int|
                0 <= p ==> (#[trigger] bv.allocate(order).0.page_free(p) <==> (bv.page_free(p)
                    && spec_ancestor(p, order) != k))
            &&& forall|p: int| 0 <= p && #[trigger] spec_ancestor(p, order) == k ==> bv.page_free(p)
        },
    decreases spec_max_order() - order,
{
    let (nv, r) = bv.allocate(order);
    if order >= spec_max_order() {
    } else if bv.areas[order].list.len() > 0 {
        let av = bv.areas[order];
        let (area, k) = av.pop();
        lemma_area_pop(av, order, bv.pages);
        assert(nv.areas[order] == area);
        assert forall|o: int| 0 <= o < spec_max_order() implies (#[trigger] nv.areas[o]).wf(o, nv.pages) by {
            if o != order {
                assert(nv.areas[o] == bv.areas[o]);
            }
        }
        assert forall|p: int, o1: int, o2: int| 0 <= p && 0 <= o1 < o2 < spec_max_order() implies !(
        #[trigger] nv.areas[o1].list.contains(spec_ancestor(p, o1)) && #[trigger] nv.areas[o2].list.contains(
            spec_ancestor(p, o2),
        )) by {
            assert(nv.areas[o1].list.contains(spec_ancestor(p, o1)) ==> bv.areas[o1].list.contains(
                spec_ancestor(p, o1),
            ));
            assert(nv.areas[o2].list.contains(spec_ancestor(p, o2)) ==> bv.areas[o2].list.contains(
                spec_ancestor(p, o2),
            ));
        }
        assert forall|p: int| 0 <= p implies (#[trigger] nv.page_free(p) <==> (bv.page_free(p) && spec_ancestor(
            p,
            order,
        ) != k)) by {
            if nv.page_free(p) {
                let o = choose|o: int|
                    0 <= o < spec_max_order() && #[trigger] nv.areas[o].list.contains(spec_ancestor(p, o));
                assert(bv.areas[o].list.contains(spec_ancestor(p, o)));
                if spec_ancestor(p, order) == k {
                    assert(bv.areas[order].list.contains(spec_ancestor(p, order)));
                    if o < order {
                        assert(false);
                    } else if o > order {
                        assert(false);
                    }
                }
            }
            if bv.page_free(p) && spec_ancestor(p, order) != k {
                let o = choose|o: int|
                    0 <= o < spec_max_order() && #[trigger] bv.areas[o].list.contains(spec_ancestor(p, o));
                assert(nv.areas[o].list.contains(spec_ancestor(p, o)));
            }
        }
        assert forall|p: int| 0 <= p && #[trigger] spec_ancestor(p, order) == k implies bv.page_free(p) by {
            assert(bv.areas[order].list.contains(spec_ancestor(p, order)));
        }
    } else {
        let (higher, hr) = bv.allocate(order + 1);
        lemma_allocate(bv, order + 1);
        match hr {
            Some(m) => {
                assert(higher.areas[order] == bv.areas[order]);
                let av = higher.areas[order];
                assert(av.list =~= Seq::<int>::empty());
                lemma_in_range_family(order, m, bv.pages);
                assert(av.wf(order, bv.pages));
                assert(!av.list.contains(2 * m + 1));
                assert(!av.list.contains(2 * m));
                lemma_area_insert(av, order, bv.pages, 2 * m + 1);
                let (area, ir) = av.insert(order, 2 * m + 1);
                assert((2 * m + 1) / 2 == m);
                assert(0 <= m < av.bits.len());
                assert(av.bits[m] <==> (av.list.contains(2 * m) != av.list.contains(2 * m + 1)));
                assert(ir is None);
                assert(nv == higher.with_area(order, area));
                assert(nv.areas[order] == area);
                assert forall|o: int| 0 <= o < spec_max_order() implies (#[trigger] nv.areas[o]).wf(
                    o,
                    nv.pages,
                ) by {
                    if o != order {
                        assert(nv.areas[o] == higher.areas[o]);
                    }
                }
                assert forall|p: int| 0 <= p implies (#[trigger] nv.page_free(p) <==> (bv.page_free(p)
                    && spec_ancestor(p, order) != 2 * m)) by {
                    lemma_ancestor_step(p, order, m);
                    assert(higher.page_free(p) <==> (bv.page_free(p) && spec_ancestor(p, order + 1) != m));
                    if nv.page_free(p) {
                        let o = choose|o: int|
                            0 <= o < spec_max_order() && #[trigger] nv.areas[o].list.contains(
                                spec_ancestor(p, o),
                            );
                        if o != order {
                            assert(higher.areas[o].list.contains(spec_ancestor(p, o)));
                            assert(higher.page_free(p));
                        } else {
                            assert(spec_ancestor(p, order) == 2 * m + 1);
                            assert(spec_ancestor(p, order + 1) == m);
                        }
                    }
                    if bv.page_free(p) && spec_ancestor(p, order) != 2 * m {
                        if spec_ancestor(p, order + 1) != m {
                            assert(higher.page_free(p));
                            let o = choose|o: int|
                                0 <= o < spec_max_order() && #[trigger] higher.areas[o].list.contains(
                                    spec_ancestor(p, o),
                                );
                            assert(o != order);
                            assert(nv.areas[o].list.contains(spec_ancestor(p, o)));
                        } else {
                            assert(nv.areas[order].list.contains(spec_ancestor(p, order)));
                        }
                    }
                }
                assert forall|p: int| 0 <= p && #[trigger] spec_ancestor(p, order) == 2 * m implies bv.page_free(
                    p,
                ) by {
                    lemma_ancestor_step(p, order, m);
                    assert(spec_ancestor(p, order + 1) == m);
                }
                assert forall|p: int, o1: int, o2: int| 0 <= p && 0 <= o1 < o2 < spec_max_order() implies !(
                #[trigger] nv.areas[o1].list.contains(spec_ancestor(p, o1))
                    && #[trigger] nv.areas[o2].list.contains(spec_ancestor(p, o2))) by {
                    if nv.areas[o1].list.contains(spec_ancestor(p, o1)) && nv.areas[o2].list.contains(
                        spec_ancestor(p, o2),
                    ) {
                        lemma_ancestor_step(p, order, m);
                        assert(higher.page_free(p) <==> (bv.page_free(p) && spec_ancestor(p, order + 1) != m));
                        if o1 == order {
                            assert(higher.areas[o2].list.contains(spec_ancestor(p, o2)));
                            assert(higher.page_free(p));
                            assert(false);
                        } else if o2 == order {
                            assert(higher.areas[o1].list.contains(spec_ancestor(p, o1)));
                            assert(higher.page_free(p));
                            assert(false);
                        } else {
                            assert(higher.areas[o1].list.contains(spec_ancestor(p, o1)));
                            assert(higher.areas[o2].list.contains(spec_ancestor(p, o2)));
                            assert(false);
                        }
                    }
                }
                assert forall|j: int| 0 <= j < order implies nv.areas[j] == bv.areas[j] by {
                    assert(nv.areas[j] == higher.areas[j]);
                }
            },
            None => {},
        }
    }
}

/// What releasing a block does to a well-formed allocator, where the block
/// lies in range and none of its pages is free: the allocator stays
/// well-formed, and afterwards the pages of the block are free besides those
/// that were.
pub proof fn lemma_release(bv: BuddyView, order: int, k: int)
    requires
        bv.wf(),
        0 <= order < spec_max_order(),
        spec_in_range(order, k, bv.pages),
        bv.block_unused(order, k),
    ensures
        bv.release(order, k).wf(),
        bv.release(order, k).start == bv.start,
        bv.release(order, k).pages == bv.pages,
        forall|j: int| 0 <= j < order ==> bv.release(order, k).areas[j] == bv.areas[j],
        forall|p: int|
            0 <= p ==> (#[trigger] bv.release(order, k).page_free(p) <==> (bv.page_free(p) || spec_ancestor(
                p,
                order,
            ) == k)),
    decreases spec_max_order() - order,
{
    let av = bv.areas[order];
    lemma_first_page(k, order);
    let fp = spec_first_page(k, order);
    assert(!av.list.contains(k)) by {
        if av.list.contains(k) {
            assert(bv.areas[order].list.contains(spec_ancestor(fp, order)));
            assert(bv.page_free(fp));
            assert(false);
        }
    }
    lemma_area_insert(av, order, bv.pages, k);
    let (area, r) = av.insert(order, k);
    let next = bv.with_area(order, area);
    assert(next.areas[order] == area);
    assert forall|o: int| 0 <= o < spec_max_order() implies (#[trigger] next.areas[o]).wf(o, next.pages) by {
        if o != order {
            assert(next.areas[o] == bv.areas[o]);
        }
    }
    match r {
        None => {
            assert forall|p: int| 0 <= p implies (#[trigger] next.page_free(p) <==> (bv.page_free(p)
                || spec_ancestor(p, order) == k)) by {
                if next.page_free(p) {
                    let o = choose|o: int|
                        0 <= o < spec_max_order() && #[trigger] next.areas[o].list.contains(spec_ancestor(p, o));
                    if o != order {
                        assert(bv.areas[o].list.contains(spec_ancestor(p, o)));
                    } else if spec_ancestor(p, order) != k {
                        assert(bv.areas[o].list.contains(spec_ancestor(p, o)));
                    }
                }
                if bv.page_free(p) {
                    let o = choose|o: int|
                        0 <= o < spec_max_order() && #[trigger] bv.areas[o].list.contains(spec_ancestor(p, o));
                    assert(next.areas[o].list.contains(spec_ancestor(p, o)));
                }
                if spec_ancestor(p, order) == k {
                    assert(next.areas[order].list.contains(spec_ancestor(p, order)));
                }
            }
            assert forall|p: int, o1: int, o2: int| 0 <= p && 0 <= o1 < o2 < spec_max_order() implies !(
            #[trigger] next.areas[o1].list.contains(spec_ancestor(p, o1))
                && #[trigger] next.areas[o2].list.contains(spec_ancestor(p, o2))) by {
                if next.areas[o1].list.contains(spec_ancestor(p, o1)) && next.areas[o2].list.contains(
                    spec_ancestor(p, o2),
                ) {
                    if o1 == order && spec_ancestor(p, order) == k {
                        assert(bv.areas[o2].list.contains(spec_ancestor(p, o2)));
                        assert(bv.page_free(p));
                        assert(false);
                    } else if o2 == order && spec_ancestor(p, order) == k {
                        assert(bv.areas[o1].list.contains(spec_ancestor(p, o1)));
                        assert(bv.page_free(p));
                        assert(false);
                    } else {
                        assert(bv.areas[o1].list.contains(spec_ancestor(p, o1)));
                        assert(bv.areas[o2].list.contains(spec_ancestor(p, o2)));
                        assert(false);
                    }
                }
            }
        },
        Some(m) => {
            let sib = spec_sibling(k);
            assert(m == k / 2);
            assert forall|p: int, o1: int, o2: int| 0 <= p && 0 <= o1 < o2 < spec_max_order() implies !(
            #[trigger] next.areas[o1].list.contains(spec_ancestor(p, o1))
                && #[trigger] next.areas[o2].list.contains(spec_ancestor(p, o2))) by {
                assert(next.areas[o1].list.contains(spec_ancestor(p, o1)) ==> bv.areas[o1].list.contains(
                    spec_ancestor(p, o1),
                ));
                assert(next.areas[o2].list.contains(spec_ancestor(p, o2)) ==> bv.areas[o2].list.contains(
                    spec_ancestor(p, o2),
                ));
            }
            assert(next.wf());
            assert forall|p: int| 0 <= p implies (#[trigger] next.page_free(p) <==> (bv.page_free(p)
                && spec_ancestor(p, order) != sib)) by {
                if next.page_free(p) {
                    let o = choose|o: int|
                        0 <= o < spec_max_order() && #[trigger] next.areas[o].list.contains(spec_ancestor(p, o));
                    assert(bv.areas[o].list.contains(spec_ancestor(p, o)));
                    if spec_ancestor(p, order) == sib {
                        assert(bv.areas[order].list.contains(spec_ancestor(p, order)));
                        if o < order {
                            assert(false);
                        } else if o > order {
                            assert(false);
                        }
                    }
                }
                if bv.page_free(p) && spec_ancestor(p, order) != sib {
                    let o = choose|o: int|
                        0 <= o < spec_max_order() && #[trigger] bv.areas[o].list.contains(spec_ancestor(p, o));
                    assert(next.areas[o].list.contains(spec_ancestor(p, o)));
                }
            }
            // the two buddies form block `m` of the next order
            let i = av.list.index_of(sib);
            assert(0 <= i < av.list.len() && av.list[i] == sib);
            assert(spec_in_range(order, sib, bv.pages));
            lemma_in_range_family(order, m, bv.pages);
            assert(spec_in_range(order + 1, m, bv.pages));
            assert forall|p: int| 0 <= p && #[trigger] spec_ancestor(p, order + 1) == m implies !next.page_free(
                p,
            ) by {
                lemma_ancestor_step(p, order, m);
                if spec_ancestor(p, order) == k {
                    assert(!bv.page_free(p));
                }
            }
            lemma_release(next, order + 1, m);
            let nv = next.release(order + 1, m);
            assert forall|p: int| 0 <= p implies (#[trigger] nv.page_free(p) <==> (bv.page_free(p)
                || spec_ancestor(p, order) == k)) by {
                lemma_ancestor_step(p, order, m);
                assert(next.page_free(p) <==> (bv.page_free(p) && spec_ancestor(p, order) != sib));
                if spec_ancestor(p, order) == sib {
                    assert(bv.areas[order].list.contains(spec_ancestor(p, order)));
                    assert(bv.page_free(p));
                }
            }
            assert forall|j: int| 0 <= j < order implies nv.areas[j] == bv.areas[j] by {
                assert(nv.areas[j] == next.areas[j]);
            }
        },
    }
}


/// One step of a release: the block is handed to its order's area. Either it
/// joins the list and the release is done, or it merges with its buddy, and
/// the release goes on with the merged block, which lies in range and has no
/// free page, at the next order.
pub proof fn lemma_release_step(bv: BuddyView, order: int, k: int)
    requires
        bv.wf(),
        0 <= order < spec_max_order(),
        spec_in_range(order, k, bv.pages),
        bv.block_unused(order, k),
    ensures
        !bv.areas[order].list.contains(k),
        bv.with_area(order, bv.areas[order].insert(order, k).0).wf(),
        bv.areas[order].insert(order, k).1 is None ==> bv.release(order, k) == bv.with_area(
            order,
            bv.areas[order].insert(order, k).0,
        ),
        bv.areas[order].insert(order, k).1 is Some ==> {
            let next = bv.with_area(order, bv.areas[order].insert(order, k).0);
            &&& bv.areas[order].insert(order, k).1 == Some(k / 2)
            &&& order + 1 < spec_max_order()
            &&& spec_in_range(order + 1, k / 2, bv.pages)
            &&& next.block_unused(order + 1, k / 2)
            &&& bv.release(order, k) == next.release(order + 1, k / 2)
        },
{
    let av = bv.areas[order];
    lemma_first_page(k, order);
    let fp = spec_first_page(k, order);
    assert(!av.list.contains(k)) by {
        if av.list.contains(k) {
            assert(bv.areas[order].list.contains(spec_ancestor(fp, order)));
            assert(bv.page_free(fp));
            assert(false);
        }
    }
    lemma_area_insert(av, order, bv.pages, k);
    let (area, r) = av.insert(order, k);
    let next = bv.with_area(order, area);
    assert(next.areas[order] == area);
    assert forall|o: int| 0 <= o < spec_max_order() implies (#[trigger] next.areas[o]).wf(o, next.pages) by {
        if o != order {
            assert(next.areas[o] == bv.areas[o]);
        }
    }
    match r {
        None => {
            assert forall|p: int, o1: int, o2: int| 0 <= p && 0 <= o1 < o2 < spec_max_order() implies !(
            #[trigger] next.areas[o1].list.contains(spec_ancestor(p, o1))
                && #[trigger] next.areas[o2].list.contains(spec_ancestor(p, o2))) by {
                if next.areas[o1].list.contains(spec_ancestor(p, o1)) && next.areas[o2].list.contains(
                    spec_ancestor(p, o2),
                ) {
                    if o1 == order && spec_ancestor(p, order) == k {
                        assert(bv.areas[o2].list.contains(spec_ancestor(p, o2)));
                        assert(bv.page_free(p));
                        assert(false);
                    } else if o2 == order && spec_ancestor(p, order) == k {
                        assert(bv.areas[o1].list.contains(spec_ancestor(p, o1)));
                        assert(bv.page_free(p));
                        assert(false);
                    } else {
                        assert(bv.areas[o1].list.contains(spec_ancestor(p, o1)));
                        assert(bv.areas[o2].list.contains(spec_ancestor(p, o2)));
                        assert(false);
                    }
                }
            }
        },
        Some(m) => {
            let sib = spec_sibling(k);
            assert forall|p: int, o1: int, o2: int| 0 <= p && 0 <= o1 < o2 < spec_max_order() implies !(
            #[trigger] next.areas[o1].list.contains(spec_ancestor(p, o1))
                && #[trigger] next.areas[o2].list.contains(spec_ancestor(p, o2))) by {
                assert(next.areas[o1].list.contains(spec_ancestor(p, o1)) ==> bv.areas[o1].list.contains(
                    spec_ancestor(p, o1),
                ));
                assert(next.areas[o2].list.contains(spec_ancestor(p, o2)) ==> bv.areas[o2].list.contains(
                    spec_ancestor(p, o2),
                ));
            }
            assert forall|p: int| 0 <= p && #[trigger] next.page_free(p) implies (bv.page_free(p)
                && spec_ancestor(p, order) != sib) by {
                {
                    let o = choose|o: int|
                        0 <= o < spec_max_order() && #[trigger] next.areas[o].list.contains(spec_ancestor(p, o));
                    assert(bv.areas[o].list.contains(spec_ancestor(p, o)));
                    if spec_ancestor(p, order) == sib {
                        assert(bv.areas[order].list.contains(spec_ancestor(p, order)));
                        if o < order {
                            assert(false);
                        } else if o > order {
                            assert(false);
                        }
                    }
                }
            }
            let i = av.list.index_of(sib);
            assert(0 <= i < av.list.len() && av.list[i] == sib);
            assert(spec_in_range(order, sib, bv.pages));
            lemma_in_range_family(order, m, bv.pages);
            assert forall|p: int| 0 <= p && #[trigger] spec_ancestor(p, order + 1) == m implies !next.page_free(
                p,
            ) by {
                lemma_ancestor_step(p, order, m);
                if spec_ancestor(p, order) == k {
                    assert(!bv.page_free(p));
                }
            }
        },
    }
}


/// Whether block `k` of order `order` lies in range while the block of the
/// next order that holds it does not: no larger block could stand for it.
pub open spec fn spec_maximal_block(order: int, k: int, pages: int) -> bool {
    spec_in_range(order, k, pages) && (order == spec_max_order() - 1 || !spec_in_range(order + 1, k / 2, pages))
}

impl BuddyView {
    /// The state in which the whole range is free, cut into the largest
    /// blocks that fit: each order lists, in rising order, its blocks that
    /// are maximal.
    pub open spec fn all_free(self) -> bool {
        &&& self.areas.len() == spec_max_order()
        &&& forall|o: int, k: int|
            0 <= o < spec_max_order() ==> (#[trigger] self.areas[o].list.contains(k) <==> spec_maximal_block(
                o,
                k,
                self.pages,
            ))
        &&& forall|o: int, a: int, b: int|
            0 <= o < spec_max_order() && 0 <= a < b < self.areas[o].list.len() ==> #[trigger] self.areas[o].list[a]
                < #[trigger] self.areas[o].list[b]
    }
}

/// A block out of range lies in no block of a higher order that is in range.
pub proof fn lemma_out_of_range_up(order: int, k: int, n: int, pages: int)
    requires
        0 <= order,
        0 <= k,
        0 <= n,
        !spec_in_range(order, k, pages),
    ensures
        !spec_in_range(order + n, spec_ancestor(k, n), pages),
    decreases n,
{
    if n > 0 {
        lemma_out_of_range_up(order, k, n - 1, pages);
        lemma_ancestor_nonneg(k, n - 1);
        let m = spec_ancestor(k, n);
        let c = spec_ancestor(k, n - 1);
        assert(m == c / 2);
        lemma_in_range_family(order + n - 1, m, pages);
        assert(c == 2 * m || c == 2 * m + 1);
        if spec_in_range(order + n, m, pages) {
            assert(spec_in_range(order + n - 1, c, pages));
        }
    }
}

/// Where every order is well-formed by itself and lists exactly its maximal
/// blocks, no page lies in free blocks of two orders.
pub proof fn lemma_all_free_wf(bv: BuddyView)
    requires
        bv.all_free(),
        0 <= bv.pages,
        forall|o: int| 0 <= o < spec_max_order() ==> (#[trigger] bv.areas[o]).wf(o, bv.pages),
    ensures
        bv.wf(),
{
    assert forall|p: int, o1: int, o2: int| 0 <= p && 0 <= o1 < o2 < spec_max_order() implies !(
    #[trigger] bv.areas[o1].list.contains(spec_ancestor(p, o1)) && #[trigger] bv.areas[o2].list.contains(
        spec_ancestor(p, o2),
    )) by {
        if bv.areas[o1].list.contains(spec_ancestor(p, o1)) && bv.areas[o2].list.contains(spec_ancestor(p, o2)) {
            let k1 = spec_ancestor(p, o1);
            lemma_ancestor_nonneg(p, o1);
            assert(spec_maximal_block(o1, k1, bv.pages));
            assert(!spec_in_range(o1 + 1, k1 / 2, bv.pages));
            lemma_out_of_range_up(o1 + 1, k1 / 2, o2 - o1 - 1, bv.pages);
            assert(spec_ancestor(p, o1 + 1) == k1 / 2);
            lemma_ancestor_add(p, o1 + 1, o2 - o1 - 1);
            assert(spec_maximal_block(o2, spec_ancestor(p, o2), bv.pages));
            assert(false);
        }
    }
}

/// A list of different numbers from `0` up to `n` holds at most `n` of them.
pub proof fn lemma_distinct_bounded_len(s: Seq<int>, n: int)
    requires
        s.no_duplicates(),
        0 <= n,
        forall|i: int| 0 <= i < s.len() ==> 0 <= #[trigger] s[i] < n,
    ensures
        s.len() <= n,
    decreases n,
{
    if n == 0 {
        if s.len() > 0 {
            let x = s[0];
            assert(x < n);
        }
    } else if s.contains(n - 1) {
        let i = s.index_of(n - 1);
        assert(0 <= i < s.len() && s[i] == n - 1);
        lemma_seq_remove(s, i);
        let r = s.remove(i);
        assert forall|j: int| 0 <= j < r.len() implies 0 <= #[trigger] r[j] < n - 1 by {
            assert(r.contains(r[j]));
            if j < i {
                assert(r[j] == s[j]);
            } else {
                assert(r[j] == s[j + 1]);
            }
        }
        lemma_distinct_bounded_len(r, n - 1);
    } else {
        assert forall|j: int| 0 <= j < s.len() implies 0 <= #[trigger] s[j] < n - 1 by {
            assert(s.contains(s[j]));
        }
        lemma_distinct_bounded_len(s, n - 1);
    }
}


/// The pages of block `k` of order `order` are those from `k * 2^order` up
/// to, but not including, `(k + 1) * 2^order`, and its first page is the
/// first of them.
pub proof fn lemma_ancestor_range(p: int, order: int, k: int)
    requires
        0 <= order,
        0 <= p,
    ensures
        spec_ancestor(p, order) == k <==> k * spec_order2pages(order) <= p < (k + 1) * spec_order2pages(order),
        0 <= k ==> spec_first_page(k, order) == k * spec_order2pages(order),
    decreases order,
{
    let s = spec_order2pages(order);
    if order > 0 {
        let h = spec_order2pages(order - 1);
        assert(s == 2 * h);
        lemma_ancestor_range(p, order - 1, 2 * k);
        lemma_ancestor_range(p, order - 1, 2 * k + 1);
        let x = spec_ancestor(p, order - 1);
        assert(spec_ancestor(p, order) == x / 2);
        assert(x / 2 == k <==> (x == 2 * k || x == 2 * k + 1));
        let a = (2 * k) * h;
        let b = (2 * k + 1) * h;
        let c = (2 * k + 1 + 1) * h;
        assert(x == 2 * k <==> a <= p < b);
        assert(x == 2 * k + 1 <==> b <= p < c);
        assert(b == a + h) by (nonlinear_arith)
            requires
                a == (2 * k) * h,
                b == (2 * k + 1) * h,
        ;
        assert(c == b + h) by (nonlinear_arith)
            requires
                c == (2 * k + 1 + 1) * h,
                b == (2 * k + 1) * h,
        ;
        assert(k * s == a) by (nonlinear_arith)
            requires
                a == (2 * k) * h,
                s == 2 * h,
        ;
        assert((k + 1) * s == c) by (nonlinear_arith)
            requires
                c == (2 * k + 1 + 1) * h,
                s == 2 * h,
        ;
        crate::utils::lemma_order2pages_monotone(0, order - 1);
        assert(h >= 1);
        assert(spec_ancestor(p, order) == k <==> a <= p < c);
        if 0 <= k {
            assert(spec_first_page(k, order) == spec_first_page(2 * k, order - 1));
        }
    } else {
        assert(s == 1);
        assert(spec_ancestor(p, order) == p);
        assert(k * s == k) by (nonlinear_arith)
            requires
                s == 1,
        ;
        assert((k + 1) * s == k + 1) by (nonlinear_arith)
            requires
                s == 1,
        ;
    }
}


proof fn lemma_free_pages_same(a: BuddyView, b: BuddyView, order: int)
    requires
        0 <= order,
        a.areas.len() == b.areas.len(),
        forall|j: int| order <= j < spec_max_order() ==> a.areas[j].list.len() == b.areas[j].list.len(),
    ensures
        a.free_pages_from(order) == b.free_pages_from(order),
    decreases spec_max_order() - order,
{
    if order < spec_max_order() {
        lemma_free_pages_same(a, b, order + 1);
    }
}

proof fn lemma_free_pages_split(a: BuddyView, b: BuddyView, order: int, mid: int)
    requires
        0 <= order <= mid < spec_max_order(),
        a.areas.len() == b.areas.len(),
        forall|j: int|
            order <= j < spec_max_order() && j != mid ==> a.areas[j].list.len() == b.areas[j].list.len(),
    ensures
        a.free_pages_from(order) - b.free_pages_from(order) == (a.areas[mid].list.len() - b.areas[mid].list.len())
            * spec_order2pages(mid),
    decreases spec_max_order() - order,
{
    let d = a.areas[mid].list.len() - b.areas[mid].list.len();
    let s = spec_order2pages(mid);
    assert(a.areas[mid].list.len() * s - b.areas[mid].list.len() * s == d * s) by (nonlinear_arith)
        requires
            d == a.areas[mid].list.len() - b.areas[mid].list.len(),
    ;
    if order == mid {
        lemma_free_pages_same(a, b, order + 1);
    } else {
        lemma_free_pages_split(a, b, order + 1, mid);
    }
}

/// An allocation of order `order` that succeeds takes `2^order` pages from
/// the count of free pages, and one that fails leaves no page free at the
/// orders from `order` up.
pub proof fn lemma_allocate_count(bv: BuddyView, order: int)
    requires
        bv.wf(),
        0 <= order,
    ensures
        bv.allocate(order).1 is Some ==> bv.allocate(order).0.free_pages_from(0) == bv.free_pages_from(0)
            - spec_order2pages(order),
        bv.allocate(order).1 is None ==> bv.free_pages_from(order) == 0,
        bv.free_pages_from(order) >= 0,
        order < spec_max_order() && bv.free_pages_from(order) > 0 ==> bv.allocate(order).1 is Some,
    decreases spec_max_order() - order,
{
    lemma_allocate(bv, order);
    let (nv, r) = bv.allocate(order);
    if order >= spec_max_order() {
    } else {
        crate::utils::lemma_order2pages_monotone(0, order);
        let s = spec_order2pages(order);
        lemma_allocate_count(bv, order + 1);
        assert(bv.areas[order].list.len() * s >= 0) by (nonlinear_arith)
            requires
                s >= 1,
        ;
        if bv.areas[order].list.len() > 0 {
            let (area, k) = bv.areas[order].pop();
            assert(nv.areas[order] == area);
            assert forall|j: int| 0 <= j < spec_max_order() && j != order implies nv.areas[j].list.len()
                == bv.areas[j].list.len() by {
                assert(nv.areas[j] == bv.areas[j]);
            }
            lemma_free_pages_split(bv, nv, 0, order);
            assert((bv.areas[order].list.len() - area.list.len()) * s == s) by (nonlinear_arith)
                requires
                    bv.areas[order].list.len() - area.list.len() == 1,
            ;
        } else {
            let (higher, hr) = bv.allocate(order + 1);
            lemma_allocate(bv, order + 1);
            assert(bv.areas[order].list.len() * s == 0) by (nonlinear_arith)
                requires
                    bv.areas[order].list.len() == 0,
            ;
            match hr {
                Some(m) => {
                    let av = higher.areas[order];
                    assert(av == bv.areas[order]);
                    lemma_in_range_family(order, m, bv.pages);
                    assert(av.wf(order, bv.pages));
                    assert(av.list =~= Seq::<int>::empty());
                    assert(!av.list.contains(2 * m + 1));
                    assert(!av.list.contains(2 * m));
                    assert((2 * m + 1) / 2 == m);
                    assert(0 <= m < av.bits.len());
                    assert(av.bits[m] <==> (av.list.contains(2 * m) != av.list.contains(2 * m + 1)));
                    let (area, ir) = av.insert(order, 2 * m + 1);
                    assert(ir is None);
                    assert(area.list.len() == 1);
                    assert(nv.areas[order] == area);
                    assert forall|j: int| 0 <= j < spec_max_order() && j != order implies nv.areas[j].list.len()
                        == higher.areas[j].list.len() by {
                        assert(nv.areas[j] == higher.areas[j]);
                    }
                    lemma_free_pages_split(nv, higher, 0, order);
                    assert((area.list.len() - av.list.len()) * s == s) by (nonlinear_arith)
                        requires
                            area.list.len() - av.list.len() == 1,
                    ;
                    assert(spec_order2pages(order + 1) == 2 * s);
                },
                None => {},
            }
        }
    }
}


/// A release of a block of order `order` adds `2^order` pages to the count
/// of free pages, however often the block merges with a buddy.
pub proof fn lemma_release_count(bv: BuddyView, order: int, k: int)
    requires
        bv.wf(),
        0 <= order < spec_max_order(),
        spec_in_range(order, k, bv.pages),
        bv.block_unused(order, k),
    ensures
        bv.release(order, k).free_pages_from(0) == bv.free_pages_from(0) + spec_order2pages(order),
    decreases spec_max_order() - order,
{
    lemma_release_step(bv, order, k);
    let av = bv.areas[order];
    lemma_area_insert(av, order, bv.pages, k);
    let (area, r) = av.insert(order, k);
    let next = bv.with_area(order, area);
    let s = spec_order2pages(order);
    assert(next.areas[order] == area);
    assert forall|j: int| 0 <= j < spec_max_order() && j != order implies next.areas[j].list.len()
        == bv.areas[j].list.len() by {
        assert(next.areas[j] == bv.areas[j]);
    }
    lemma_free_pages_split(next, bv, 0, order);
    match r {
        None => {
            assert((area.list.len() - av.list.len()) * s == s) by (nonlinear_arith)
                requires
                    area.list.len() - av.list.len() == 1,
            ;
        },
        Some(m) => {
            let i = av.list.index_of(spec_sibling(k));
            assert(0 <= i < av.list.len());
            lemma_seq_remove(av.list, i);
            assert((area.list.len() - av.list.len()) * s == -s) by (nonlinear_arith)
                requires
                    area.list.len() - av.list.len() == -1,
            ;
            assert(spec_order2pages(order + 1) == 2 * s);
            lemma_release_count(next, order + 1, k / 2);
        },
    }
}

/// A rising list that holds exactly the numbers from `0` up to `n` has `n`
/// entries.
pub proof fn lemma_rising_full(s: Seq<int>, n: int)
    requires
        0 <= n,
        forall|a: int, b: int| 0 <= a < b < s.len() ==> #[trigger] s[a] < #[trigger] s[b],
        forall|k: int| #[trigger] s.contains(k) <==> 0 <= k < n,
    ensures
        s.len() == n,
{
    assert(s.no_duplicates()) by {
        assert forall|a: int, b: int| 0 <= a < s.len() && 0 <= b < s.len() && a != b implies s[a] != s[b] by {
            if a < b {
                assert(s[a] < s[b]);
            } else {
                assert(s[b] < s[a]);
            }
        }
    }
    assert forall|i: int| 0 <= i < s.len() implies 0 <= #[trigger] s[i] < n by {
        assert(s.contains(s[i]));
    }
    lemma_distinct_bounded_len(s, n);
    let t = Seq::new(n as nat, |k: int| s.index_of(k));
    assert forall|k: int| 0 <= k < n implies 0 <= #[trigger] t[k] < s.len() && s[t[k]] == k by {
        assert(s.contains(k));
    }
    assert(t.no_duplicates()) by {
        assert forall|a: int, b: int| 0 <= a < t.len() && 0 <= b < t.len() && a != b implies t[a] != t[b] by {
            assert(s[t[a]] == a);
            assert(s[t[b]] == b);
        }
    }
    lemma_distinct_bounded_len(t, s.len() as int);
}

/// Block `k` of a size of `s` pages lies within the first `pages` pages if
/// and only if it is one of the first `pages / s` blocks.
pub proof fn lemma_blocks_in(pages: int, s: int, k: int)
    requires
        0 <= pages,
        1 <= s,
    ensures
        (k + 1) * s <= pages <==> k < pages / s,
        0 <= pages / s,
        (pages / s) * s <= pages,
{
    vstd::arithmetic::div_mod::lemma_fundamental_div_mod(pages, s);
    let q = pages / s;
    let r = pages % s;
    assert(0 <= r < s) by {
        vstd::arithmetic::div_mod::lemma_mod_pos_bound(pages, s);
    }
    assert(s * q == q * s) by (nonlinear_arith);
    if k < q {
        assert((k + 1) * s <= q * s) by (nonlinear_arith)
            requires
                k + 1 <= q,
                1 <= s,
        ;
    } else {
        assert((k + 1) * s >= (q + 1) * s) by (nonlinear_arith)
            requires
                k + 1 >= q + 1,
                1 <= s,
        ;
        assert((q + 1) * s == q * s + s) by (nonlinear_arith);
    }
    assert(0 <= q) by (nonlinear_arith)
        requires
            pages == s * q + r,
            0 <= pages,
            0 <= r < s,
            1 <= s,
    ;
}

/// Where the whole range is free, the orders from `order` up hold between
/// them the pages of the blocks of order `order` that lie in the range.
pub proof fn lemma_all_free_from(bv: BuddyView, order: int)
    requires
        bv.all_free(),
        0 <= bv.pages,
        0 <= order < spec_max_order(),
    ensures
        bv.free_pages_from(order) == (bv.pages / spec_order2pages(order)) * spec_order2pages(order),
    decreases spec_max_order() - order,
{
    let s = spec_order2pages(order);
    let n = bv.pages / s;
    let list = bv.areas[order].list;
    crate::utils::lemma_order2pages_monotone(0, order);
    lemma_blocks_in(bv.pages, s, 0);
    assert forall|k: int| #[trigger] spec_in_range(order, k, bv.pages) <==> 0 <= k < n by {
        lemma_blocks_in(bv.pages, s, k);
    }
    assert forall|a: int, b: int| 0 <= a < b < list.len() implies #[trigger] list[a] < #[trigger] list[b] by {
        assert(bv.areas[order].list[a] < bv.areas[order].list[b]);
    }
    if order == spec_max_order() - 1 {
        assert forall|k: int| #[trigger] list.contains(k) <==> 0 <= k < n by {
            assert(bv.areas[order].list.contains(k) <==> spec_maximal_block(order, k, bv.pages));
            assert(spec_in_range(order, k, bv.pages) <==> 0 <= k < n);
        }
        lemma_rising_full(list, n);
        assert(bv.free_pages_from(order + 1) == 0);
    } else {
        let s2 = spec_order2pages(order + 1);
        assert(s2 == 2 * s);
        let n2 = bv.pages / s2;
        vstd::arithmetic::div_mod::lemma_div_denominator(bv.pages, s, 2);
        assert(s * 2 == s2) by (nonlinear_arith)
            requires
                s2 == 2 * s,
        ;
        assert(n2 == n / 2);
        lemma_all_free_from(bv, order + 1);
        assert forall|k: int| #[trigger] spec_in_range(order + 1, k, bv.pages) <==> 0 <= k < n2 by {
            lemma_blocks_in(bv.pages, s2, k);
        }
        // the one block that no larger block holds is the last, where the blocks are odd in number
        assert forall|k: int| #[trigger] list.contains(k) <==> (k == n - 1 && n % 2 == 1) by {
            assert(bv.areas[order].list.contains(k) <==> spec_maximal_block(order, k, bv.pages));
            assert(spec_in_range(order, k, bv.pages) <==> 0 <= k < n);
            assert(spec_in_range(order + 1, k / 2, bv.pages) <==> 0 <= k / 2 < n2);
        }
        if n % 2 == 1 {
            assert(list.contains(n - 1));
            if list.len() >= 2 {
                assert(list.contains(list[0]));
                assert(list.contains(list[1]));
                assert(list[0] < list[1]);
            }
            assert(list.len() == 1);
        } else {
            if list.len() >= 1 {
                assert(list.contains(list[0]));
            }
            assert(list.len() == 0);
        }
        assert(list.len() * s + n2 * s2 == n * s) by (nonlinear_arith)
            requires
                list.len() == n % 2,
                n2 == n / 2,
                s2 == 2 * s,
                0 <= n,
        ;
    }
}

/// Where the whole range is free, as many pages are free as the range has.
pub proof fn lemma_all_free_count(bv: BuddyView)
    requires
        bv.all_free(),
        0 <= bv.pages,
    ensures
        bv.free_pages_from(0) == bv.pages,
{
    lemma_all_free_from(bv, 0);
    assert(spec_order2pages(0) == 1);
}

} // verus!
