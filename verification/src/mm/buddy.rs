//! The buddy allocator of physical frames.
//!
//! The managed range is cut into blocks of `2^order` pages. Each order keeps
//! a list of its free blocks and a bitmap with one bit for each pair of
//! buddies. Allocation splits a block of a higher order where its own order
//! has none; release merges a block with its free buddy, order by order.
use vstd::prelude::*;
use vstd::arithmetic::div_mod::{
    lemma_div_by_multiple, lemma_div_is_ordered, lemma_fundamental_div_mod, lemma_mod_multiples_basic,
};
use vstd::arithmetic::mul::{lemma_mul_inequality, lemma_mul_strict_inequality};
use crate::consts::{MAX_ORDER, PAGE_SIZE};
use crate::mm::addr::{spec_ceil, spec_floor, PageAlign, Vaddr};
use crate::mm::bitmap::Bitmap;
use crate::mm::buddy_model::{
    lemma_allocate, lemma_area_insert, lemma_area_pop, lemma_first_page, lemma_in_range_family, lemma_release,
    lemma_all_free_wf, lemma_distinct_bounded_len, lemma_release_step, spec_maximal_block,
    spec_ancestor, spec_first_page, spec_in_range, spec_max_order, spec_sibling, AreaView, BuddyView,
};
use crate::utils::{lemma_order2pages_monotone, lemma_order2pages_values, order2pages, spec_order2pages};

verus! {

/// Size in bytes of a block of the given order.
pub open spec fn spec_block_bytes(order: int) -> int {
    spec_order2pages(order) * 4096
}

/// Address of block `k` of order `order` in a range that starts at `start`.
pub open spec fn spec_block_addr(start: int, order: int, k: int) -> int {
    start + k * spec_block_bytes(order)
}

proof fn lemma_block_arith(k: int, pgs: int)
    requires
        0 <= k,
        0 < pgs,
    ensures
        0 <= k * (pgs * 4096),
        (k * (pgs * 4096)) / 4096 == k * pgs,
        (k * pgs) / pgs == k,
        (k * pgs) % pgs == 0,
        (k * (pgs * 4096)) / (pgs * 4096) == k,
        (k * (pgs * 4096)) % (pgs * 4096) == 0,
        (k + 1) * (pgs * 4096) == k * (pgs * 4096) + pgs * 4096,
        (k - 1) * (pgs * 4096) == k * (pgs * 4096) - pgs * 4096,
        (k / 2) * (2 * pgs * 4096) == (k - k % 2) * (pgs * 4096),
        (k + 1) * (pgs * 4096) == ((k + 1) * pgs) * 4096,
        (2 * k) * (pgs * 4096) == k * (2 * pgs * 4096),
        (2 * k + 1) * (pgs * 4096) == k * (2 * pgs * 4096) + pgs * 4096,
{
    assert(0 <= k * (pgs * 4096)) by (nonlinear_arith)
        requires
            0 <= k,
            0 < pgs,
    ;
    assert(k * (pgs * 4096) == (k * pgs) * 4096) by (nonlinear_arith);
    assert(0 <= k * pgs) by (nonlinear_arith)
        requires
            0 <= k,
            0 < pgs,
    ;
    lemma_div_by_multiple(k * pgs, 4096);
    lemma_div_by_multiple(k, pgs);
    lemma_mod_multiples_basic(k, pgs);
    lemma_div_by_multiple(k, pgs * 4096);
    lemma_mod_multiples_basic(k, pgs * 4096);
    assert((k + 1) * (pgs * 4096) == k * (pgs * 4096) + pgs * 4096) by (nonlinear_arith);
    assert((k - 1) * (pgs * 4096) == k * (pgs * 4096) - pgs * 4096) by (nonlinear_arith);
    let h = k / 2;
    assert(k - k % 2 == 2 * h);
    assert(h * (2 * pgs * 4096) == (2 * h) * (pgs * 4096)) by (nonlinear_arith);
    assert((k + 1) * (pgs * 4096) == ((k + 1) * pgs) * 4096) by (nonlinear_arith);
    assert((2 * k) * (pgs * 4096) == k * (2 * pgs * 4096)) by (nonlinear_arith);
    assert((2 * k + 1) * (pgs * 4096) == k * (2 * pgs * 4096) + pgs * 4096) by (nonlinear_arith);
}

/// Blocks of one order at different indices lie at different addresses, and
/// a block in range ends within the range.
proof fn lemma_block_addr_facts(order: int, a: int, b: int, pages: int)
    requires
        0 <= order,
        0 <= a,
        0 <= b,
    ensures
        spec_block_bytes(order) >= 4096,
        a * spec_block_bytes(order) == b * spec_block_bytes(order) ==> a == b,
        spec_in_range(order, a, pages) ==> (a + 1) * spec_block_bytes(order) <= pages * 4096,
        (a + 1) * spec_block_bytes(order) <= pages * 4096 ==> spec_in_range(order, a, pages),
        a < pages + 1 || !spec_in_range(order, a, pages),
{
    let pgs = spec_order2pages(order);
    lemma_order2pages_monotone(0, order);
    let bytes = spec_block_bytes(order);
    if a < b {
        lemma_mul_strict_inequality(a, b, bytes);
    }
    if b < a {
        lemma_mul_strict_inequality(b, a, bytes);
    }
    assert((a + 1) * (pgs * 4096) == ((a + 1) * pgs) * 4096) by (nonlinear_arith);
    if spec_in_range(order, a, pages) {
        assert(a + 1 <= (a + 1) * pgs) by (nonlinear_arith)
            requires
                pgs >= 1,
                a >= 0,
        ;
    }
}

/// A block below a block in range is in range, and so is every block that
/// ends at or below an address within the range.
proof fn lemma_in_range_monotone(order: int, a: int, b: int, pages: int)
    requires
        0 <= order,
        0 <= a <= b,
    ensures
        spec_in_range(order, b, pages) ==> spec_in_range(order, a, pages),
        a < b && b * spec_block_bytes(order) <= pages * 4096 ==> spec_in_range(order, a, pages),
        spec_in_range(order, a, pages) ==> a + 1 <= pages / spec_order2pages(order),
{
    let pgs = spec_order2pages(order);
    lemma_order2pages_monotone(0, order);
    lemma_mul_inequality(a + 1, b + 1, pgs);
    if a < b {
        lemma_mul_inequality(a + 1, b, pgs);
    }
    assert(b * (pgs * 4096) == (b * pgs) * 4096) by (nonlinear_arith);
    if spec_in_range(order, a, pages) {
        lemma_div_by_multiple(a + 1, pgs);
        lemma_div_is_ordered((a + 1) * pgs, pages, pgs);
    }
}

/// A free block, named by the address of its first byte.
pub struct BuddyItem {
    pub vaddr: Vaddr,
}

/// The free blocks of one order.
pub struct FreeArea {
    list: Vec<BuddyItem>,
    bitmap: Bitmap,
    start_vaddr: Vaddr,
    free_cnt: usize,
    order: usize,
}

impl View for FreeArea {
    type V = AreaView;

    /// The listed blocks by index, and the bits of the bitmap.
    closed spec fn view(&self) -> AreaView {
        AreaView {
            list: Seq::new(self.list@.len(), |i: int| self.spec_index_of(self.list@[i].vaddr.0 as int)),
            bits: self.bitmap@,
        }
    }
}

impl FreeArea {
    /// The order of the blocks that this area keeps.
    pub closed spec fn spec_order(&self) -> int {
        self.order as int
    }

    /// The address at which the managed range starts.
    pub closed spec fn spec_start(&self) -> int {
        self.start_vaddr.0 as int
    }

    /// The index of the block of this area's order that starts at `addr`.
    pub open spec fn spec_index_of(&self, addr: int) -> int {
        (addr - self.spec_start()) / spec_block_bytes(self.spec_order())
    }

    /// The invariant: the model is well-formed for a range of `pages`
    /// pages, every listed address is that of a block of this order, and
    /// the range ends below the highest address.
    pub closed spec fn wf(&self, pages: int) -> bool {
        &&& self.order < MAX_ORDER
        &&& self.free_cnt == self.list@.len()
        &&& self.bitmap.wf()
        &&& 0 <= pages <= usize::MAX
        &&& self.start_vaddr.0 + pages * 4096 <= u64::MAX
        &&& self@.wf(self.order as int, pages)
        &&& forall|i: int|
            0 <= i < self.list@.len() ==> (#[trigger] self.list@[i]).vaddr.0 == spec_block_addr(
                self.start_vaddr.0 as int,
                self.order as int,
                self@.list[i],
            )
    }

    /// An area of order 0 at address 0 that lists no block and has an
    /// empty bitmap.
    fn default() -> (area: FreeArea)
        ensures
            area.order == 0,
            area.start_vaddr.0 == 0,
            area.free_cnt == 0,
            area.list@.len() == 0,
            area.bitmap@.len() == 0,
            area.bitmap.spec_len() == 0,
            area.bitmap.wf(),
    {
        FreeArea {
            list: Vec::new(),
            bitmap: Bitmap::default(),
            start_vaddr: Vaddr(0),
            free_cnt: 0,
            order: 0,
        }
    }

    /// Number of free blocks.
    fn len(&self) -> (n: usize)
        ensures
            n == self.free_cnt,
    {
        self.free_cnt
    }

    fn is_empty(&self) -> (b: bool)
        ensures
            b == (self.free_cnt == 0),
    {
        self.free_cnt == 0
    }

    /// The index of the bit that the block at `vaddr` shares with its buddy.
    /// Fails for an address below the range or one that is not the address of
    /// a block of this order.
    fn _get_bitmap_index(&self, vaddr: Vaddr) -> (r: Result<usize, isize>)
        requires
            self.order < MAX_ORDER,
            self.start_vaddr.0 <= vaddr.0 ==> (vaddr.0 - self.start_vaddr.0) / 4096 <= usize::MAX,
        ensures
            vaddr.0 >= self.start_vaddr.0 && ((vaddr.0 - self.start_vaddr.0) / 4096) % spec_order2pages(
                self.order as int,
            ) == 0 ==> r == Ok::<usize, isize>(
                ((vaddr.0 - self.start_vaddr.0) / 4096 / spec_order2pages(self.order as int) / 2) as usize,
            ),
            !(vaddr.0 >= self.start_vaddr.0 && ((vaddr.0 - self.start_vaddr.0) / 4096) % spec_order2pages(
                self.order as int,
            ) == 0) ==> r == Err::<usize, isize>(-1isize),
    {
        let pgs = order2pages(self.order);
        if vaddr.0 < self.start_vaddr.0 {
            return Err(-1);
        }
        let pg = ((vaddr.0 - self.start_vaddr.0) / (PAGE_SIZE as u64)) as usize;
        let mut index = pg / pgs;
        if pg % pgs != 0 {
            Err(-1)
        } else {
            index = index / 2;
            Ok(index)
        }
    }

    /// The address of the buddy of the block at `vaddr`.
    fn _get_buddy_vaddr(&self, vaddr: Vaddr) -> (buddy: Vaddr)
        requires
            self.order < MAX_ORDER,
            vaddr.0 >= self.start_vaddr.0,
            vaddr.0 + spec_block_bytes(self.order as int) <= u64::MAX,
            self.spec_index_of(vaddr.0 as int) % 2 == 1 ==> vaddr.0 >= spec_block_bytes(self.order as int),
        ensures
            buddy.0 == if self.spec_index_of(vaddr.0 as int) % 2 == 0 {
                vaddr.0 + spec_block_bytes(self.order as int)
            } else {
                vaddr.0 - spec_block_bytes(self.order as int)
            },
    {
        proof {
            lemma_order2pages_values();
            lemma_order2pages_monotone(self.order as int, 10);
        }
        let pgs = order2pages(self.order) as u64;
        let addr_interval = pgs * (PAGE_SIZE as u64);
        let index = (vaddr.0 - self.start_vaddr.0) / (pgs * (PAGE_SIZE as u64));
        if index % 2 == 0 {
            vaddr + addr_interval
        } else {
            vaddr - addr_interval
        }
    }

    /// What the invariant says of a listed block and of any block in range.
    proof fn lemma_wf_block(&self, pages: int, k: int)
        requires
            self.wf(pages),
            0 <= k,
        ensures
            spec_block_bytes(self.order as int) >= 4096,
            spec_block_bytes(self.order as int) == spec_order2pages(self.order as int) * 4096,
            spec_order2pages(self.order as int) <= 1024,
            self.spec_index_of(spec_block_addr(self.start_vaddr.0 as int, self.order as int, k)) == k,
            (spec_block_addr(self.start_vaddr.0 as int, self.order as int, k) - self.start_vaddr.0) / 4096
                == k * spec_order2pages(self.order as int),
            (k * spec_order2pages(self.order as int)) % spec_order2pages(self.order as int) == 0,
            (k * spec_order2pages(self.order as int)) / spec_order2pages(self.order as int) == k,
            spec_in_range(self.order as int, k, pages) ==> {
                &&& spec_block_addr(self.start_vaddr.0 as int, self.order as int, k + 1) <= self.start_vaddr.0
                    + pages * 4096
                &&& k < pages
                &&& k / 2 < self@.bits.len()
                &&& k * spec_order2pages(self.order as int) <= pages
            },
            spec_block_addr(self.start_vaddr.0 as int, self.order as int, k + 1) == spec_block_addr(
                self.start_vaddr.0 as int,
                self.order as int,
                k,
            ) + spec_block_bytes(self.order as int),
            spec_block_addr(self.start_vaddr.0 as int, self.order as int, k - 1) == spec_block_addr(
                self.start_vaddr.0 as int,
                self.order as int,
                k,
            ) - spec_block_bytes(self.order as int),
            spec_block_addr(self.start_vaddr.0 as int, self.order as int + 1, k / 2) == spec_block_addr(
                self.start_vaddr.0 as int,
                self.order as int,
                k - k % 2,
            ),
            spec_block_addr(self.start_vaddr.0 as int, self.order as int, k) >= self.start_vaddr.0,
    {
        let pgs = spec_order2pages(self.order as int);
        lemma_order2pages_values();
        lemma_order2pages_monotone(self.order as int, 10);
        lemma_order2pages_monotone(0, self.order as int);
        lemma_block_arith(k, pgs);
        lemma_block_addr_facts(self.order as int, k, k, pages);
        assert(spec_order2pages(self.order as int + 1) == 2 * pgs);
        assert(spec_block_bytes(self.order as int + 1) == 2 * pgs * 4096);
        if spec_in_range(self.order as int, k, pages) {
            assert(k * pgs <= (k + 1) * pgs) by (nonlinear_arith)
                requires
                    pgs >= 1,
            ;
            assert(k + 1 <= (k + 1) * pgs) by (nonlinear_arith)
                requires
                    pgs >= 1,
                    k >= 0,
            ;
        }
    }

    /// Takes the last free block off the list. Fails, changing nothing, where
    /// the list is empty.
    fn alloc_area(&mut self, Ghost(pages): Ghost<int>) -> (r: Result<BuddyItem, isize>)
        requires
            old(self).wf(pages),
        ensures
            final(self).wf(pages),
            final(self).order == old(self).order,
            final(self).start_vaddr == old(self).start_vaddr,
            old(self)@.list.len() == 0 ==> r == Err::<BuddyItem, isize>(-1isize) && final(self)@ == old(self)@,
            old(self)@.list.len() > 0 ==> r is Ok && final(self)@ == old(self)@.pop().0 && r->Ok_0.vaddr.0
                == spec_block_addr(
                old(self).start_vaddr.0 as int,
                old(self).order as int,
                old(self)@.pop().1,
            ),
    {
        if self.free_cnt == 0 {
            Err(-1)
        } else {
            let ghost before = self@;
            let ghost k = before.list.last();
            proof {
                lemma_area_pop(before, self.order as int, pages);
                self.lemma_wf_block(pages, k);
                assert(self.list@[self.list@.len() - 1].vaddr.0 == spec_block_addr(
                    self.start_vaddr.0 as int,
                    self.order as int,
                    self@.list[self.list@.len() - 1],
                ));
            }
            self.free_cnt -= 1;
            let popped = self.list.pop();
            let ret = popped.unwrap();
            match self._get_bitmap_index(ret.vaddr) {
                Ok(index) => {
                    assert(index == k / 2);
                    self.bitmap.turn_over(index);
                },
                _ => {
                    assert(false);
                },
            }
            proof {
                assert(self@.list =~= before.list.drop_last());
                assert(self@.bits =~= before.bits.update(k / 2, !before.bits[k / 2]));
                assert(self@ == before.pop().0);
            }
            Ok(ret)
        }
    }

    /// Hands a block back to the area. Where the buddy is free and the order
    /// is not the highest, the buddy leaves the list and the block that the
    /// two form is returned. Otherwise the block joins the list.
    fn insert_area(&mut self, item: BuddyItem, Ghost(pages): Ghost<int>) -> (r: Option<BuddyItem>)
        requires
            old(self).wf(pages),
            item.vaddr.0 == spec_block_addr(
                old(self).start_vaddr.0 as int,
                old(self).order as int,
                old(self).spec_index_of(item.vaddr.0 as int),
            ),
            spec_in_range(old(self).order as int, old(self).spec_index_of(item.vaddr.0 as int), pages),
            !old(self)@.list.contains(old(self).spec_index_of(item.vaddr.0 as int)),
        ensures
            final(self).wf(pages),
            final(self).order == old(self).order,
            final(self).start_vaddr == old(self).start_vaddr,
            final(self)@ == old(self)@.insert(
                old(self).order as int,
                old(self).spec_index_of(item.vaddr.0 as int),
            ).0,
            r is None <==> old(self)@.insert(
                old(self).order as int,
                old(self).spec_index_of(item.vaddr.0 as int),
            ).1 is None,
            r matches Some(merged) ==> merged.vaddr.0 == spec_block_addr(
                old(self).start_vaddr.0 as int,
                old(self).order as int + 1,
                old(self).spec_index_of(item.vaddr.0 as int) / 2,
            ),
    {
        let ghost before = self@;
        let ghost k = self.spec_index_of(item.vaddr.0 as int);
        let ghost sib = spec_sibling(k);
        proof {
            lemma_area_insert(before, self.order as int, pages, k);
            self.lemma_wf_block(pages, k);
        }
        match self._get_bitmap_index(item.vaddr) {
            Ok(index) => {
                assert(index == k / 2);
                // check bitmap
                let is_set = self.bitmap.get(index);
                let is_max = (self.order == (MAX_ORDER - 1));
                proof {
                    assert(self@.bits =~= before.bits);
                    assert(self@.list =~= before.list);
                    assert(is_set == before.bits[k / 2]);
                }
                if is_set && (!is_max) {
                    // combine with the buddy
                    proof {
                        if sib >= 0 {
                            self.lemma_wf_block(pages, sib);
                        }
                        let i = before.list.index_of(sib);
                        assert(0 <= i < before.list.len() && before.list[i] == sib);
                    }
                    let buddy_vaddr = self._get_buddy_vaddr(item.vaddr);
                    assert(buddy_vaddr.0 == spec_block_addr(self.start_vaddr.0 as int, self.order as int, sib));
                    let ghost gi = before.list.index_of(sib);
                    proof {
                        assert(self.list@[gi].vaddr.0 == spec_block_addr(
                            self.start_vaddr.0 as int,
                            self.order as int,
                            self@.list[gi],
                        ));
                    }
                    let mut removed_index = self.list.len();
                    let mut removed_acc: usize = 0;
                    while removed_acc < self.list.len()
                        invariant_except_break
                            removed_acc <= gi < self.list@.len(),
                            self.list@[gi].vaddr.0 == buddy_vaddr.0,
                        ensures
                            removed_index < self.list@.len(),
                            self.list@[removed_index as int].vaddr.0 == buddy_vaddr.0,
                        decreases self.list@.len() - removed_acc,
                    {
                        if buddy_vaddr.0 == self.list[removed_acc].vaddr.0 {
                            removed_index = removed_acc;
                            break ;
                        }
                        removed_acc += 1;
                    }
                    let ghost ri = removed_index as int;
                    proof {
                        assert(self.list@[ri].vaddr.0 == spec_block_addr(
                            self.start_vaddr.0 as int,
                            self.order as int,
                            self@.list[ri],
                        ));
                        lemma_block_addr_facts(self.order as int, before.list[ri], sib, pages);
                        assert(before.list[ri] == sib);
                        let i = before.list.index_of(sib);
                        assert(i == ri);
                    }
                    let ghost old_list = self.list@;
                    let removed_item = self.list.remove(removed_index);
                    self.free_cnt -= 1;
                    self.bitmap.clear(index);
                    let new_item = BuddyItem {
                        vaddr: if removed_item.vaddr.0 < item.vaddr.0 {
                            removed_item.vaddr
                        } else {
                            item.vaddr
                        },
                    };
                    proof {
                        assert(self@.list =~= before.list.remove(ri)) by {
                            assert forall|j: int| 0 <= j < self@.list.len() implies self@.list[j]
                                == before.list.remove(ri)[j] by {
                                if j < ri {
                                    assert(self.list@[j] == old_list[j]);
                                } else {
                                    assert(self.list@[j] == old_list[j + 1]);
                                }
                            }
                        }
                        assert(self@.bits =~= before.bits.update(k / 2, false));
                        assert(self@ == before.insert(self.order as int, k).0);
                        assert forall|i: int| 0 <= i < self.list@.len() implies (#[trigger] self.list@[i]).vaddr.0
                            == spec_block_addr(self.start_vaddr.0 as int, self.order as int, self@.list[i]) by {
                            if i < ri {
                                assert(self.list@[i] == old_list[i]);
                                assert(self@.list[i] == before.list[i]);
                            } else {
                                assert(self.list@[i] == old_list[i + 1]);
                                assert(self@.list[i] == before.list[i + 1]);
                            }
                        }
                    }
                    return Some(new_item);
                } else {
                    let ghost old_list = self.list@;
                    self.list.push(item);
                    self.free_cnt = self.list.len();
                    self.bitmap.turn_over(index);
                    proof {
                        assert(self@.list =~= before.list.push(k));
                        assert(self@.bits =~= before.bits.update(k / 2, !before.bits[k / 2]));
                        assert(self@ == before.insert(self.order as int, k).0);
                        assert forall|i: int| 0 <= i < self.list@.len() implies (#[trigger] self.list@[i]).vaddr.0
                            == spec_block_addr(self.start_vaddr.0 as int, self.order as int, self@.list[i]) by {
                            if i < old_list.len() {
                                assert(self.list@[i] == old_list[i]);
                                assert(self@.list[i] == before.list[i]);
                            }
                        }
                    }
                }
            },
            _ => {
                assert(false);
            },
        }
        return None;
    }
}


/// The buddy allocator: one area of free blocks for each order, over a range
/// of whole pages.
pub struct BuddyAllocator {
    free_areas: Vec<FreeArea>,
    start_vaddr: Vaddr,
    pages: usize,
}

impl View for BuddyAllocator {
    type V = BuddyView;

    closed spec fn view(&self) -> BuddyView {
        BuddyView {
            start: self.start_vaddr.0 as int,
            pages: self.pages as int,
            areas: Seq::new(self.free_areas@.len(), |o: int| self.free_areas@[o]@),
        }
    }
}

impl BuddyAllocator {
    /// The invariant: the model is well-formed, and every order's area is
    /// well-formed for the same range.
    pub closed spec fn wf(&self) -> bool {
        &&& self.free_areas@.len() == MAX_ORDER
        &&& self@.wf()
        &&& self.pages <= usize::MAX / 16
        &&& forall|o: int|
            0 <= o < MAX_ORDER ==> {
                &&& (#[trigger] self.free_areas@[o]).wf(self.pages as int)
                &&& self.free_areas@[o].order == o
                &&& self.free_areas@[o].start_vaddr == self.start_vaddr
            }
    }

    /// What the invariant says of the managed range and of its blocks.
    pub proof fn lemma_wf(&self)
        requires
            self.wf(),
        ensures
            self@.wf(),
            self@.areas.len() == MAX_ORDER,
            0 <= self@.start,
            0 <= self@.pages <= usize::MAX / 16,
            self@.start + self@.pages * 4096 <= u64::MAX,
            forall|order: int, k: int|
                0 <= order < MAX_ORDER && #[trigger] spec_in_range(order, k, self@.pages) ==> self@.start
                    <= spec_block_addr(self@.start, order, k) && spec_block_addr(self@.start, order, k)
                    + spec_block_bytes(order) <= self@.start + self@.pages * 4096,
    {
        assert(self.free_areas@[0].wf(self.pages as int));
        assert forall|order: int, k: int|
            0 <= order < MAX_ORDER && #[trigger] spec_in_range(order, k, self@.pages) implies self@.start
            <= spec_block_addr(self@.start, order, k) && spec_block_addr(self@.start, order, k)
            + spec_block_bytes(order) <= self@.start + self@.pages * 4096 by {
            assert(self.free_areas@[order].wf(self.pages as int));
            self.free_areas@[order].lemma_wf_block(self.pages as int, k);
        }
    }

    /// Allocates a block of `2^order` pages and returns its address. Fails
    /// where `order` is no order of the allocator or no order from `order`
    /// up has a free block; the allocator is then unchanged.
    pub fn alloc_area(&mut self, order: usize) -> (r: Result<Vaddr, isize>)
        requires
            old(self).wf(),
        ensures
            final(self).wf(),
            final(self)@ == old(self)@.allocate(order as int).0,
            r is Err <==> old(self)@.allocate(order as int).1 is None,
            r is Err <==> old(self)@.first_nonempty(order as int) == MAX_ORDER,
            r matches Err(e) ==> e == -1 && final(self)@ == old(self)@,
            r is Ok ==> final(self)@.free_pages_from(0) == old(self)@.free_pages_from(0) - spec_order2pages(order as int),
            r matches Ok(vaddr) ==> vaddr.0 == spec_block_addr(
                old(self)@.start,
                order as int,
                old(self)@.allocate(order as int).1->0,
            ),
        decreases MAX_ORDER - order,
    {
        proof {
            lemma_allocate(self@, order as int);
            self.lemma_wf();
            crate::mm::buddy_model::lemma_allocate_count(self@, order as int);
        }
        if order >= MAX_ORDER {
            Err(-1)
        } else {
            let ghost before = self@;
            let ghost pages = self.pages as int;
            assert(self.free_areas@[order as int].wf(pages));
            assert(before.areas[order as int] == self.free_areas@[order as int]@);
            match self.free_areas[order].alloc_area(Ghost(pages)) {
                Ok(item) => {
                    proof {
                        assert(self@.areas =~= before.areas.update(order as int, before.areas[order as int].pop().0));
                        assert(self@ == before.allocate(order as int).0);
                    }
                    Ok(item.vaddr)
                },
                _ => {
                    proof {
                        assert(self@.areas =~= before.areas);
                        assert(self@ == before);
                    }
                    match self.alloc_area(order + 1) {
                        Ok(vaddr) => {
                            // allocated from the next order: give its upper half back
                            let ghost higher = self@;
                            let ghost m = before.allocate(order + 1).1->0;
                            proof {
                                lemma_allocate(before, order + 1);
                                lemma_in_range_family(order as int, m, pages);
                                assert(self.free_areas@[order as int].wf(pages));
                                self.free_areas@[order as int].lemma_wf_block(pages, 2 * m + 1);
                                self.free_areas@[order as int].lemma_wf_block(pages, 2 * m);
                                lemma_block_arith(m, spec_order2pages(order as int));
                                assert(spec_order2pages(order + 1) == 2 * spec_order2pages(order as int));
                                assert(higher.areas[order as int] == before.areas[order as int]);
                                assert(higher.areas[order as int] == self.free_areas@[order as int]@);
                                assert(!higher.areas[order as int].list.contains(2 * m + 1));
                            }
                            let pgs = order2pages(order);
                            let re_insert_vaddr = vaddr + (PAGE_SIZE as u64) * (pgs as u64);
                            let insert_ret = self.free_areas[order].insert_area(
                                BuddyItem { vaddr: re_insert_vaddr },
                                Ghost(pages),
                            );
                            proof {
                                assert(self@.areas =~= higher.areas.update(
                                    order as int,
                                    higher.areas[order as int].insert(order as int, 2 * m + 1).0,
                                ));
                                assert(self@ == before.allocate(order as int).0);
                            }
                            Ok(vaddr)
                        },
                        _ => Err(-1),
                    }
                },
            }
        }
    }

    /// Gives the block of `2^order` pages at `vaddr` back. Fails, changing
    /// nothing, where `order` is no order of the allocator, or the block
    /// does not lie within the managed range, or `vaddr` is not the address of
    /// a block of that order. The block must be one that is in use: none of
    /// its pages may be free.
    pub fn free_area(&mut self, vaddr: Vaddr, order: usize) -> (r: Result<(), isize>)
        requires
            old(self).wf(),
            old(self).spec_valid_block(vaddr.0 as int, order as int) ==> old(self)@.block_unused(
                order as int,
                old(self).spec_block_index(vaddr.0 as int, order as int),
            ),
        ensures
            final(self).wf(),
            old(self).spec_valid_block(vaddr.0 as int, order as int) ==> r is Ok && final(self)@ == old(
                self,
            )@.release(order as int, old(self).spec_block_index(vaddr.0 as int, order as int)),
            r is Ok ==> final(self)@.free_pages_from(0) == old(self)@.free_pages_from(0) + spec_order2pages(order as int),
            r is Err ==> final(self)@.free_pages_from(0) == old(self)@.free_pages_from(0),
            !old(self).spec_valid_block(vaddr.0 as int, order as int) ==> r == Err::<(), isize>(-1isize)
                && final(self)@ == old(self)@,
    {
        // check order and align
        if order >= MAX_ORDER {
            return Err(-1);
        }
        proof {
            self.lemma_wf();
            lemma_order2pages_values();
            lemma_order2pages_monotone(order as int, 10);
            lemma_order2pages_monotone(0, order as int);
        }
        assert(self.free_areas@[order as int].wf(self.pages as int));
        if self.free_areas[order].start_vaddr.0 > vaddr.0 {
            return Err(-1);
        }
        let bytes = (PAGE_SIZE as u64) * (order2pages(order) as u64);
        if (vaddr.0 - self.free_areas[order].start_vaddr.0) % bytes != 0 {
            return Err(-1);
        }
        let end = self.start_vaddr.0 + (self.pages as u64) * (PAGE_SIZE as u64);
        if vaddr.0 > end || end - vaddr.0 < bytes {
            return Err(-1);
        }
        let ghost before = self@;
        let ghost pages = self.pages as int;
        let ghost k0 = self.spec_block_index(vaddr.0 as int, order as int);
        proof {
            lemma_fundamental_div_mod(vaddr.0 - self.start_vaddr.0, bytes as int);
            assert(vaddr.0 - self.start_vaddr.0 == bytes * k0);
            assert(bytes * k0 == k0 * bytes) by (nonlinear_arith);
            assert(0 <= k0) by (nonlinear_arith)
                requires
                    0 <= bytes * k0,
                    bytes > 0,
            ;
            lemma_block_arith(k0, spec_order2pages(order as int));
            lemma_block_addr_facts(order as int, k0, k0, pages);
            assert(self.spec_valid_block(vaddr.0 as int, order as int));
            crate::mm::buddy_model::lemma_release_count(before, order as int, k0);
        }
        let mut buddy_item = BuddyItem { vaddr };
        let mut i = order;
        let ghost mut k = k0;
        while i < MAX_ORDER
            invariant
                order <= i <= MAX_ORDER,
                self.wf(),
                before == old(self)@,
                k0 == old(self).spec_block_index(vaddr.0 as int, order as int),
                old(self).spec_valid_block(vaddr.0 as int, order as int),
                self@.pages == pages,
                self@.start == before.start,
                i < MAX_ORDER,
                spec_in_range(i as int, k, pages),
                self@.block_unused(i as int, k),
                buddy_item.vaddr.0 == spec_block_addr(before.start, i as int, k),
                before.release(order as int, k0) == self@.release(i as int, k),
                before.release(order as int, k0).free_pages_from(0) == before.free_pages_from(0) + spec_order2pages(
                    order as int,
                ),
            decreases MAX_ORDER - i,
        {
            let ghost mid = self@;
            proof {
                lemma_release_step(mid, i as int, k);
                assert(self.free_areas@[i as int].wf(pages));
                self.free_areas@[i as int].lemma_wf_block(pages, k);
                assert(mid.areas[i as int] == self.free_areas@[i as int]@);
            }
            match self.free_areas[i].insert_area(buddy_item, Ghost(pages)) {
                Some(n) => {
                    buddy_item = n;
                    proof {
                        assert(self@.areas =~= mid.areas.update(
                            i as int,
                            mid.areas[i as int].insert(i as int, k).0,
                        ));
                        assert(self@ == mid.with_area(i as int, mid.areas[i as int].insert(i as int, k).0));
                        k = k / 2;
                    }
                },
                None => {
                    proof {
                        assert(self@.areas =~= mid.areas.update(
                            i as int,
                            mid.areas[i as int].insert(i as int, k).0,
                        ));
                        assert(self@ == mid.with_area(i as int, mid.areas[i as int].insert(i as int, k).0));
                    }
                    return Ok(());
                },
            }
            i += 1;
        }
        return Err(-1);
    }

    /// The index of the block of order `order` that starts at `addr`.
    pub open spec fn spec_block_index(&self, addr: int, order: int) -> int {
        (addr - self@.start) / spec_block_bytes(order)
    }

    /// Whether `addr` is the address of a block of order `order` that lies
    /// within the managed range.
    pub open spec fn spec_valid_block(&self, addr: int, order: int) -> bool {
        &&& 0 <= order < MAX_ORDER
        &&& self@.start <= addr
        &&& (addr - self@.start) % spec_block_bytes(order) == 0
        &&& addr + spec_block_bytes(order) <= self@.start + self@.pages * 4096
    }
}


impl FreeArea {
    /// The free blocks of a well-formed area fit into the range.
    proof fn lemma_free_cnt_bound(&self, pages: int)
        requires
            self.wf(pages),
        ensures
            self@.list.len() == self.free_cnt,
            self.free_cnt * spec_order2pages(self.order as int) <= pages,
            1 <= spec_order2pages(self.order as int) <= 1024,
    {
        let pgs = spec_order2pages(self.order as int);
        lemma_order2pages_values();
        lemma_order2pages_monotone(self.order as int, 10);
        lemma_order2pages_monotone(0, self.order as int);
        let n = pages / pgs;
        let list = self@.list;
        assert forall|i: int| 0 <= i < list.len() implies 0 <= #[trigger] list[i] < n by {
            assert(spec_in_range(self.order as int, list[i], pages));
            lemma_in_range_monotone(self.order as int, list[i], list[i], pages);
        }
        assert(0 <= n) by (nonlinear_arith)
            requires
                n == pages / pgs,
                pages >= 0,
                pgs >= 1,
        ;
        lemma_distinct_bounded_len(list, n);
        lemma_fundamental_div_mod(pages, pgs);
        lemma_mul_inequality(list.len() as int, n, pgs);
        assert(pgs * n == n * pgs) by (nonlinear_arith);
    }

    /// An area of the given order over a range of `pages` pages from
    /// `start_vaddr`, with no free block.
    fn empty(order: usize, start_vaddr: Vaddr, pg_cnt: usize) -> (area: FreeArea)
        requires
            order < MAX_ORDER,
            pg_cnt <= usize::MAX / 16,
            start_vaddr.0 + pg_cnt * 4096 <= u64::MAX,
        ensures
            area.wf(pg_cnt as int),
            area.order == order,
            area.start_vaddr == start_vaddr,
            area@.list.len() == 0,
    {
        proof {
            lemma_order2pages_values();
            lemma_order2pages_monotone(order as int, 10);
        }
        let pgs = order2pages(order);
        let mut bitmap_len = pg_cnt / pgs;
        if pg_cnt % pgs != 0 {
            bitmap_len += 1;
        }
        let mut area = FreeArea::default();
        area.order = order;
        area.start_vaddr = start_vaddr;
        area.bitmap = Bitmap::new(bitmap_len);
        proof {
            let bits = area@.bits;
            area.bitmap.lemma_cap_words();
            assert(area@.list =~= Seq::<int>::empty());
            assert forall|k: int|
                #[trigger] spec_in_range(order as int, k, pg_cnt as int) implies k / 2 < bits.len() by {
                lemma_in_range_monotone(order as int, k, k, pg_cnt as int);
            }
            assert forall|p: int| 0 <= p < bits.len() implies (#[trigger] bits[p] <==> (area@.list.contains(2 * p)
                != area@.list.contains(2 * p + 1))) by {
                assert(!area.bitmap.bit(p));
            }
        }
        area
    }
}

impl Default for BuddyAllocator {
    /// An allocator that manages nothing yet.
    fn default() -> (b: Self)
        ensures
            b@.areas.len() == 0,
            b@.start == 0,
            b@.pages == 0,
    {
        BuddyAllocator { free_areas: Vec::new(), start_vaddr: Vaddr(0), pages: 0 }
    }
}

impl BuddyAllocator {
    /// Number of free pages: for each order, its free blocks times the pages
    /// of one block.
    pub fn get_free_pages_cnt(&self) -> (cnt: usize)
        requires
            self.wf(),
        ensures
            cnt == self@.free_pages_from(0),
    {
        let mut pgs_cnt: usize = 0;
        let mut i: usize = 0;
        while i < MAX_ORDER
            invariant
                self.wf(),
                i <= MAX_ORDER,
                pgs_cnt + self@.free_pages_from(i as int) == self@.free_pages_from(0),
                pgs_cnt <= i * self.pages,
            decreases MAX_ORDER - i,
        {
            proof {
                assert(self.free_areas@[i as int].wf(self.pages as int));
                self.free_areas@[i as int].lemma_free_cnt_bound(self.pages as int);
                assert(self@.areas[i as int] == self.free_areas@[i as int]@);
                assert((i + 1) * self.pages == i * self.pages + self.pages) by (nonlinear_arith);
                lemma_mul_inequality(i as int + 1, 11, self.pages as int);
            }
            let pg = self.free_areas[i].free_cnt * order2pages(i);
            pgs_cnt += pg;
            i += 1;
        }
        return pgs_cnt;
    }

    fn _init_areas(&mut self, start_vaddr: Vaddr, pg_cnt: usize)
        requires
            old(self)@.areas.len() == 0,
            pg_cnt <= usize::MAX / 16,
            start_vaddr.0 + pg_cnt * 4096 <= u64::MAX,
        ensures
            final(self).wf(),
            final(self)@.start == start_vaddr.0,
            final(self)@.pages == pg_cnt,
            final(self)@.all_free(),
            final(self)@.free_pages_from(0) == pg_cnt,
    {
        self.start_vaddr = start_vaddr;
        self.pages = pg_cnt;
        let mut vaddr_probe = start_vaddr;
        let vaddr_end = start_vaddr + (pg_cnt as u64) * (PAGE_SIZE as u64);
        let ghost pages = pg_cnt as int;
        let ghost start = start_vaddr.0 as int;
        let mut n: usize = 0;
        while n < MAX_ORDER
            invariant
                n <= MAX_ORDER,
                self.free_areas@.len() == n,
                self.start_vaddr == start_vaddr,
                self.pages == pg_cnt,
            decreases MAX_ORDER - n,
        {
            self.free_areas.push(FreeArea::default());
            n += 1;
        }
        let mut i: usize = MAX_ORDER;
        let ghost mut kp: int = 0;
        while i > 0
            invariant
                self.free_areas@.len() == MAX_ORDER,
                self.start_vaddr == start_vaddr,
                self.pages == pg_cnt,
                pages == pg_cnt,
                start == start_vaddr.0,
                pg_cnt <= usize::MAX / 16,
                start_vaddr.0 + pg_cnt * 4096 <= u64::MAX,
                vaddr_end.0 == start_vaddr.0 + pg_cnt * 4096,
                i <= MAX_ORDER,
                0 <= kp,
                vaddr_probe.0 <= vaddr_end.0,
                i > 0 ==> vaddr_probe.0 == spec_block_addr(start, i - 1, kp),
                i < MAX_ORDER ==> !spec_in_range(i as int, kp / 2, pages) && kp % 2 == 0,
                i == MAX_ORDER ==> kp == 0,
                forall|o: int|
                    i <= o < MAX_ORDER ==> {
                        &&& (#[trigger] self.free_areas@[o]).wf(pages)
                        &&& self.free_areas@[o].order == o
                        &&& self.free_areas@[o].start_vaddr == start_vaddr
                    },
                forall|o: int, k: int|
                    i <= o < MAX_ORDER ==> (#[trigger] self.free_areas@[o]@.list.contains(k)
                        <==> spec_maximal_block(o, k, pages)),
                forall|o: int, a: int, b: int|
                    i <= o < MAX_ORDER && 0 <= a < b < self.free_areas@[o]@.list.len()
                        ==> #[trigger] self.free_areas@[o]@.list[a] < #[trigger] self.free_areas@[o]@.list[b],
            decreases i,
        {
            i -= 1;
            proof {
                lemma_order2pages_values();
                lemma_order2pages_monotone(i as int, 10);
                lemma_order2pages_monotone(0, i as int);
            }
            let pgs = order2pages(i);
            let mut area = FreeArea::empty(i, start_vaddr, pg_cnt);
            let bytes = (pgs as u64) * (PAGE_SIZE as u64);
            let mut cnt: usize = 0;
            let mut j = vaddr_probe;
            proof {
                if i < MAX_ORDER - 1 {
                    // the block behind the first one would complete a block of
                    // the next order, which does not fit
                    lemma_in_range_family(i as int, kp / 2, pages);
                    assert(!spec_in_range(i as int, kp + 1, pages));
                }
                assert(area@.list =~= Seq::new(0, |t: int| kp + t));
            }
            while vaddr_end.0 - j.0 >= bytes
                invariant
                    area.wf(pages),
                    area.order == i,
                    i < MAX_ORDER,
                    area.start_vaddr == start_vaddr,
                    start == start_vaddr.0,
                    pages == pg_cnt,
                    bytes == spec_block_bytes(i as int),
                    vaddr_end.0 == start_vaddr.0 + pg_cnt * 4096,
                    start_vaddr.0 + pg_cnt * 4096 <= u64::MAX,
                    j.0 <= vaddr_end.0,
                    0 <= kp,
                    j.0 == spec_block_addr(start, i as int, kp + cnt),
                    area@.list == Seq::new(cnt as nat, |t: int| kp + t),
                    i < MAX_ORDER - 1 ==> !spec_in_range(i as int, kp + 1, pages),
                    i < MAX_ORDER - 1 ==> (cnt == 0 || !spec_in_range(i as int, kp + cnt, pages)),
                    forall|k: int| kp <= k < kp + cnt ==> #[trigger] spec_in_range(i as int, k, pages),
                decreases vaddr_end.0 - j.0,
            {
                let ghost kj = kp + cnt;
                let ghost before = area@;
                proof {
                    area.lemma_wf_block(pages, kj);
                    lemma_block_addr_facts(i as int, kj, kj, pages);
                    assert(spec_in_range(i as int, kj, pages));
                    assert(!before.list.contains(kj)) by {
                        if before.list.contains(kj) {
                            let t = choose|t: int| 0 <= t < before.list.len() && before.list[t] == kj;
                            assert(before.list[t] == kp + t);
                        }
                    }
                    lemma_area_insert(before, i as int, pages, kj);
                    if i < MAX_ORDER - 1 {
                        assert(cnt == 0);
                        assert(before.list.len() == 0);
                        assert(!before.list.contains(2 * (kj / 2)));
                        assert(!before.list.contains(2 * (kj / 2) + 1));
                        assert(0 <= kj / 2 < before.bits.len());
                        assert(before.bits[kj / 2] <==> (before.list.contains(2 * (kj / 2))
                            != before.list.contains(2 * (kj / 2) + 1)));
                    }
                    assert(before.insert(i as int, kj).1 is None);
                }
                let ret = area.insert_area(BuddyItem { vaddr: j }, Ghost(pages));
                assert(ret is None);
                cnt += 1;
                j = j + bytes;
                proof {
                    assert(area@.list =~= Seq::new(cnt as nat, |t: int| kp + t));
                    if i < MAX_ORDER - 1 {
                        assert(kp + cnt == kp + 1);
                    }
                }
            }
            proof {
                let kj = kp + cnt;
                area.lemma_wf_block(pages, kj);
                lemma_block_addr_facts(i as int, kj, kj, pages);
                assert(!spec_in_range(i as int, kj, pages));
                let list = area@.list;
                assert forall|k: int| #[trigger] list.contains(k) <==> spec_maximal_block(i as int, k, pages) by {
                    if list.contains(k) {
                        let t = choose|t: int| 0 <= t < list.len() && list[t] == k;
                        assert(list[t] == kp + t);
                        assert(spec_in_range(i as int, kp + t, pages));
                        if i < MAX_ORDER - 1 {
                            assert(k == kp);
                        }
                    }
                    if spec_maximal_block(i as int, k, pages) {
                        if k >= kj {
                            lemma_in_range_monotone(i as int, kj, k, pages);
                        }
                        if k < kp {
                            // a block below the probe lies in a block of the next order that fits
                            let m = k / 2;
                            assert(2 * m + 1 < kp);
                            lemma_block_arith(kp, spec_order2pages(i as int));
                            lemma_in_range_monotone(i as int, 2 * m + 1, kp, pages);
                            lemma_in_range_family(i as int, m, pages);
                        }
                        assert(list[k - kp] == k);
                    }
                }
                assert forall|a: int, b: int| 0 <= a < b < list.len() implies #[trigger] list[a] < #[trigger] list[b] by {
                }
            }
            vaddr_probe = j;
            let ghost prev = self.free_areas@;
            self.free_areas[i] = area;
            proof {
                let kj = kp + cnt;
                if i > 0 {
                    lemma_block_arith(kj, spec_order2pages(i as int - 1));
                    assert(spec_order2pages(i as int) == 2 * spec_order2pages(i as int - 1));
                    assert(spec_block_addr(start, i as int, kj) == spec_block_addr(start, i as int - 1, 2 * kj));
                }
                assert forall|o: int| i <= o < MAX_ORDER implies {
                    &&& (#[trigger] self.free_areas@[o]).wf(pages)
                    &&& self.free_areas@[o].order == o
                    &&& self.free_areas@[o].start_vaddr == start_vaddr
                } by {
                    if o > i {
                        assert(self.free_areas@[o] == prev[o]);
                    }
                }
                assert forall|o: int, k: int| i <= o < MAX_ORDER implies (
                #[trigger] self.free_areas@[o]@.list.contains(k) <==> spec_maximal_block(o, k, pages)) by {
                    if o > i {
                        assert(self.free_areas@[o] == prev[o]);
                    }
                }
                assert forall|o: int, a: int, b: int|
                    i <= o < MAX_ORDER && 0 <= a < b < self.free_areas@[o]@.list.len()
                    implies #[trigger] self.free_areas@[o]@.list[a] < #[trigger] self.free_areas@[o]@.list[b] by {
                    if o > i {
                        assert(self.free_areas@[o] == prev[o]);
                    }
                }
                kp = 2 * kj;
            }
        }
        proof {
            let bv = self@;
            assert forall|o: int| 0 <= o < spec_max_order() implies (#[trigger] bv.areas[o]).wf(o, bv.pages) by {
                assert(self.free_areas@[o].wf(pages));
            }
            assert forall|o: int, k: int| 0 <= o < spec_max_order() implies (#[trigger] bv.areas[o].list.contains(
                k,
            ) <==> spec_maximal_block(o, k, bv.pages)) by {
                assert(self.free_areas@[o]@.list.contains(k) <==> spec_maximal_block(o, k, pages));
            }
            assert forall|o: int, a: int, b: int|
                0 <= o < spec_max_order() && 0 <= a < b < bv.areas[o].list.len() implies #[trigger] bv.areas[o].list[a]
                < #[trigger] bv.areas[o].list[b] by {
                assert(self.free_areas@[o]@.list[a] < self.free_areas@[o]@.list[b]);
            }
            lemma_all_free_wf(bv);
        }
        proof {
            crate::mm::buddy_model::lemma_all_free_count(self@);
        }
    }

    /// Takes over the whole pages between `s_vaddr` and `e_vaddr`, all of
    /// them free, cut into the largest blocks that fit.
    pub fn init(&mut self, s_vaddr: Vaddr, e_vaddr: Vaddr)
        requires
            old(self)@.areas.len() == 0,
            spec_ceil(s_vaddr.0 as int) <= spec_floor(e_vaddr.0 as int),
            (spec_floor(e_vaddr.0 as int) - spec_ceil(s_vaddr.0 as int)) / 4096 <= usize::MAX / 16,
        ensures
            final(self).wf(),
            final(self)@.start == spec_ceil(s_vaddr.0 as int),
            final(self)@.pages == (spec_floor(e_vaddr.0 as int) - spec_ceil(s_vaddr.0 as int)) / 4096,
            final(self)@.all_free(),
            final(self)@.free_pages_from(0) == final(self)@.pages,
    {
        let ns_addr = s_vaddr.ceil();
        let ne_addr = e_vaddr.floor();
        let pg_cnt = ((ne_addr - ns_addr.0) / (PAGE_SIZE as u64)).0 as usize;
        self._init_areas(ns_addr, pg_cnt);
    }

    /// An allocator over the whole pages between `s_vaddr` and `e_vaddr`.
    pub fn new(s_vaddr: Vaddr, e_vaddr: Vaddr) -> (b: BuddyAllocator)
        requires
            spec_ceil(s_vaddr.0 as int) <= spec_floor(e_vaddr.0 as int),
            (spec_floor(e_vaddr.0 as int) - spec_ceil(s_vaddr.0 as int)) / 4096 <= usize::MAX / 16,
        ensures
            b.wf(),
            b@.start == spec_ceil(s_vaddr.0 as int),
            b@.pages == (spec_floor(e_vaddr.0 as int) - spec_ceil(s_vaddr.0 as int)) / 4096,
            b@.all_free(),
            b@.free_pages_from(0) == b@.pages,
    {
        let mut b = BuddyAllocator::default();
        b.init(s_vaddr, e_vaddr);
        return b;
    }
}

} // verus!
