//! Copies of address spaces that share their frames until one of the two
//! stores into a page.
use vstd::prelude::*;
use crate::consts::PHY_MEM_OFFSET;
use crate::mm::addr::Vaddr;
use crate::mm::fault::{lemma_apart_step, lemma_apart_sym, lemma_left_alone_trans, spec_apart, spec_left_alone};
use crate::mm::mm::{spec_sorted, MmStruct};
use crate::mm::page::Page;
use crate::mm::pagetable::{spec_entry_set, spec_vpn, PageTable};
use crate::mm::pte::{lemma_pte_flags, PTE};
use crate::mm::step::{lemma_step, lemma_step_from_fresh, lemma_step_from_grown, spec_frame_ok, spec_step};
use crate::mm::vma::{
    lemma_vma_vpn, spec_tree_holds, spec_vma_flags_2_pte_flags, PageTree, VmFlags, _vma_flags_2_pte_flags, VMA,
    VM_WRITE,
};
use crate::mm::MemoryManager;
use crate::pre::ShowRdWrEx;

verus! {

/// The rights `f` without the right to write.
pub open spec fn spec_read_only(f: VmFlags) -> VmFlags {
    VmFlags { bits: f.bits & !VM_WRITE }
}

/// The rights `f` without the right to write.
pub fn _read_only(f: VmFlags) -> (r: VmFlags)
    ensures
        r == spec_read_only(f),
{
    VmFlags { bits: f.bits & !VM_WRITE }
}

/// The entry that maps a page of the area `vma` to the frame `page`
/// without the right to write.
pub open spec fn spec_share_entry(vma: VMA, page: Page) -> PTE {
    PTE::spec_new(
        (page.vaddr.0 - PHY_MEM_OFFSET) as u64,
        spec_vma_flags_2_pte_flags(spec_read_only(vma.vm_flags)) | 1u8,
    )
}

/// Whether the areas `vmas` lie so close together that no two of their
/// pages have the same number.
pub open spec fn spec_one_window(vmas: Seq<VMA>) -> bool {
    forall|i: int, j: int|
        0 <= i <= j < vmas.len() ==> (#[trigger] vmas[j]).end_vaddr.0 - (#[trigger] vmas[i]).start_vaddr.0
            <= 0x80_0000_0000
}

/// The number of the pages with a frame in the areas from place `i` on.
pub open spec fn spec_pages_from(vmas: Seq<VMA>, i: int) -> int
    decreases vmas.len() - i,
{
    if i < 0 || i >= vmas.len() {
        0
    } else {
        vmas[i].pages_tree@.len() + spec_pages_from(vmas, i + 1)
    }
}

/// Whether the entry `k2` of the area `i2` comes before the entry `k` of the
/// area `i`.
pub open spec fn spec_before(i2: int, k2: int, i: int, k: int) -> bool {
    i2 < i || (i2 == i && k2 < k)
}

/// Whether the page table `pt` shares the frames of `parent` up to the
/// entry `k` of the area `i`: a page of `parent` with a frame that comes
/// before is mapped to that frame without the right to write, and one that
/// comes later is mapped to nothing.
pub open spec fn spec_shared_upto(pt: PageTable, parent: MmStruct, mem: MemoryManager, i: int, k: int) -> bool {
    forall|i2: int, k2: int|
        0 <= i2 < parent.vmas@.len() && 0 <= k2 < parent.vmas@[i2].pages_tree@.len() ==> pt.spec_translate(
            &mem,
            (#[trigger] parent.vmas@[i2].pages_tree@[k2]).vaddr.0,
        ) == if spec_before(i2, k2, i, k) {
            Some(spec_share_entry(parent.vmas@[i2], parent.vmas@[i2].pages_tree@[k2].page))
        } else {
            None::<PTE>
        }
}

/// Two different pages with frames in areas of one window have different
/// numbers.
pub proof fn lemma_window_vpn(parent: MmStruct, mem: MemoryManager, i: int, k: int, i2: int, k2: int)
    requires
        parent.wf(&mem),
        spec_one_window(parent.vmas@),
        0 <= i < parent.vmas@.len(),
        0 <= k < parent.vmas@[i].pages_tree@.len(),
        0 <= i2 < parent.vmas@.len(),
        0 <= k2 < parent.vmas@[i2].pages_tree@.len(),
        i != i2 || k != k2,
    ensures
        spec_vpn(parent.vmas@[i].pages_tree@[k].vaddr.0) != spec_vpn(parent.vmas@[i2].pages_tree@[k2].vaddr.0),
        parent.pagetable.spec_covers(parent.vmas@[i].pages_tree@[k].vaddr.0),
{
    let a = parent.vmas@[i].pages_tree@[k];
    let b = parent.vmas@[i2].pages_tree@[k2];
    let va = parent.vmas@[i];
    let vb = parent.vmas@[i2];
    assert(va.wf(&parent.pagetable, &mem));
    assert(vb.wf(&parent.pagetable, &mem));
    assert(va.start_vaddr.0 <= a.vaddr.0 < va.end_vaddr.0);
    assert(vb.start_vaddr.0 <= b.vaddr.0 < vb.end_vaddr.0);
    if i == i2 {
        lemma_vma_vpn(va.start_vaddr.0, va.end_vaddr.0, a.vaddr.0, b.vaddr.0);
    } else if i < i2 {
        assert(va.end_vaddr.0 <= vb.start_vaddr.0);
        lemma_vma_vpn(va.start_vaddr.0, vb.end_vaddr.0, a.vaddr.0, b.vaddr.0);
    } else {
        assert(vb.end_vaddr.0 <= va.start_vaddr.0);
        lemma_vma_vpn(vb.start_vaddr.0, va.end_vaddr.0, a.vaddr.0, b.vaddr.0);
    }
}

/// What the mapping of one more page of `parent` in the page table of an
/// address space without areas comes to.
pub proof fn lemma_share_one(
    child0: MmStruct,
    child1: MmStruct,
    parent: MmStruct,
    mem0: MemoryManager,
    mem1: MemoryManager,
    i: int,
    k: int,
)
    requires
        parent.wf(&mem0),
        child0.wf(&mem0),
        child0.vmas@.len() == 0,
        child1.vmas@.len() == 0,
        spec_apart(&child0, &parent, &mem0),
        spec_one_window(parent.vmas@),
        child0.pagetable.spec_first_index() == parent.pagetable.spec_first_index(),
        child0.pagetable.spec_end_index() == parent.pagetable.spec_end_index(),
        0 <= i < parent.vmas@.len(),
        0 <= k < parent.vmas@[i].pages_tree@.len(),
        spec_shared_upto(child0.pagetable, parent, mem0, i, k),
        spec_entry_set(
            child0.pagetable,
            mem0,
            child1.pagetable,
            mem1,
            parent.vmas@[i].pages_tree@[k].vaddr.0,
            spec_share_entry(parent.vmas@[i], parent.vmas@[i].pages_tree@[k].page),
        ),
    ensures
        child1.wf(&mem1),
        spec_apart(&child1, &parent, &mem1),
        spec_left_alone(&parent, &mem0, &mem1),
        child1.pagetable.spec_first_index() == parent.pagetable.spec_first_index(),
        child1.pagetable.spec_end_index() == parent.pagetable.spec_end_index(),
        spec_shared_upto(child1.pagetable, parent, mem1, i, k + 1),
{
    let va = parent.vmas@[i].pages_tree@[k].vaddr;
    let entry = spec_share_entry(parent.vmas@[i], parent.vmas@[i].pages_tree@[k].page);
    let touched = set![spec_vpn(va.0)];
    lemma_step_from_grown(child0.pagetable, mem0, child1.pagetable, mem1, touched);
    lemma_step(child0.pagetable, mem0, child1.pagetable, mem1, touched, Set::empty(), 0, 0);
    assert(child1.wf(&mem1));
    lemma_apart_step(child0, child1, parent, mem0, mem1, touched, Set::empty());
    lemma_pte_flags(spec_vma_flags_2_pte_flags(spec_read_only(parent.vmas@[i].vm_flags)), 0);
    PTE::lemma_entry(
        0,
        PTE::spec_from(0),
        (parent.vmas@[i].pages_tree@[k].page.vaddr.0 - PHY_MEM_OFFSET) as u64,
        spec_vma_flags_2_pte_flags(spec_read_only(parent.vmas@[i].vm_flags)) | 1u8,
    );
    assert forall|i2: int, k2: int|
        0 <= i2 < parent.vmas@.len() && 0 <= k2 < parent.vmas@[i2].pages_tree@.len() implies child1.pagetable.spec_translate(
        &mem1,
        (#[trigger] parent.vmas@[i2].pages_tree@[k2]).vaddr.0,
    ) == if spec_before(i2, k2, i, k + 1) {
        Some(spec_share_entry(parent.vmas@[i2], parent.vmas@[i2].pages_tree@[k2].page))
    } else {
        None::<PTE>
    } by {
        if i2 != i || k2 != k {
            let vb = parent.vmas@[i2].pages_tree@[k2].vaddr;
            lemma_window_vpn(parent, mem0, i2, k2, i, k);
            lemma_step(child0.pagetable, mem0, child1.pagetable, mem1, touched, Set::empty(), vb.0, 0);
            assert(child0.pagetable.spec_covers(vb.0));
        }
    }
}


/// Whether the page table `pt` has nothing in common with the address
/// space `b`: no table, and no frame of an area of `b` is a table of `pt`.
pub open spec fn spec_pt_apart(pt: &PageTable, b: &MmStruct, mem: &MemoryManager) -> bool {
    &&& forall|t: int| !(#[trigger] pt.spec_tables().contains(t) && b.pagetable.spec_tables().contains(t))
    &&& forall|p: int| #[trigger] b.spec_area_holds(mem, p) ==> !pt.spec_tables().contains(mem.buddy@.start + p * 4096)
}

/// An address space without areas is apart from another if and only if its
/// page table is.
pub proof fn lemma_pt_apart(child: &MmStruct, b: &MmStruct, mem: &MemoryManager)
    requires
        child.vmas@.len() == 0,
    ensures
        spec_apart(child, b, mem) <==> spec_pt_apart(&child.pagetable, b, mem),
{
    assert forall|p: int| !child.spec_area_holds(mem, p) by {}
}

/// The pages with a frame from one area on are those of the area and those
/// from the next area on.
pub proof fn lemma_pages_from(vmas: Seq<VMA>, i: int)
    requires
        0 <= i <= vmas.len(),
    ensures
        spec_pages_from(vmas, i) >= 0,
        i < vmas.len() ==> spec_pages_from(vmas, i) == vmas[i].pages_tree@.len() + spec_pages_from(vmas, i + 1),
        i == vmas.len() ==> spec_pages_from(vmas, i) == 0,
    decreases vmas.len() - i,
{
    if i < vmas.len() {
        lemma_pages_from(vmas, i + 1);
    }
}

/// An address space without areas over a fresh root, which was a free
/// frame, is well-formed and apart from the address space that it is to
/// share frames with, which is left alone; and it maps none of its pages.
pub proof fn lemma_cow_root(parent: MmStruct, child: MmStruct, mem0: MemoryManager, mem1: MemoryManager)
    requires
        parent.wf(&mem0),
        mem1.wf(),
        child.vmas@.len() == 0,
        child.pagetable.wf(&mem1),
        child.pagetable.spec_first_index() == parent.pagetable.spec_first_index(),
        child.pagetable.spec_end_index() == parent.pagetable.spec_end_index(),
        child.pagetable.spec_tables() == set![child.pagetable.spec_root()],
        mem0.spec_is_frame(child.pagetable.spec_root()),
        mem0.spec_frame_free(child.pagetable.spec_root()),
        mem1.buddy@ == mem0.buddy@.allocate(0).0,
        mem0.ram.same_but(&mem1.ram, child.pagetable.spec_root(), 4096),
        forall|p: int|
            0 <= p < mem0.pages@.len() && p != mem0.spec_index(child.pagetable.spec_root())
                ==> #[trigger] mem1.pages@[p] == mem0.pages@[p],
        forall|v: u64| child.pagetable.spec_covers(v) ==> #[trigger] child.pagetable.spec_walk(&mem1, v) is None,
    ensures
        parent.wf(&mem1),
        child.wf(&mem1),
        spec_left_alone(&parent, &mem0, &mem1),
        spec_apart(&child, &parent, &mem1),
        spec_shared_upto(child.pagetable, parent, mem1, 0, 0),
{
    lemma_step_from_fresh(parent.pagetable, mem0, mem1, child.pagetable.spec_root());
    crate::mm::fault::lemma_left_alone(&parent, &mem0, &mem1, Set::empty());
    mem0.buddy.lemma_wf();
    assert forall|p: int| #[trigger] parent.spec_area_holds(&mem1, p) implies !child.pagetable.spec_tables().contains(
        mem1.buddy@.start + p * 4096,
    ) by {
        let j = choose|j: int| 0 <= j < parent.vmas@.len() && (#[trigger] parent.vmas@[j]).spec_holds_frame(&mem1, p);
        parent.vmas@[j].lemma_holds_same(mem0, mem1);
        parent.vmas@[j].lemma_held(&parent.pagetable, &mem0, p);
        if child.pagetable.spec_tables().contains(mem1.buddy@.start + p * 4096) {
            assert(mem0.spec_index(child.pagetable.spec_root()) == p);
        }
    }
    assert forall|t: int|
        !(#[trigger] child.pagetable.spec_tables().contains(t) && parent.pagetable.spec_tables().contains(t)) by {
        if child.pagetable.spec_tables().contains(t) && parent.pagetable.spec_tables().contains(t) {
            assert(!mem0.spec_frame_free(t));
        }
    }
    lemma_pt_apart(&child, &parent, &mem1);
    assert forall|i2: int, k2: int|
        0 <= i2 < parent.vmas@.len() && 0 <= k2 < parent.vmas@[i2].pages_tree@.len() implies child.pagetable.spec_translate(
        &mem1,
        (#[trigger] parent.vmas@[i2].pages_tree@[k2]).vaddr.0,
    ) is None && !spec_before(i2, k2, 0, 0) by {
        assert(parent.vmas@[i2].wf(&parent.pagetable, &mem0));
        assert(parent.pagetable.spec_covers(parent.vmas@[i2].pages_tree@[k2].vaddr.0));
    }
}

/// What an attempt to map one more page that failed for want of frames
/// comes to: nothing that matters has changed.
pub proof fn lemma_share_none(child0: MmStruct, child1: MmStruct, parent: MmStruct, mem0: MemoryManager, mem1: MemoryManager)
    requires
        parent.wf(&mem0),
        child0.wf(&mem0),
        child0.vmas@.len() == 0,
        child1.vmas@.len() == 0,
        spec_apart(&child0, &parent, &mem0),
        crate::mm::pagetable::spec_grown(child0.pagetable, mem0, child1.pagetable, mem1, Set::empty()),
    ensures
        child1.wf(&mem1),
        spec_apart(&child1, &parent, &mem1),
        spec_left_alone(&parent, &mem0, &mem1),
        child1.pagetable.spec_first_index() == child0.pagetable.spec_first_index(),
        child1.pagetable.spec_end_index() == child0.pagetable.spec_end_index(),
{
    lemma_step_from_grown(child0.pagetable, mem0, child1.pagetable, mem1, Set::empty());
    lemma_step(child0.pagetable, mem0, child1.pagetable, mem1, Set::empty(), Set::empty(), 0, 0);
    assert(child1.wf(&mem1));
    lemma_apart_step(child0, child1, parent, mem0, mem1, Set::empty(), Set::empty());
}

impl MmStruct {
    /// Maps the pages with a frame of the area at place `i` of `parent` in
    /// the page table of this address space, which has no areas, to those
    /// frames without the right to write. Stops, and returns `false`, where
    /// the frames run out for the tables that are missing; with two free
    /// frames for each page that cannot happen.
    fn _cow_share_area(&mut self, parent: &MmStruct, mem: &mut MemoryManager, i: usize, Ghost(sure): Ghost<bool>) -> (ok:
        bool)
        requires
            parent.wf(old(mem)),
            old(self).wf(old(mem)),
            old(self).vmas@.len() == 0,
            spec_apart(old(self), parent, old(mem)),
            spec_one_window(parent.vmas@),
            old(self).pagetable.spec_first_index() == parent.pagetable.spec_first_index(),
            old(self).pagetable.spec_end_index() == parent.pagetable.spec_end_index(),
            i < parent.vmas@.len(),
            spec_shared_upto(old(self).pagetable, *parent, *old(mem), i as int, 0),
            sure ==> old(mem).buddy@.free_pages_from(0) >= 2 * spec_pages_from(parent.vmas@, i as int),
        ensures
            final(self).wf(final(mem)),
            final(self).vmas@.len() == 0,
            spec_apart(final(self), parent, final(mem)),
            spec_left_alone(parent, old(mem), final(mem)),
            final(self).pagetable.spec_first_index() == parent.pagetable.spec_first_index(),
            final(self).pagetable.spec_end_index() == parent.pagetable.spec_end_index(),
            ok ==> spec_shared_upto(final(self).pagetable, *parent, *final(mem), i + 1, 0),
            sure ==> ok && final(mem).buddy@.free_pages_from(0) >= 2 * spec_pages_from(parent.vmas@, i + 1),
            !ok ==> final(mem).buddy@.free_pages_from(0) < 2,
            final(self).is_kern == old(self).is_kern,
            final(self).brk == old(self).brk,
            final(self).start_brk == old(self).start_brk,
            final(self).cow_target == old(self).cow_target,
    {
        let n = parent.vmas[i].pages_tree.len();
        let flags = _vma_flags_2_pte_flags(_read_only(parent.vmas[i].get_flags()));
        let mut k: usize = 0;
        proof {
            lemma_pages_from(parent.vmas@, i as int);
            lemma_pages_from(parent.vmas@, i + 1);
            parent.lemma_mm_kept_refl(mem);
        }
        while k < n
            invariant
                k <= n,
                n == parent.vmas@[i as int].pages_tree@.len(),
                i < parent.vmas@.len(),
                flags == spec_vma_flags_2_pte_flags(spec_read_only(parent.vmas@[i as int].vm_flags)),
                parent.wf(mem),
                self.wf(mem),
                self.vmas@.len() == 0,
                spec_apart(self, parent, mem),
                spec_left_alone(parent, old(mem), mem),
                spec_one_window(parent.vmas@),
                self.pagetable.spec_first_index() == parent.pagetable.spec_first_index(),
                self.pagetable.spec_end_index() == parent.pagetable.spec_end_index(),
                spec_shared_upto(self.pagetable, *parent, *mem, i as int, k as int),
                sure ==> mem.buddy@.free_pages_from(0) >= 2 * (n - k) + 2 * spec_pages_from(parent.vmas@, i + 1),
                spec_pages_from(parent.vmas@, i + 1) >= 0,
                self.is_kern == old(self).is_kern,
                self.brk == old(self).brk,
                self.start_brk == old(self).start_brk,
                self.cow_target == old(self).cow_target,
            decreases n - k,
        {
            let ghost child0 = *self;
            let ghost mem0 = *mem;
            let va = parent.vmas[i].pages_tree.key_at(k);
            proof {
                let e = parent.vmas@[i as int].pages_tree@[k as int];
                assert(parent.vmas@[i as int].wf(&parent.pagetable, mem));
                assert(spec_frame_ok(e.page, &parent.pagetable, mem));
                assert(parent.pagetable.spec_covers(e.vaddr.0));
                assert(!spec_before(i as int, k as int, i as int, k as int));
                self.pagetable.lemma_walk(mem, va.0);
            }
            let pa = parent.vmas[i].pages_tree.page_at(k).get_paddr();
            let r = self.pagetable.map_one_page(mem, va, pa, flags);
            if r.is_err() {
                proof {
                    lemma_share_none(child0, *self, *parent, mem0, *mem);
                    lemma_left_alone_trans(parent, old(mem), &mem0, mem);
                }
                return false;
            }
            proof {
                lemma_share_one(child0, *self, *parent, mem0, *mem, i as int, k as int);
                lemma_left_alone_trans(parent, old(mem), &mem0, mem);
            }
            k += 1;
        }
        proof {
            assert forall|i2: int, k2: int|
                0 <= i2 < parent.vmas@.len() && 0 <= k2 < parent.vmas@[i2].pages_tree@.len() implies spec_before(
                i2,
                k2,
                i as int,
                n as int,
            ) == spec_before(i2, k2, i + 1, 0) by {}
        }
        true
    }
}


impl MmStruct {
    /// A page table for a copy of this address space: a fresh page table
    /// for a user in which every page of this address space that has a frame
    /// is mapped to that frame without the right to write. This address
    /// space is left as it is. Fails where the frames run out for the root
    /// or for a table, which cannot happen where a frame is free for the
    /// root and two for each such page; the tables made until then stay in
    /// use.
    #[verifier::rlimit(100)]
    #[verifier::spinoff_prover]
    pub fn new_cow_pagetable(&self, kernel: &PageTable, mem: &mut MemoryManager) -> (r: Option<PageTable>)
        requires
            self.wf(old(mem)),
            spec_one_window(self.vmas@),
            kernel.spec_private_len() >= 1,
            old(mem).spec_is_frame(kernel.spec_root()),
            !old(mem).spec_frame_free(kernel.spec_root()),
            forall|i: int|
                self.pagetable.spec_first_index() <= i < self.pagetable.spec_end_index() ==> !(
                #[trigger] crate::mm::pagetable::spec_entry(old(mem).ram, kernel.spec_root(), i)).spec_valid()
                    && !crate::mm::pagetable::spec_entry(old(mem).ram, kernel.spec_root(), i).spec_is_leaf(),
        ensures
            old(mem).buddy@.free_pages_from(0) >= 1 + 2 * spec_pages_from(self.vmas@, 0) ==> r is Some,
            r is None ==> old(mem).buddy@.free_pages_from(0) == 0 || final(mem).buddy@.free_pages_from(0) < 2,
            old(mem).buddy@.free_pages_from(0) == 0 ==> r is None && crate::mm::fault::spec_mem_same(old(mem), final(mem)),
            spec_left_alone(self, old(mem), final(mem)),
            r matches Some(pt) ==> {
                &&& pt.wf(final(mem))
                &&& pt.spec_first_index() == self.pagetable.spec_first_index()
                &&& pt.spec_end_index() == self.pagetable.spec_end_index()
                &&& spec_pt_apart(&pt, self, final(mem))
                &&& spec_shared_upto(pt, *self, *final(mem), self.vmas@.len() as int, 0)
            },
    {
        proof {
            lemma_pages_from(self.vmas@, 0);
        }
        let ghost sure = mem.buddy@.free_pages_from(0) >= 1 + 2 * spec_pages_from(self.vmas@, 0);
        let pt = match PageTable::new_user(
            kernel,
            mem,
            self.pagetable.get_first_index(),
            self.pagetable.get_end_index(),
        ) {
            Some(pt) => pt,
            None => {
                proof {
                    crate::mm::fault::lemma_left_alone_same(self, old(mem), mem);
                }
                return None;
            },
        };
        let mut child = MmStruct::new_empty_user_mm_by_pagetable(pt);
        proof {
            lemma_cow_root(*self, child, *old(mem), *mem);
        }
        let count = self.vmas.len();
        let mut i: usize = 0;
        while i < count
            invariant
                i <= count,
                count == self.vmas@.len(),
                self.wf(mem),
                child.wf(mem),
                child.vmas@.len() == 0,
                spec_apart(&child, self, mem),
                spec_left_alone(self, old(mem), mem),
                spec_one_window(self.vmas@),
                child.pagetable.spec_first_index() == self.pagetable.spec_first_index(),
                child.pagetable.spec_end_index() == self.pagetable.spec_end_index(),
                spec_shared_upto(child.pagetable, *self, *mem, i as int, 0),
                sure ==> mem.buddy@.free_pages_from(0) >= 2 * spec_pages_from(self.vmas@, i as int),
                sure == (old(mem).buddy@.free_pages_from(0) >= 1 + 2 * spec_pages_from(self.vmas@, 0)),
                old(mem).buddy@.free_pages_from(0) != 0,
            decreases count - i,
        {
            let ghost mem0 = *mem;
            let ok = child._cow_share_area(self, mem, i, Ghost(sure));
            proof {
                lemma_left_alone_trans(self, old(mem), &mem0, mem);
            }
            if !ok {
                return None;
            }
            i += 1;
        }
        proof {
            lemma_pt_apart(&child, self, mem);
        }
        Some(child.pagetable)
    }
}

/// Whether `v` lies on one of the first `k` pages of `tree`.
pub open spec fn spec_in_pages(tree: PageTree, k: int, v: u64) -> bool {
    exists|k2: int| 0 <= k2 < k && k2 < tree@.len() && spec_vpn((#[trigger] tree@[k2]).vaddr.0) == spec_vpn(v)
}

/// The entry `e` with the rights `flags` in place of its own.
pub open spec fn spec_demoted(e: Option<PTE>, flags: u8) -> Option<PTE> {
    match e {
        Some(pte) => Some(PTE { flags: flags | 1u8, ..pte }),
        None => None,
    }
}

/// Whether the area `after` is the area `before` with a reserve: the one
/// that it kept, or an empty one if it kept none.
pub open spec fn spec_reserving(before: VMA, after: VMA) -> bool {
    &&& before.spec_same_but_trees(&after)
    &&& after.pages_tree == before.pages_tree
    &&& after.cow_write_reserve_pgs is Some
    &&& before.cow_write_reserve_pgs is None ==> after.cow_write_reserve_pgs->0@.len() == 0
    &&& before.cow_write_reserve_pgs is Some ==> after.cow_write_reserve_pgs == before.cow_write_reserve_pgs
}

/// The rights of an entry that shares a page of an area with the rights
/// `f`.
pub open spec fn spec_share_flags(f: VmFlags) -> u8 {
    spec_vma_flags_2_pte_flags(spec_read_only(f))
}

impl MmStruct {
    /// Whether the page table maps the first `k` pages with a frame of the
    /// area at place `i` without the right to write, to what it mapped them
    /// to over `mem0`, and every address that lies on none of them as over
    /// `mem0`.
    pub open spec fn spec_demoted_upto(&self, mem0: &MemoryManager, pt0: &PageTable, mem: &MemoryManager, i: int, k: int) -> bool {
        let tree = self.vmas@[i].pages_tree;
        let flags = spec_share_flags(self.vmas@[i].vm_flags);
        &&& forall|v: u64|
            self.pagetable.spec_covers(v) && !spec_in_pages(tree, k, v) ==> #[trigger] self.pagetable.spec_translate(
                mem,
                v,
            ) == pt0.spec_translate(mem0, v)
        &&& forall|k2: int|
            0 <= k2 < k && k2 < tree@.len() ==> self.pagetable.spec_translate(mem, (#[trigger] tree@[k2]).vaddr.0)
                == spec_demoted(pt0.spec_translate(mem0, tree@[k2].vaddr.0), flags)
    }

    /// Gives the area at place `i` an empty reserve, if it keeps none, and
    /// takes the right to write from the entries of its pages with a frame,
    /// so that the next store into such a page is noticed.
    fn _cow_demote_area(&mut self, child: &MmStruct, mem: &mut MemoryManager, i: usize)
        requires
            old(self).wf(old(mem)),
            child.wf(old(mem)),
            spec_apart(old(self), child, old(mem)),
            i < old(self).vmas@.len(),
        ensures
            final(self).wf(final(mem)),
            spec_apart(final(self), child, final(mem)),
            spec_left_alone(child, old(mem), final(mem)),
            old(self).spec_same_but_area(final(self), i as int),
            spec_reserving(old(self).vmas@[i as int], final(self).vmas@[i as int]),
            final(self).spec_demoted_upto(
                old(mem),
                &old(self).pagetable,
                final(mem),
                i as int,
                old(self).vmas@[i as int].pages_tree@.len() as int,
            ),
            forall|p: int| #[trigger] final(self).spec_area_holds(final(mem), p) == old(self).spec_area_holds(old(mem), p),
            forall|p: int, k: int|
                old(self).spec_area_holds(old(mem), p) && 0 <= k < 4096 ==> #[trigger] final(mem).ram.spec_byte(
                    old(mem).buddy@.start + p * 4096 + k,
                ) == old(mem).ram.spec_byte(old(mem).buddy@.start + p * 4096 + k),
            final(self).pagetable.spec_first_index() == old(self).pagetable.spec_first_index(),
            final(self).pagetable.spec_end_index() == old(self).pagetable.spec_end_index(),
            final(self).pagetable.spec_root() == old(self).pagetable.spec_root(),
            final(mem).buddy@.start == old(mem).buddy@.start,
    {
        let n = self.vmas[i].pages_tree.len();
        let flags = _vma_flags_2_pte_flags(_read_only(self.vmas[i].get_flags()));
        if self.vmas[i].cow_write_reserve_pgs.is_none() {
            self.vmas[i].cow_write_reserve_pgs = Some(PageTree::new());
        }
        let ghost first = *self;
        proof {
            assert(self.vmas@ =~= old(self).vmas@.update(i as int, self.vmas@[i as int]));
            assert(first.vmas@ =~= first.vmas@.update(i as int, first.vmas@[i as int]));
            old(self).lemma_reserve_made(*self, mem, i as int);
            child.lemma_mm_kept_refl(mem);
            lemma_apart_sym(old(self), child, mem);
            first.lemma_holds_reserved(*old(self), mem, i as int);
            lemma_apart_sym(child, &first, mem);
        }
        let mut k: usize = 0;
        while k < n
            invariant
                k <= n,
                i < self.vmas@.len(),
                self.vmas@ == first.vmas@,
                n == self.vmas@[i as int].pages_tree@.len(),
                flags == spec_share_flags(self.vmas@[i as int].vm_flags),
                self.wf(mem),
                child.wf(mem),
                spec_apart(self, child, mem),
                spec_left_alone(child, old(mem), mem),
                first.spec_same_but_area(self, i as int),
                self.spec_demoted_upto(old(mem), &old(self).pagetable, mem, i as int, k as int),
                self.pagetable.spec_first_index() == old(self).pagetable.spec_first_index(),
                self.pagetable.spec_end_index() == old(self).pagetable.spec_end_index(),
                self.pagetable.spec_root() == old(self).pagetable.spec_root(),
                mem.buddy@.start == old(mem).buddy@.start,
                forall|p: int| #[trigger] self.spec_area_holds(mem, p) == old(self).spec_area_holds(old(mem), p),
                forall|p: int, b: int|
                    old(self).spec_area_holds(old(mem), p) && 0 <= b < 4096 ==> #[trigger] mem.ram.spec_byte(
                        old(mem).buddy@.start + p * 4096 + b,
                    ) == old(mem).ram.spec_byte(old(mem).buddy@.start + p * 4096 + b),
            decreases n - k,
        {
            let ghost parent0 = *self;
            let ghost mem0 = *mem;
            let va = self.vmas[i].pages_tree.key_at(k);
            proof {
                assert(self.vmas@[i as int].wf(&self.pagetable, mem));
                assert(self.pagetable.spec_covers(va.0));
            }
            let _ = self.pagetable.change_map_flags(mem, va, flags);
            proof {
                lemma_demote_one(parent0, *self, *child, mem0, *mem, *old(mem), old(self).pagetable, i as int, k as int);
                lemma_left_alone_trans(child, old(mem), &mem0, mem);
            }
            k += 1;
        }
    }

    /// An area that has been given an empty reserve leaves the address
    /// space well-formed.
    proof fn lemma_reserve_made(&self, after: MmStruct, mem: &MemoryManager, i: int)
        requires
            self.wf(mem),
            0 <= i < self.vmas@.len(),
            self.spec_same_but_area(&after, i),
            after.pagetable == self.pagetable,
            spec_reserving(self.vmas@[i], after.vmas@[i]),
        ensures
            after.wf(mem),
            after.spec_demoted_upto(mem, &self.pagetable, mem, i, 0),
    {
        let v0 = self.vmas@[i];
        let v1 = after.vmas@[i];
        assert(v0.wf(&self.pagetable, mem));
        assert(v1.wf(&after.pagetable, mem));
        after.lemma_holds_reserved(*self, mem, i);
        assert forall|j: int| 0 <= j < after.vmas@.len() implies (#[trigger] after.vmas@[j]).wf(&after.pagetable, mem)
            && after.vmas@[j].file_off + after.vmas@[j].file_len <= u64::MAX by {
            if j != i {
                assert(after.vmas@[j] == self.vmas@[j]);
            }
        }
        assert(spec_sorted(after.vmas@)) by {
            assert forall|j: int| 0 <= j < after.vmas@.len() implies (#[trigger] after.vmas@[j]).start_vaddr.0
                < after.vmas@[j].end_vaddr.0 by {
                assert(self.vmas@[j].start_vaddr.0 < self.vmas@[j].end_vaddr.0);
            }
            assert forall|j: int, k: int| 0 <= j < k < after.vmas@.len() implies (#[trigger] after.vmas@[j]).end_vaddr.0 <= (
            #[trigger] after.vmas@[k]).start_vaddr.0 by {
                assert(self.vmas@[j].end_vaddr.0 <= self.vmas@[k].start_vaddr.0);
            }
        }
        assert forall|j: int, k: int, p: int|
            0 <= j < after.vmas@.len() && 0 <= k < after.vmas@.len() && j != k implies !(
        #[trigger] after.vmas@[j].spec_holds_frame(mem, p) && #[trigger] after.vmas@[k].spec_holds_frame(mem, p)) by {
            assert(after.vmas@[j].spec_holds_frame(mem, p) == self.vmas@[j].spec_holds_frame(mem, p));
            assert(after.vmas@[k].spec_holds_frame(mem, p) == self.vmas@[k].spec_holds_frame(mem, p));
        }
    }

    /// An area holds with an empty reserve what it held without one.
    proof fn lemma_holds_reserved(&self, before: MmStruct, mem: &MemoryManager, i: int)
        requires
            0 <= i < before.vmas@.len(),
            before.spec_same_but_area(self, i),
            spec_reserving(before.vmas@[i], self.vmas@[i]),
        ensures
            forall|j: int, p: int|
                0 <= j < self.vmas@.len() ==> #[trigger] self.vmas@[j].spec_holds_frame(mem, p)
                    == before.vmas@[j].spec_holds_frame(mem, p),
            forall|p: int| #[trigger] self.spec_area_holds(mem, p) == before.spec_area_holds(mem, p),
    {
        assert forall|j: int, p: int| 0 <= j < self.vmas@.len() implies #[trigger] self.vmas@[j].spec_holds_frame(
            mem,
            p,
        ) == before.vmas@[j].spec_holds_frame(mem, p) by {
            if j == i {
                if before.vmas@[i].cow_write_reserve_pgs is None {
                    let res = self.vmas@[i].cow_write_reserve_pgs->0;
                    assert(!spec_tree_holds(res, mem, p));
                }
            } else {
                assert(self.vmas@[j] == before.vmas@[j]);
            }
        }
        assert forall|p: int| #[trigger] self.spec_area_holds(mem, p) == before.spec_area_holds(mem, p) by {
            if self.spec_area_holds(mem, p) {
                let j = choose|j: int| 0 <= j < self.vmas@.len() && (#[trigger] self.vmas@[j]).spec_holds_frame(mem, p);
                assert(before.vmas@[j].spec_holds_frame(mem, p));
            }
            if before.spec_area_holds(mem, p) {
                let j = choose|j: int| 0 <= j < before.vmas@.len() && (#[trigger] before.vmas@[j]).spec_holds_frame(mem, p);
                assert(self.vmas@[j].spec_holds_frame(mem, p));
            }
        }
    }
}

/// What the change of the rights of one more page of the area at place `i`
/// comes to.
pub proof fn lemma_demote_one(
    parent0: MmStruct,
    parent1: MmStruct,
    child: MmStruct,
    mem0: MemoryManager,
    mem1: MemoryManager,
    mem_start: MemoryManager,
    pt_start: PageTable,
    i: int,
    k: int,
)
    requires
        parent0.wf(&mem0),
        child.wf(&mem0),
        spec_apart(&parent0, &child, &mem0),
        0 <= i < parent0.vmas@.len(),
        0 <= k < parent0.vmas@[i].pages_tree@.len(),
        parent1.vmas@ == parent0.vmas@,
        parent1.is_kern == parent0.is_kern,
        parent1.brk == parent0.brk,
        parent1.start_brk == parent0.start_brk,
        parent1.cow_target == parent0.cow_target,
        parent0.spec_demoted_upto(&mem_start, &pt_start, &mem0, i, k),
        mem0.buddy@.start == mem_start.buddy@.start,
        ({
            let va = parent0.vmas@[i].pages_tree@[k].vaddr;
            let flags = spec_share_flags(parent0.vmas@[i].vm_flags);
            let before = parent0.pagetable.spec_translate(&mem0, va.0);
            &&& parent1.pagetable.wf(&mem1)
            &&& before is None ==> crate::mm::pagetable::spec_grown(
                parent0.pagetable,
                mem0,
                parent1.pagetable,
                mem1,
                Set::empty(),
            )
            &&& before matches Some(pte) ==> spec_entry_set(
                parent0.pagetable,
                mem0,
                parent1.pagetable,
                mem1,
                va.0,
                (PTE { flags: flags | 1u8, ..pte }),
            )
        }),
    ensures
        parent1.wf(&mem1),
        spec_apart(&parent1, &child, &mem1),
        spec_left_alone(&child, &mem0, &mem1),
        parent1.spec_demoted_upto(&mem_start, &pt_start, &mem1, i, k + 1),
        parent1.pagetable.spec_first_index() == parent0.pagetable.spec_first_index(),
        parent1.pagetable.spec_end_index() == parent0.pagetable.spec_end_index(),
        parent1.pagetable.spec_root() == parent0.pagetable.spec_root(),
        mem1.buddy@.start == mem0.buddy@.start,
        forall|p: int| #[trigger] parent1.spec_area_holds(&mem1, p) == parent0.spec_area_holds(&mem0, p),
        forall|p: int, b: int|
            parent0.spec_area_holds(&mem0, p) && 0 <= b < 4096 ==> #[trigger] mem1.ram.spec_byte(
                mem0.buddy@.start + p * 4096 + b,
            ) == mem0.ram.spec_byte(mem0.buddy@.start + p * 4096 + b),
{
    let tree = parent0.vmas@[i].pages_tree;
    let va = tree@[k].vaddr;
    let flags = spec_share_flags(parent0.vmas@[i].vm_flags);
    let before = parent0.pagetable.spec_translate(&mem0, va.0);
    let touched = set![spec_vpn(va.0)];
    let vma = parent0.vmas@[i];
    assert(vma.wf(&parent0.pagetable, &mem0));
    if before is None {
        lemma_step_from_grown(parent0.pagetable, mem0, parent1.pagetable, mem1, Set::empty());
        crate::mm::step::lemma_step_more(
            parent0.pagetable,
            mem0,
            parent1.pagetable,
            mem1,
            Set::empty(),
            Set::empty(),
            touched,
            Set::empty(),
        );
        lemma_step(parent0.pagetable, mem0, parent1.pagetable, mem1, Set::empty(), Set::empty(), va.0, 0);
    } else {
        lemma_step_from_grown(parent0.pagetable, mem0, parent1.pagetable, mem1, touched);
        lemma_pte_flags(flags, 0);
    }
    lemma_step(parent0.pagetable, mem0, parent1.pagetable, mem1, touched, Set::empty(), 0, 0);
    assert(parent1.vmas@ =~= parent0.vmas@.update(i, parent1.vmas@[i]));
    parent0.vmas@[i].lemma_vma_step(parent0.pagetable, mem0, parent1.pagetable, mem1, touched, Set::empty());
    parent0.vmas@[i].lemma_holds_same(mem0, mem1);
    parent0.lemma_area_step(parent1, mem0, mem1, i, touched, Set::empty());
    lemma_apart_step(parent0, parent1, child, mem0, mem1, touched, Set::empty());
    lemma_apart_sym(&parent1, &child, &mem1);
    lemma_apart_sym(&child, &parent1, &mem1);
    // what the areas hold, and the bytes of it
    assert forall|j: int, p: int| 0 <= j < parent0.vmas@.len() implies #[trigger] parent0.vmas@[j].spec_holds_frame(
        &mem1,
        p,
    ) == parent0.vmas@[j].spec_holds_frame(&mem0, p) by {
        parent0.vmas@[j].lemma_holds_same(mem0, mem1);
    }
    assert forall|p: int| #[trigger] parent1.spec_area_holds(&mem1, p) == parent0.spec_area_holds(&mem0, p) by {
        if parent1.spec_area_holds(&mem1, p) {
            let j = choose|j: int| 0 <= j < parent1.vmas@.len() && (#[trigger] parent1.vmas@[j]).spec_holds_frame(&mem1, p);
            assert(parent0.vmas@[j].spec_holds_frame(&mem0, p));
        }
        if parent0.spec_area_holds(&mem0, p) {
            let j = choose|j: int| 0 <= j < parent0.vmas@.len() && (#[trigger] parent0.vmas@[j]).spec_holds_frame(&mem0, p);
            assert(parent1.vmas@[j].spec_holds_frame(&mem1, p));
        }
    }
    assert forall|p: int, b: int| parent0.spec_area_holds(&mem0, p) && 0 <= b < 4096 implies #[trigger] mem1.ram.spec_byte(
        mem0.buddy@.start + p * 4096 + b,
    ) == mem0.ram.spec_byte(mem0.buddy@.start + p * 4096 + b) by {
        let j = choose|j: int| 0 <= j < parent0.vmas@.len() && (#[trigger] parent0.vmas@[j]).spec_holds_frame(&mem0, p);
        parent0.vmas@[j].lemma_held(&parent0.pagetable, &mem0, p);
        parent1.vmas@[j].lemma_held(&parent1.pagetable, &mem1, p);
        mem0.buddy.lemma_wf();
        crate::mm::fault::lemma_frame_of(mem0.buddy@.start, p, b);
        crate::mm::step::lemma_step_byte(
            parent0.pagetable,
            mem0,
            parent1.pagetable,
            mem1,
            touched,
            Set::empty(),
            mem0.buddy@.start + p * 4096 + b,
        );
    }
    // how the pages are mapped
    assert forall|v: u64|
        parent1.pagetable.spec_covers(v) && !spec_in_pages(tree, k + 1, v) implies #[trigger] parent1.pagetable.spec_translate(
        &mem1,
        v,
    ) == pt_start.spec_translate(&mem_start, v) by {
        assert(spec_vpn(tree@[k].vaddr.0) != spec_vpn(v));
        assert(!spec_in_pages(tree, k, v)) by {
            if spec_in_pages(tree, k, v) {
                let k2 = choose|k2: int|
                    0 <= k2 < k && k2 < tree@.len() && spec_vpn((#[trigger] tree@[k2]).vaddr.0) == spec_vpn(v);
                assert(0 <= k2 < k + 1 && k2 < tree@.len() && spec_vpn(tree@[k2].vaddr.0) == spec_vpn(v));
            }
        }
        lemma_step(parent0.pagetable, mem0, parent1.pagetable, mem1, touched, Set::empty(), v, 0);
        assert(parent0.pagetable.spec_translate(&mem0, v) == pt_start.spec_translate(&mem_start, v));
    }
    assert forall|k2: int| 0 <= k2 < k + 1 && k2 < tree@.len() implies parent1.pagetable.spec_translate(
        &mem1,
        (#[trigger] tree@[k2]).vaddr.0,
    ) == spec_demoted(pt_start.spec_translate(&mem_start, tree@[k2].vaddr.0), flags) by {
        let v2 = tree@[k2].vaddr;
        assert(parent0.pagetable.spec_covers(v2.0));
        if k2 < k {
            lemma_vma_vpn(vma.start_vaddr.0, vma.end_vaddr.0, v2.0, va.0);
            lemma_step(parent0.pagetable, mem0, parent1.pagetable, mem1, touched, Set::empty(), v2.0, 0);
        } else {
            assert(!spec_in_pages(tree, k, va.0)) by {
                if spec_in_pages(tree, k, va.0) {
                    let k3 = choose|k3: int|
                        0 <= k3 < k && k3 < tree@.len() && spec_vpn((#[trigger] tree@[k3]).vaddr.0) == spec_vpn(va.0);
                    lemma_vma_vpn(vma.start_vaddr.0, vma.end_vaddr.0, tree@[k3].vaddr.0, va.0);
                }
            }
            assert(parent0.pagetable.spec_translate(&mem0, va.0) == pt_start.spec_translate(&mem_start, va.0));
        }
    }
}


/// Whether `v` lies on a page with a frame of one of the first `i` areas
/// that may be written to.
pub open spec fn spec_demote_touches(vmas: Seq<VMA>, i: int, v: u64) -> bool {
    exists|i2: int|
        0 <= i2 < i && i2 < vmas.len() && (#[trigger] vmas[i2]).spec_writeable() && spec_in_pages(
            vmas[i2].pages_tree,
            vmas[i2].pages_tree@.len() as int,
            v,
        )
}

/// Whether the address space `p` over `mem` is the address space `par0` over
/// `mem0` after the first `i` areas have been made ready for sharing: each
/// of them that may be written to has an empty reserve, and its pages with a
/// frame are mapped without the right to write; everything else is as it
/// was.
pub open spec fn spec_demoted_areas(par0: MmStruct, mem0: MemoryManager, p: MmStruct, mem: MemoryManager, i: int) -> bool {
    &&& p.vmas@.len() == par0.vmas@.len()
    &&& p.is_kern == par0.is_kern
    &&& p.brk == par0.brk
    &&& p.start_brk == par0.start_brk
    &&& p.cow_target == par0.cow_target
    &&& p.pagetable.spec_first_index() == par0.pagetable.spec_first_index()
    &&& p.pagetable.spec_end_index() == par0.pagetable.spec_end_index()
    &&& p.pagetable.spec_root() == par0.pagetable.spec_root()
    &&& forall|j: int|
        0 <= j < par0.vmas@.len() ==> if j < i && par0.vmas@[j].spec_writeable() {
            spec_reserving(par0.vmas@[j], #[trigger] p.vmas@[j])
        } else {
            p.vmas@[j] == par0.vmas@[j]
        }
    &&& forall|j: int, k: int|
        0 <= j < par0.vmas@.len() && 0 <= k < par0.vmas@[j].pages_tree@.len() ==> p.pagetable.spec_translate(
            &mem,
            (#[trigger] par0.vmas@[j].pages_tree@[k]).vaddr.0,
        ) == if j < i && par0.vmas@[j].spec_writeable() {
            spec_demoted(
                par0.pagetable.spec_translate(&mem0, par0.vmas@[j].pages_tree@[k].vaddr.0),
                spec_share_flags(par0.vmas@[j].vm_flags),
            )
        } else {
            par0.pagetable.spec_translate(&mem0, par0.vmas@[j].pages_tree@[k].vaddr.0)
        }
    &&& forall|v: u64|
        par0.pagetable.spec_covers(v) && !spec_demote_touches(par0.vmas@, i, v) ==> #[trigger] p.pagetable.spec_translate(
            &mem,
            v,
        ) == par0.pagetable.spec_translate(&mem0, v)
    &&& forall|q: int| #[trigger] p.spec_area_holds(&mem, q) == par0.spec_area_holds(&mem0, q)
    &&& mem.buddy@.start == mem0.buddy@.start
    &&& forall|q: int, b: int|
        par0.spec_area_holds(&mem0, q) && 0 <= b < 4096 ==> #[trigger] mem.ram.spec_byte(mem0.buddy@.start + q * 4096 + b)
            == mem0.ram.spec_byte(mem0.buddy@.start + q * 4096 + b)
}

/// One more area has been made ready for sharing.
pub proof fn lemma_demoted_area(
    par0: MmStruct,
    mem0: MemoryManager,
    par1: MmStruct,
    mem1: MemoryManager,
    par2: MmStruct,
    mem2: MemoryManager,
    i: int,
)
    requires
        par0.wf(&mem0),
        spec_one_window(par0.vmas@),
        0 <= i < par0.vmas@.len(),
        spec_demoted_areas(par0, mem0, par1, mem1, i),
        par0.vmas@[i].spec_writeable(),
        par1.spec_same_but_area(&par2, i),
        spec_reserving(par1.vmas@[i], par2.vmas@[i]),
        par2.spec_demoted_upto(&mem1, &par1.pagetable, &mem2, i, par1.vmas@[i].pages_tree@.len() as int),
        forall|q: int| #[trigger] par2.spec_area_holds(&mem2, q) == par1.spec_area_holds(&mem1, q),
        mem2.buddy@.start == mem1.buddy@.start,
        forall|q: int, b: int|
            par1.spec_area_holds(&mem1, q) && 0 <= b < 4096 ==> #[trigger] mem2.ram.spec_byte(
                mem1.buddy@.start + q * 4096 + b,
            ) == mem1.ram.spec_byte(mem1.buddy@.start + q * 4096 + b),
        par2.pagetable.spec_first_index() == par1.pagetable.spec_first_index(),
        par2.pagetable.spec_end_index() == par1.pagetable.spec_end_index(),
        par2.pagetable.spec_root() == par1.pagetable.spec_root(),
    ensures
        spec_demoted_areas(par0, mem0, par2, mem2, i + 1),
{
    let tree = par0.vmas@[i].pages_tree;
    let n = tree@.len() as int;
    assert(par1.vmas@[i] == par0.vmas@[i]);
    assert forall|j: int| 0 <= j < par0.vmas@.len() implies if j < i + 1 && par0.vmas@[j].spec_writeable() {
        spec_reserving(par0.vmas@[j], #[trigger] par2.vmas@[j])
    } else {
        par2.vmas@[j] == par0.vmas@[j]
    } by {
        if j != i {
            assert(par2.vmas@[j] == par1.vmas@[j]);
        }
    }
    assert forall|j: int, k: int|
        0 <= j < par0.vmas@.len() && 0 <= k < par0.vmas@[j].pages_tree@.len() implies par2.pagetable.spec_translate(
        &mem2,
        (#[trigger] par0.vmas@[j].pages_tree@[k]).vaddr.0,
    ) == if j < i + 1 && par0.vmas@[j].spec_writeable() {
        spec_demoted(
            par0.pagetable.spec_translate(&mem0, par0.vmas@[j].pages_tree@[k].vaddr.0),
            spec_share_flags(par0.vmas@[j].vm_flags),
        )
    } else {
        par0.pagetable.spec_translate(&mem0, par0.vmas@[j].pages_tree@[k].vaddr.0)
    } by {
        let v = par0.vmas@[j].pages_tree@[k].vaddr.0;
        if j != i {
            assert(!spec_in_pages(tree, n, v)) by {
                if spec_in_pages(tree, n, v) {
                    let k2 = choose|k2: int|
                        0 <= k2 < n && k2 < tree@.len() && spec_vpn((#[trigger] tree@[k2]).vaddr.0) == spec_vpn(v);
                    lemma_window_vpn(par0, mem0, i, k2, j, k);
                }
            }
            assert(par0.vmas@[j].wf(&par0.pagetable, &mem0));
            assert(par0.pagetable.spec_covers(v));
            assert(par2.pagetable.spec_covers(v));
        } else {
            assert(tree@[k].vaddr.0 == v);
        }
    }
    assert forall|v: u64|
        par0.pagetable.spec_covers(v) && !spec_demote_touches(par0.vmas@, i + 1, v) implies #[trigger] par2.pagetable.spec_translate(
        &mem2,
        v,
    ) == par0.pagetable.spec_translate(&mem0, v) by {
        assert(!spec_in_pages(tree, n, v)) by {
            if spec_in_pages(tree, n, v) {
                assert(0 <= i < i + 1 && i < par0.vmas@.len() && par0.vmas@[i].spec_writeable());
            }
        }
        assert(!spec_demote_touches(par0.vmas@, i, v)) by {
            if spec_demote_touches(par0.vmas@, i, v) {
                let i2 = choose|i2: int|
                    0 <= i2 < i && i2 < par0.vmas@.len() && (#[trigger] par0.vmas@[i2]).spec_writeable() && spec_in_pages(
                        par0.vmas@[i2].pages_tree,
                        par0.vmas@[i2].pages_tree@.len() as int,
                        v,
                    );
                assert(0 <= i2 < i + 1);
            }
        }
    }
    assert forall|q: int, b: int| par0.spec_area_holds(&mem0, q) && 0 <= b < 4096 implies #[trigger] mem2.ram.spec_byte(
        mem0.buddy@.start + q * 4096 + b,
    ) == mem0.ram.spec_byte(mem0.buddy@.start + q * 4096 + b) by {
        assert(par1.spec_area_holds(&mem1, q));
        assert(mem2.ram.spec_byte(mem1.buddy@.start + q * 4096 + b) == mem1.ram.spec_byte(
            mem1.buddy@.start + q * 4096 + b,
        ));
    }
}


/// Whether the area `child` is the area `parent` without frames.
pub open spec fn spec_child_area(parent: VMA, child: VMA) -> bool {
    &&& parent.spec_same_but_trees(&child)
    &&& child.pages_tree@.len() == 0
    &&& child.cow_write_reserve_pgs is None
}

/// What a copy of an address space has brought about. The copy `child` has
/// the areas of the address space `par0`, without frames, and its heap; a page
/// of `par0` that had a frame is mapped in the copy to that frame without the
/// right to write. In the address space itself, now `par1`, each area that may
/// be written to has an empty reserve, and its pages with a frame are
/// mapped without the right to write; everything else is as it was. The two
/// have nothing in common but the frames that are shared in this way, which
/// hold what they held.
pub open spec fn spec_forked(par0: MmStruct, mem0: MemoryManager, par1: MmStruct, child: MmStruct, mem1: MemoryManager) -> bool {
    &&& par1.wf(&mem1)
    &&& child.wf(&mem1)
    &&& spec_apart(&child, &par1, &mem1)
    &&& spec_demoted_areas(par0, mem0, par1, mem1, par0.vmas@.len() as int)
    &&& !child.is_kern
    &&& child.brk == par0.brk
    &&& child.start_brk == par0.start_brk
    &&& child.cow_target == Some(Vaddr(par0.pagetable.spec_root() as u64))
    &&& child.pagetable.spec_first_index() == par0.pagetable.spec_first_index()
    &&& child.pagetable.spec_end_index() == par0.pagetable.spec_end_index()
    &&& child.vmas@.len() == par0.vmas@.len()
    &&& forall|j: int| 0 <= j < par0.vmas@.len() ==> spec_child_area(par0.vmas@[j], #[trigger] child.vmas@[j])
    &&& spec_shared_upto(child.pagetable, par0, mem1, par0.vmas@.len() as int, 0)
}

impl MmStruct {
    /// Makes every area that may be written to ready for sharing with
    /// `child`: it gets an empty reserve, if it keeps none, and its pages
    /// with a frame lose the right to write in the page table.
    fn _cow_demote(&mut self, child: &MmStruct, mem: &mut MemoryManager)
        requires
            old(self).wf(old(mem)),
            child.wf(old(mem)),
            spec_apart(old(self), child, old(mem)),
            spec_one_window(old(self).vmas@),
        ensures
            final(self).wf(final(mem)),
            spec_apart(final(self), child, final(mem)),
            spec_left_alone(child, old(mem), final(mem)),
            spec_demoted_areas(*old(self), *old(mem), *final(self), *final(mem), old(self).vmas@.len() as int),
    {
        let count = self.vmas.len();
        let mut i: usize = 0;
        proof {
            child.lemma_mm_kept_refl(mem);
            assert forall|v: u64| !spec_demote_touches(self.vmas@, 0, v) by {}
        }
        while i < count
            invariant
                i <= count,
                count == old(self).vmas@.len(),
                old(self).wf(old(mem)),
                spec_one_window(old(self).vmas@),
                self.wf(mem),
                child.wf(mem),
                spec_apart(self, child, mem),
                spec_left_alone(child, old(mem), mem),
                spec_demoted_areas(*old(self), *old(mem), *self, *mem, i as int),
            decreases count - i,
        {
            let ghost par1 = *self;
            let ghost mem1 = *mem;
            proof {
                assert(self.vmas@[i as int] == old(self).vmas@[i as int]);
            }
            if self.vmas[i].writeable() {
                self._cow_demote_area(child, mem, i);
                proof {
                    lemma_demoted_area(*old(self), *old(mem), par1, mem1, *self, *mem, i as int);
                    lemma_left_alone_trans(child, old(mem), &mem1, mem);
                }
            } else {
                proof {
                    lemma_not_demoted(*old(self), *old(mem), *self, *mem, i as int);
                }
            }
            i += 1;
        }
    }
}

/// An area that may not be written to needs nothing to be ready for
/// sharing.
pub proof fn lemma_not_demoted(par0: MmStruct, mem0: MemoryManager, par1: MmStruct, mem1: MemoryManager, i: int)
    requires
        0 <= i < par0.vmas@.len(),
        spec_demoted_areas(par0, mem0, par1, mem1, i),
        !par0.vmas@[i].spec_writeable(),
    ensures
        spec_demoted_areas(par0, mem0, par1, mem1, i + 1),
{
    assert forall|v: u64|
        par0.pagetable.spec_covers(v) && !spec_demote_touches(par0.vmas@, i + 1, v) implies #[trigger] par1.pagetable.spec_translate(
        &mem1,
        v,
    ) == par0.pagetable.spec_translate(&mem0, v) by {
        assert(!spec_demote_touches(par0.vmas@, i, v)) by {
            if spec_demote_touches(par0.vmas@, i, v) {
                let i2 = choose|i2: int|
                    0 <= i2 < i && i2 < par0.vmas@.len() && (#[trigger] par0.vmas@[i2]).spec_writeable() && spec_in_pages(
                        par0.vmas@[i2].pages_tree,
                        par0.vmas@[i2].pages_tree@.len() as int,
                        v,
                    );
                assert(0 <= i2 < i + 1);
            }
        }
    }
}


impl MmStruct {
    /// The areas of `parent`, each without frames, for this address space,
    /// which has none yet.
    fn _cow_take_areas(&mut self, parent: &MmStruct)
        requires
            old(self).vmas@.len() == 0,
        ensures
            final(self).pagetable == old(self).pagetable,
            final(self).is_kern == old(self).is_kern,
            final(self).brk == old(self).brk,
            final(self).start_brk == old(self).start_brk,
            final(self).cow_target == old(self).cow_target,
            final(self).vmas@.len() == parent.vmas@.len(),
            forall|j: int| 0 <= j < parent.vmas@.len() ==> spec_child_area(parent.vmas@[j], #[trigger] final(self).vmas@[j]),
    {
        let count = parent.vmas.len();
        let mut j: usize = 0;
        while j < count
            invariant
                j <= count,
                count == parent.vmas@.len(),
                self.vmas@.len() == j,
                self.pagetable == old(self).pagetable,
                self.is_kern == old(self).is_kern,
                self.brk == old(self).brk,
                self.start_brk == old(self).start_brk,
                self.cow_target == old(self).cow_target,
                forall|j2: int| 0 <= j2 < j ==> spec_child_area(parent.vmas@[j2], #[trigger] self.vmas@[j2]),
            decreases count - j,
        {
            let vma = &parent.vmas[j];
            let new_vma = VMA {
                start_vaddr: vma.start_vaddr,
                end_vaddr: vma.end_vaddr,
                vm_flags: vma.vm_flags,
                // an empty tree: no frame belongs to the copy yet
                pages_tree: PageTree::new(),
                file: vma.file,
                file_off: vma.file_off,
                file_in_vma_off: vma.file_in_vma_off,
                file_len: vma.file_len,
                phy_pgs_cnt: vma.phy_pgs_cnt,
                cow_write_reserve_pgs: None,
            };
            self.vmas.push(new_vma);
            j += 1;
        }
    }
}

/// An address space that has taken the areas of another, without frames, is
/// well-formed, and apart from the other if its page table is.
pub proof fn lemma_child_areas(child: MmStruct, parent: MmStruct, par0: MmStruct, mem: MemoryManager)
    requires
        parent.wf(&mem),
        child.pagetable.wf(&mem),
        child.pagetable.spec_first_index() == parent.pagetable.spec_first_index(),
        child.pagetable.spec_end_index() == parent.pagetable.spec_end_index(),
        spec_pt_apart(&child.pagetable, &parent, &mem),
        child.vmas@.len() == parent.vmas@.len(),
        par0.vmas@.len() == parent.vmas@.len(),
        forall|j: int| 0 <= j < par0.vmas@.len() ==> spec_child_area(par0.vmas@[j], #[trigger] child.vmas@[j]),
        forall|j: int| 0 <= j < par0.vmas@.len() ==> par0.vmas@[j].spec_same_but_trees(&#[trigger] parent.vmas@[j]),
    ensures
        child.wf(&mem),
        spec_apart(&child, &parent, &mem),
{
    assert forall|j: int| 0 <= j < child.vmas@.len() implies (#[trigger] child.vmas@[j]).wf(&child.pagetable, &mem)
        && child.vmas@[j].file_off + child.vmas@[j].file_len <= u64::MAX by {
        let c = child.vmas@[j];
        let p = parent.vmas@[j];
        assert(p.wf(&parent.pagetable, &mem));
        assert(spec_child_area(par0.vmas@[j], c));
        assert(par0.vmas@[j].spec_same_but_trees(&p));
        assert forall|v: u64| c.start_vaddr.0 <= v < c.end_vaddr.0 implies #[trigger] child.pagetable.spec_covers(v) by {
            assert(parent.pagetable.spec_covers(v));
        }
    }
    assert forall|j: int, p: int| 0 <= j < child.vmas@.len() implies !(#[trigger] child.vmas@[j].spec_holds_frame(
        &mem,
        p,
    )) by {
        assert(spec_child_area(par0.vmas@[j], child.vmas@[j]));
    }
    assert(spec_sorted(child.vmas@)) by {
        assert forall|j: int| 0 <= j < child.vmas@.len() implies (#[trigger] child.vmas@[j]).start_vaddr.0
            < child.vmas@[j].end_vaddr.0 by {
            assert(parent.vmas@[j].start_vaddr.0 < parent.vmas@[j].end_vaddr.0);
            assert(spec_child_area(par0.vmas@[j], child.vmas@[j]));
            assert(par0.vmas@[j].spec_same_but_trees(&parent.vmas@[j]));
        }
        assert forall|j: int, k: int| 0 <= j < k < child.vmas@.len() implies (#[trigger] child.vmas@[j]).end_vaddr.0 <= (
        #[trigger] child.vmas@[k]).start_vaddr.0 by {
            assert(parent.vmas@[j].end_vaddr.0 <= parent.vmas@[k].start_vaddr.0);
            assert(spec_child_area(par0.vmas@[j], child.vmas@[j]));
            assert(spec_child_area(par0.vmas@[k], child.vmas@[k]));
            assert(par0.vmas@[j].spec_same_but_trees(&parent.vmas@[j]));
            assert(par0.vmas@[k].spec_same_but_trees(&parent.vmas@[k]));
        }
    }
    assert forall|p: int| !child.spec_area_holds(&mem, p) by {}
}

/// Makes a copy of the address space `parent` that shares its frames until
/// one of the two stores into a page: see `spec_forked`. An address space
/// may be copied again and again. Fails, changing nothing, where `parent` is
/// itself such a copy. Fails also where the frames run out for the root or
/// for a table of the new page table, which cannot happen where a frame is
/// free for the root and two for each page with a frame; `parent` is left
/// as it is then, and the tables made until then stay in use.
pub fn new_mm_by_old(parent: &mut MmStruct, kernel: &PageTable, mem: &mut MemoryManager) -> (r: Option<MmStruct>)
    requires
        old(parent).wf(old(mem)),
        spec_one_window(old(parent).vmas@),
        kernel.spec_private_len() >= 1,
        old(mem).spec_is_frame(kernel.spec_root()),
        !old(mem).spec_frame_free(kernel.spec_root()),
        forall|i: int|
            old(parent).pagetable.spec_first_index() <= i < old(parent).pagetable.spec_end_index() ==> !(
            #[trigger] crate::mm::pagetable::spec_entry(old(mem).ram, kernel.spec_root(), i)).spec_valid()
                && !crate::mm::pagetable::spec_entry(old(mem).ram, kernel.spec_root(), i).spec_is_leaf(),
    ensures
        final(parent).wf(final(mem)),
        old(parent).cow_target is Some ==> r is None && crate::mm::fault::spec_mem_same(old(mem), final(mem)),
        old(parent).cow_target is None && old(mem).buddy@.free_pages_from(0) >= 1 + 2 * spec_pages_from(
            old(parent).vmas@,
            0,
        ) ==> r is Some,
        r is None && old(parent).cow_target is None ==> old(mem).buddy@.free_pages_from(0) == 0 || final(mem).buddy@.free_pages_from(0) < 2,
        r is None ==> old(parent).spec_unchanged(final(parent)) && spec_left_alone(old(parent), old(mem), final(mem)),
        r matches Some(child) ==> spec_forked(*old(parent), *old(mem), *final(parent), child, *final(mem)),
{
    if parent.cow_target.is_some() {
        proof {
            parent.lemma_mm_kept_refl(mem);
        }
        return None;
    }
    let pt = match parent.new_cow_pagetable(kernel, mem) {
        Some(pt) => pt,
        None => {
            return None;
        },
    };
    let ghost mem1 = *mem;
    let mut child = MmStruct::new_empty_user_mm_by_pagetable(pt);
    child.cow_target = Some(parent.pagetable._get_root_page_vaddr());
    child.brk = parent.brk;
    child.start_brk = parent.start_brk;
    proof {
        lemma_pt_apart(&child, parent, mem);
        lemma_apart_sym(&child, parent, mem);
    }
    parent._cow_demote(&child, mem);
    let ghost bare = child;
    child._cow_take_areas(parent);
    proof {
        lemma_apart_sym(parent, &bare, mem);
        lemma_pt_apart(&bare, parent, mem);
        lemma_forked(*old(parent), *old(mem), mem1, *parent, bare, child, *mem);
    }
    Some(child)
}

/// The parts of a copy, put together.
pub proof fn lemma_forked(
    par0: MmStruct,
    mem0: MemoryManager,
    mem1: MemoryManager,
    par1: MmStruct,
    bare: MmStruct,
    child: MmStruct,
    mem2: MemoryManager,
)
    requires
        par0.wf(&mem0),
        par0.wf(&mem1),
        spec_left_alone(&par0, &mem0, &mem1),
        par1.wf(&mem2),
        bare.wf(&mem2),
        bare.vmas@.len() == 0,
        spec_pt_apart(&bare.pagetable, &par1, &mem2),
        spec_left_alone(&bare, &mem1, &mem2),
        spec_shared_upto(bare.pagetable, par0, mem1, par0.vmas@.len() as int, 0),
        bare.pagetable.spec_first_index() == par0.pagetable.spec_first_index(),
        bare.pagetable.spec_end_index() == par0.pagetable.spec_end_index(),
        spec_demoted_areas(par0, mem1, par1, mem2, par0.vmas@.len() as int),
        child.pagetable == bare.pagetable,
        child.is_kern == bare.is_kern,
        child.brk == bare.brk,
        child.start_brk == bare.start_brk,
        child.cow_target == bare.cow_target,
        !bare.is_kern,
        bare.brk == par0.brk,
        bare.start_brk == par0.start_brk,
        bare.cow_target == Some(Vaddr(par0.pagetable.spec_root() as u64)),
        child.vmas@.len() == par1.vmas@.len(),
        forall|j: int| 0 <= j < par1.vmas@.len() ==> spec_child_area(par1.vmas@[j], #[trigger] child.vmas@[j]),
    ensures
        spec_forked(par0, mem0, par1, child, mem2),
{
    let n = par0.vmas@.len() as int;
    assert forall|j: int| 0 <= j < par0.vmas@.len() implies par0.vmas@[j].spec_same_but_trees(&#[trigger] par1.vmas@[j])
        && par1.vmas@[j].pages_tree == par0.vmas@[j].pages_tree by {}
    assert forall|j: int| 0 <= j < par0.vmas@.len() implies spec_child_area(par0.vmas@[j], #[trigger] child.vmas@[j]) by {
        assert(spec_child_area(par1.vmas@[j], child.vmas@[j]));
        assert(par0.vmas@[j].spec_same_but_trees(&par1.vmas@[j]));
    }
    lemma_child_areas(child, par1, par0, mem2);
    // the copy maps what it mapped when its page table was made
    assert forall|i2: int, k2: int|
        0 <= i2 < par0.vmas@.len() && 0 <= k2 < par0.vmas@[i2].pages_tree@.len() implies child.pagetable.spec_translate(
        &mem2,
        (#[trigger] par0.vmas@[i2].pages_tree@[k2]).vaddr.0,
    ) == if spec_before(i2, k2, n, 0) {
        Some(spec_share_entry(par0.vmas@[i2], par0.vmas@[i2].pages_tree@[k2].page))
    } else {
        None::<PTE>
    } by {
        let v = par0.vmas@[i2].pages_tree@[k2].vaddr.0;
        assert(par0.vmas@[i2].wf(&par0.pagetable, &mem0));
        assert(par0.pagetable.spec_covers(v));
        assert(bare.pagetable.spec_covers(v));
    }
    // the address space itself, against what it was before its page table was shared
    assert(spec_demoted_areas(par0, mem0, par1, mem2, n)) by {
        assert forall|j: int| 0 <= j < par0.vmas@.len() implies (#[trigger] par0.vmas@[j]).spec_holds_frame(&mem1, 0)
            == par0.vmas@[j].spec_holds_frame(&mem0, 0) by {
            par0.vmas@[j].lemma_holds_same(mem0, mem1);
        }
        assert forall|q: int| #[trigger] par0.spec_area_holds(&mem1, q) == par0.spec_area_holds(&mem0, q) by {
            if par0.spec_area_holds(&mem1, q) {
                let j = choose|j: int| 0 <= j < par0.vmas@.len() && (#[trigger] par0.vmas@[j]).spec_holds_frame(&mem1, q);
                par0.vmas@[j].lemma_holds_same(mem0, mem1);
                assert(par0.vmas@[j].spec_holds_frame(&mem0, q));
            }
            if par0.spec_area_holds(&mem0, q) {
                let j = choose|j: int| 0 <= j < par0.vmas@.len() && (#[trigger] par0.vmas@[j]).spec_holds_frame(&mem0, q);
                par0.vmas@[j].lemma_holds_same(mem0, mem1);
                assert(par0.vmas@[j].spec_holds_frame(&mem1, q));
            }
        }
        assert forall|j: int, k: int|
            0 <= j < par0.vmas@.len() && 0 <= k < par0.vmas@[j].pages_tree@.len() implies par0.pagetable.spec_translate(
            &mem1,
            (#[trigger] par0.vmas@[j].pages_tree@[k]).vaddr.0,
        ) == par0.pagetable.spec_translate(&mem0, par0.vmas@[j].pages_tree@[k].vaddr.0) by {
            assert(par0.vmas@[j].wf(&par0.pagetable, &mem0));
            assert(par0.pagetable.spec_covers(par0.vmas@[j].pages_tree@[k].vaddr.0));
        }
        assert forall|q: int, b: int| par0.spec_area_holds(&mem0, q) && 0 <= b < 4096 implies #[trigger] mem2.ram.spec_byte(
            mem0.buddy@.start + q * 4096 + b,
        ) == mem0.ram.spec_byte(mem0.buddy@.start + q * 4096 + b) by {
            assert(par0.spec_area_holds(&mem1, q));
            assert(mem2.ram.spec_byte(mem1.buddy@.start + q * 4096 + b) == mem1.ram.spec_byte(
                mem1.buddy@.start + q * 4096 + b,
            ));
        }
    }
}

} // verus!
