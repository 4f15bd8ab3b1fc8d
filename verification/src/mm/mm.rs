//! Address spaces: a page table and the areas of one task or of the kernel,
//! in the order of their addresses and without overlap.
use vstd::prelude::*;
use crate::consts::{
    KMAP_END, KMAP_START, MMAP_TOP, PAGE_SIZE, USER_HEAP_VMA_INIT_NR_PAGES, USER_SPACE_END, USER_SPACE_START,
    USER_STACK_MAX_ADDR, USER_STACK_SIZE_NR_PAGES,
};
use crate::mm::addr::{PageAlign, Vaddr};
use crate::mm::pagetable::PageTable;
use crate::mm::vma::{
    FileWriteBack, MmapFlags, MmapProt, VmFlags, VMA, VM_ANON, VM_DIRTY, VM_EXEC, VM_READ, VM_USER, VM_WRITE,
};
use crate::mm::step::{lemma_step, spec_step};
use crate::mm::MemoryManager;

verus! {

/// Whether the areas `vmas` stand in the order of their addresses, none
/// empty and no two overlapping.
pub open spec fn spec_sorted(vmas: Seq<VMA>) -> bool {
    &&& forall|i: int| 0 <= i < vmas.len() ==> (#[trigger] vmas[i]).start_vaddr.0 < vmas[i].end_vaddr.0
    &&& forall|i: int, j: int|
        0 <= i < j < vmas.len() ==> (#[trigger] vmas[i]).end_vaddr.0 <= (#[trigger] vmas[j]).start_vaddr.0
}

/// Whether none of the areas `vmas` has an address in the range from
/// `start` up to `end`.
pub open spec fn spec_range_free(vmas: Seq<VMA>, start: int, end: int) -> bool {
    forall|i: int| 0 <= i < vmas.len() ==> (#[trigger] vmas[i]).end_vaddr.0 <= start || end <= vmas[i].start_vaddr.0
}

/// Whether none of the areas `vmas` has an address among the `len` from
/// `s` on.
pub open spec fn spec_free_at(vmas: Seq<VMA>, s: int, len: int) -> bool {
    spec_range_free(vmas, s, s + len)
}

/// Whether a range of `len` bytes at `s` lies within the region from
/// `range_start` to `range_end` and is free of the areas `vmas`.
pub open spec fn spec_fits(vmas: Seq<VMA>, s: int, len: int, range_start: int, range_end: int) -> bool {
    &&& range_start <= s
    &&& s + len <= range_end
    &&& spec_free_at(vmas, s, len)
}

/// An address space.
pub struct MmStruct {
    pub is_kern: bool,
    pub pagetable: PageTable,
    /// The areas, in the order of their addresses.
    pub vmas: Vec<VMA>,
    /// The start of the heap.
    pub start_brk: Vaddr,
    /// The end of the heap.
    pub brk: Vaddr,
    /// The root of the page table of the address space that this one was
    /// made from as a copy, as long as the two share frames.
    pub cow_target: Option<Vaddr>,
}

impl MmStruct {
    /// The areas, in the order of their addresses.
    pub open spec fn spec_vmas(&self) -> Seq<VMA> {
        self.vmas@
    }

    pub open spec fn spec_is_kern(&self) -> bool {
        self.is_kern
    }

    pub open spec fn spec_brk(&self) -> Vaddr {
        self.brk
    }

    pub open spec fn spec_start_brk(&self) -> Vaddr {
        self.start_brk
    }

    /// The invariant of the layout: the areas stand in the order of their
    /// addresses and do not overlap.
    pub open spec fn wf_layout(&self) -> bool {
        spec_sorted(self.spec_vmas())
    }

    /// Whether `other` is this address space but for its areas.
    pub open spec fn spec_same_but_vmas(&self, other: &MmStruct) -> bool {
        &&& other.spec_is_kern() == self.spec_is_kern()
        &&& other.pagetable == self.pagetable
        &&& other.spec_brk() == self.spec_brk()
        &&& other.spec_start_brk() == self.spec_start_brk()
        &&& other.cow_target == self.cow_target
    }

    /// An address space of the kernel without areas.
    pub fn new_kern_mm_by_pagetable(pagetable: PageTable) -> (mm: Self)
        ensures
            mm.spec_is_kern(),
            mm.pagetable == pagetable,
            mm.spec_vmas().len() == 0,
            mm.spec_start_brk().0 == 0,
            mm.spec_brk().0 == 0,
            mm.cow_target is None,
            mm.wf_layout(),
    {
        Self {
            is_kern: true,
            pagetable,
            vmas: Vec::new(),
            start_brk: Vaddr(0),
            brk: Vaddr(0),
            cow_target: None,
        }
    }

    /// An address space of a user without areas.
    pub fn new_empty_user_mm_by_pagetable(pagetable: PageTable) -> (mm: Self)
        ensures
            !mm.spec_is_kern(),
            mm.pagetable == pagetable,
            mm.spec_vmas().len() == 0,
            mm.spec_start_brk().0 == 0,
            mm.spec_brk().0 == 0,
            mm.cow_target is None,
            mm.wf_layout(),
    {
        Self {
            is_kern: false,
            pagetable,
            vmas: Vec::new(),
            start_brk: Vaddr(0),
            brk: Vaddr(0),
            cow_target: None,
        }
    }

    /// The end of the heap.
    pub fn get_brk(&self) -> (brk: Vaddr)
        ensures
            brk == self.spec_brk(),
    {
        self.brk
    }

    /// The start of the heap.
    pub fn get_start_brk(&self) -> (brk: Vaddr)
        ensures
            brk == self.spec_start_brk(),
    {
        self.start_brk
    }

    /// Sets the end of the heap and returns where it was.
    pub fn set_brk(&mut self, new: Vaddr) -> (before: Vaddr)
        ensures
            before == old(self).spec_brk(),
            final(self).spec_brk() == new,
            final(self).spec_vmas() == old(self).spec_vmas(),
            final(self).spec_is_kern() == old(self).spec_is_kern(),
            final(self).pagetable == old(self).pagetable,
            final(self).spec_start_brk() == old(self).spec_start_brk(),
            final(self).cow_target == old(self).cow_target,
    {
        let ret = self.brk;
        self.brk = new;
        ret
    }

    pub fn is_kern(&self) -> (b: bool)
        ensures
            b == self.spec_is_kern(),
    {
        self.is_kern
    }

    pub fn is_user(&self) -> (b: bool)
        ensures
            b == !self.spec_is_kern(),
    {
        !self.is_kern
    }

    /// Number of areas.
    pub fn vma_count(&self) -> (n: usize)
        ensures
            n == self.spec_vmas().len(),
    {
        self.vmas.len()
    }

    /// The area at place `i` in the order of addresses.
    pub fn vma_at(&self, i: usize) -> (vma: &VMA)
        requires
            i < self.spec_vmas().len(),
        ensures
            *vma == self.spec_vmas()[i as int],
    {
        &self.vmas[i]
    }

    /// The place of the area that holds `vaddr`, if there is one.
    pub fn find_vma(&self, vaddr: Vaddr) -> (r: Option<usize>)
        ensures
            r matches Some(i) ==> i < self.spec_vmas().len() && self.spec_vmas()[i as int].spec_in_vma(vaddr)
                && forall|j: int| 0 <= j < i ==> !(#[trigger] self.spec_vmas()[j]).spec_in_vma(vaddr),
            r is None ==> forall|j: int|
                0 <= j < self.spec_vmas().len() ==> !(#[trigger] self.spec_vmas()[j]).spec_in_vma(vaddr),
    {
        let mut i: usize = 0;
        while i < self.vmas.len()
            invariant
                i <= self.vmas@.len(),
                forall|j: int| 0 <= j < i ==> !(#[trigger] self.vmas@[j]).spec_in_vma(vaddr),
            decreases self.vmas@.len() - i,
        {
            if self.vmas[i].in_vma(vaddr) {
                return Some(i);
            }
            i += 1;
        }
        None
    }

    /// The place of the area that holds `end_addr` and starts at or before
    /// `start_addr`, if there is one.
    pub fn find_vma_intersection(&self, start_addr: Vaddr, end_addr: Vaddr) -> (r: Option<usize>)
        ensures
            r matches Some(i) ==> i < self.spec_vmas().len() && self.spec_vmas()[i as int].spec_in_vma(end_addr)
                && self.spec_vmas()[i as int].start_vaddr.0 <= start_addr.0,
            r is None ==> forall|j: int|
                0 <= j < self.spec_vmas().len() && self.wf_layout() ==> !((#[trigger] self.spec_vmas()[j]).spec_in_vma(
                    end_addr,
                ) && self.spec_vmas()[j].start_vaddr.0 <= start_addr.0),
    {
        match self.find_vma(end_addr) {
            None => None,
            Some(i) => {
                if self.vmas[i].get_start_vaddr().0 <= start_addr.0 {
                    Some(i)
                } else {
                    proof {
                        assert forall|j: int| 0 <= j < self.spec_vmas().len() && self.wf_layout() implies !((
                        #[trigger] self.spec_vmas()[j]).spec_in_vma(end_addr) && self.spec_vmas()[j].start_vaddr.0
                            <= start_addr.0) by {
                            if j > i {
                                assert(self.spec_vmas()[i as int].end_vaddr.0 <= self.spec_vmas()[j].start_vaddr.0);
                            }
                        }
                    }
                    None
                }
            },
        }
    }

    /// Puts `vma` among the areas, at its place in the order. The range of
    /// `vma` must not be empty and must be free of areas.
    pub fn _insert_no_check(&mut self, vma: VMA)
        requires
            old(self).wf_layout(),
            vma.start_vaddr.0 < vma.end_vaddr.0,
            spec_range_free(old(self).spec_vmas(), vma.start_vaddr.0 as int, vma.end_vaddr.0 as int),
        ensures
            final(self).wf_layout(),
            old(self).spec_same_but_vmas(final(self)),
            final(self).spec_vmas().len() == old(self).spec_vmas().len() + 1,
            exists|at: int|
                0 <= at <= old(self).spec_vmas().len() && #[trigger] final(self).spec_vmas() == old(self).spec_vmas().insert(at, vma),
    {
        let mut at: usize = 0;
        while at < self.vmas.len() && self.vmas[at].start_vaddr.0 < vma.start_vaddr.0
            invariant
                at <= self.vmas@.len(),
                forall|j: int| 0 <= j < at ==> (#[trigger] self.vmas@[j]).start_vaddr.0 < vma.start_vaddr.0,
            decreases self.vmas@.len() - at,
        {
            at += 1;
        }
        let ghost before = self.vmas@;
        self.vmas.insert(at, vma);
        proof {
            let after = self.vmas@;
            assert(after == before.insert(at as int, vma));
            assert forall|i: int, j: int| 0 <= i < j < after.len() implies (#[trigger] after[i]).end_vaddr.0 <= (
            #[trigger] after[j]).start_vaddr.0 by {
                let oi = if i < at { i } else { i - 1 };
                let oj = if j < at { j } else { j - 1 };
                if i != at && j != at {
                    assert(after[i] == before[oi]);
                    assert(after[j] == before[oj]);
                } else if i == at {
                    assert(after[j] == before[oj]);
                    assert(before[oj].end_vaddr.0 <= vma.start_vaddr.0 || vma.end_vaddr.0 <= before[oj].start_vaddr.0);
                    assert(before[at as int].start_vaddr.0 <= before[oj].start_vaddr.0) by {
                        if at < oj {
                            assert(before[at as int].end_vaddr.0 <= before[oj].start_vaddr.0);
                        }
                    }
                } else {
                    assert(after[i] == before[oi]);
                    assert(before[oi].end_vaddr.0 <= vma.start_vaddr.0 || vma.end_vaddr.0 <= before[oi].start_vaddr.0);
                }
            }
            assert forall|i: int| 0 <= i < after.len() implies (#[trigger] after[i]).start_vaddr.0
                < after[i].end_vaddr.0 by {
                if i != at {
                    let oi = if i < at { i } else { i - 1 };
                    assert(after[i] == before[oi]);
                }
            }
        }
    }

    /// Takes the area that starts at `vaddr` away and returns it, if there
    /// is one.
    pub fn drop_vma(&mut self, vaddr: Vaddr) -> (r: Option<VMA>)
        requires
            old(self).wf_layout(),
        ensures
            final(self).wf_layout(),
            old(self).spec_same_but_vmas(final(self)),
            r is Some <==> exists|i: int|
                0 <= i < old(self).spec_vmas().len() && (#[trigger] old(self).spec_vmas()[i]).start_vaddr == vaddr,
            r is None ==> final(self).spec_vmas() == old(self).spec_vmas(),
            r matches Some(vma) ==> vma.start_vaddr == vaddr && exists|i: int|
                0 <= i < old(self).spec_vmas().len() && #[trigger] old(self).spec_vmas()[i] == vma && final(self).spec_vmas() == old(self).spec_vmas().remove(i),
    {
        let mut i: usize = 0;
        while i < self.vmas.len()
            invariant
                i <= self.vmas@.len(),
                self.vmas@ == old(self).vmas@,
                *self == *old(self),
                spec_sorted(self.vmas@),
                forall|j: int| 0 <= j < i ==> (#[trigger] self.vmas@[j]).start_vaddr != vaddr,
            decreases self.vmas@.len() - i,
        {
            if self.vmas[i].start_vaddr.0 == vaddr.0 {
                let ghost before = self.vmas@;
                let vma = self.vmas.remove(i);
                proof {
                    let after = self.vmas@;
                    assert(before[i as int] == vma);
                    assert forall|a: int, b: int| 0 <= a < b < after.len() implies (#[trigger] after[a]).end_vaddr.0
                        <= (#[trigger] after[b]).start_vaddr.0 by {
                        let oa = if a < i { a } else { a + 1 };
                        let ob = if b < i { b } else { b + 1 };
                        assert(after[a] == before[oa]);
                        assert(after[b] == before[ob]);
                    }
                    assert forall|a: int| 0 <= a < after.len() implies (#[trigger] after[a]).start_vaddr.0
                        < after[a].end_vaddr.0 by {
                        let oa = if a < i { a } else { a + 1 };
                        assert(after[a] == before[oa]);
                    }
                }
                return Some(vma);
            }
            i += 1;
        }
        None
    }
}


/// Whether `vma` is the description of an area from `start` that is `len`
/// bytes long and has nothing yet.
pub open spec fn spec_is_empty_vma(vma: VMA, start: int, len: int) -> bool {
    &&& vma.start_vaddr.0 == start
    &&& vma.end_vaddr.0 == start + len
    &&& vma.vm_flags.bits == 0
    &&& vma.pages_tree@.len() == 0
    &&& vma.pages_tree.wf()
    &&& vma.file is None
    &&& vma.file_off == 0
    &&& vma.file_in_vma_off == 0
    &&& vma.file_len == 0
    &&& vma.phy_pgs_cnt == 0
    &&& vma.cow_write_reserve_pgs is None
}

/// What a search for a free range of `len` bytes in the region from
/// `range_start` to `range_end` finds among the areas `vmas`. It finds
/// nothing for no bytes, nor for more than the region has. With a
/// hint it finds the range at the hint if that fits, else nothing. Without
/// one it finds the lowest range that fits when it searches upwards, the
/// highest when it searches downwards, and nothing if none fits.
pub open spec fn spec_search(
    vmas: Seq<VMA>,
    hint: Option<Vaddr>,
    len: int,
    to_high: bool,
    range_start: int,
    range_end: int,
    r: Option<VMA>,
) -> bool {
    let sized = 0 < len <= range_end - range_start;
    &&& r matches Some(vma) ==> sized && vma.end_vaddr.0 == vma.start_vaddr.0 + len && spec_fits(
        vmas,
        vma.start_vaddr.0 as int,
        len,
        range_start,
        range_end,
    )
    &&& match hint {
        Some(vi) => {
            &&& r is Some <==> sized && spec_fits(vmas, vi.0 as int, len, range_start, range_end)
            &&& r matches Some(vma) ==> vma.start_vaddr == vi
        },
        None => {
            &&& r is None ==> !sized || forall|s: int| !spec_fits(vmas, s, len, range_start, range_end)
            &&& r matches Some(vma) ==> forall|s: int|
                (if to_high {
                    s < vma.start_vaddr.0
                } else {
                    s > vma.start_vaddr.0
                }) ==> !spec_fits(vmas, s, len, range_start, range_end)
        },
    }
}

impl MmStruct {
    /// The range of `len` bytes at `vaddr`, if it is free of areas.
    fn __alloc_unmapped_fixed(&self, vaddr: Vaddr, len: u64, range_start: Vaddr, range_end: Vaddr) -> (r: Option<VMA>)
        requires
            vaddr.0 + len <= u64::MAX,
        ensures
            r is Some <==> spec_range_free(self.spec_vmas(), vaddr.0 as int, vaddr.0 + len),
            r matches Some(vma) ==> spec_is_empty_vma(vma, vaddr.0 as int, len as int),
    {
        let mut i: usize = 0;
        while i < self.vmas.len()
            invariant
                i <= self.vmas@.len(),
                vaddr.0 + len <= u64::MAX,
                forall|j: int|
                    0 <= j < i ==> (#[trigger] self.vmas@[j]).end_vaddr.0 <= vaddr.0 || vaddr.0 + len
                        <= self.vmas@[j].start_vaddr.0,
            decreases self.vmas@.len() - i,
        {
            let v = &self.vmas[i];
            if !(v.end_vaddr.0 <= vaddr.0 || vaddr.0 + len <= v.start_vaddr.0) {
                return None;
            }
            i += 1;
        }
        // no area in the range
        Some(VMA::empty(vaddr, vaddr + len))
    }

    /// Searches the region from `range_start` to `range_end` for a free
    /// range of `len` bytes: at `vaddr` if that is given; else upwards from the
    /// start of the region if `to_high`, and downwards from its end if not.
    /// Returns the description of an area for the range, which is not among
    /// the areas yet.
    pub fn __alloc_unmapped_core(
        &self,
        vaddr: Option<Vaddr>,
        len: u64,
        to_high: bool,
        range_start: Vaddr,
        range_end: Vaddr,
    ) -> (r: Option<VMA>)
        requires
            self.wf_layout(),
            range_start.0 < range_end.0,
        ensures
            spec_search(
                self.spec_vmas(),
                vaddr,
                len as int,
                to_high,
                range_start.0 as int,
                range_end.0 as int,
                r,
            ),
            r matches Some(vma) ==> spec_is_empty_vma(vma, vma.start_vaddr.0 as int, len as int),
    {
        if len == 0 || len > range_end.0 - range_start.0 {
            return None;
        }
        if vaddr.is_some() {
            let vi = vaddr.unwrap();
            // check the region
            if vi.0 < range_start.0 || vi.0 > range_end.0 || range_end.0 - vi.0 < len {
                return None;
            }
            return self.__alloc_unmapped_fixed(vi, len, range_start, range_end);
        }
        let ghost vs = self.spec_vmas();
        let ghost rs = range_start.0 as int;
        let ghost re = range_end.0 as int;
        return if to_high {
            let mut last_end = range_start.0;
            let mut i: usize = 0;
            let mut found = false;
            while i < self.vmas.len() && !found
                invariant
                    i <= self.vmas@.len(),
                    vs == self.vmas@,
                    spec_sorted(vs),
                    0 < len,
                    rs == range_start.0,
                    re == range_end.0,
                    rs <= last_end,
                    forall|s: int| rs <= s < last_end ==> !#[trigger] spec_free_at(vs, s, len as int),
                    forall|j: int| 0 <= j < i ==> (#[trigger] vs[j]).end_vaddr.0 <= last_end,
                    found ==> forall|j: int| i <= j < vs.len() ==> last_end + len <= (#[trigger] vs[j]).start_vaddr.0,
                decreases self.vmas@.len() - i + if found { 0int } else { 1int },
            {
                let v = &self.vmas[i];
                if v.end_vaddr.0 <= last_end {
                    i += 1;
                } else if v.start_vaddr.0 >= last_end && v.start_vaddr.0 - last_end >= len {
                    // the gap before this area is large enough
                    found = true;
                    proof {
                        assert forall|j: int| i <= j < vs.len() implies last_end + len <= (#[trigger] vs[j]).start_vaddr.0 by {
                            if j > i {
                                assert(vs[i as int].end_vaddr.0 <= vs[j].start_vaddr.0);
                            }
                        }
                    }
                } else {
                    proof {
                        let old_end = last_end as int;
                        assert forall|s: int| rs <= s < v.end_vaddr.0 implies !#[trigger] spec_free_at(vs, s, len as int) by {
                            if s >= old_end {
                                assert(!(vs[i as int].end_vaddr.0 <= s || s + len <= vs[i as int].start_vaddr.0));
                            }
                        }
                        assert forall|j: int| 0 <= j < i + 1 implies (#[trigger] vs[j]).end_vaddr.0
                            <= v.end_vaddr.0 by {
                        }
                    }
                    last_end = v.end_vaddr.0;
                    i += 1;
                }
            }
            if last_end <= range_end.0 && range_end.0 - last_end >= len {
                // find
                proof {
                    assert(spec_range_free(vs, last_end as int, last_end + len));
                    assert forall|s: int| s < last_end implies !spec_fits(vs, s, len as int, rs, re) by {
                    }
                }
                Some(VMA::empty(Vaddr(last_end), Vaddr(last_end + len)))
            } else {
                proof {
                    assert forall|s: int| !spec_fits(vs, s, len as int, rs, re) by {
                    }
                }
                None
            }
        } else {
            let mut last_start = range_end.0;
            let mut i: usize = self.vmas.len();
            let mut found = false;
            while i > 0 && !found
                invariant
                    i <= self.vmas@.len(),
                    vs == self.vmas@,
                    spec_sorted(vs),
                    0 < len,
                    rs == range_start.0,
                    re == range_end.0,
                    last_start <= re,
                    forall|s: int| last_start < s + len && s + len <= re ==> !#[trigger] spec_free_at(vs, s, len as int),
                    forall|j: int| i <= j < vs.len() ==> last_start <= (#[trigger] vs[j]).start_vaddr.0,
                    found ==> last_start >= len && forall|j: int|
                        0 <= j < i ==> (#[trigger] vs[j]).end_vaddr.0 <= last_start - len,
                decreases i + if found { 0int } else { 1int },
            {
                let v = &self.vmas[i - 1];
                if v.start_vaddr.0 >= last_start {
                    i -= 1;
                } else if v.end_vaddr.0 <= last_start && last_start - v.end_vaddr.0 >= len {
                    // the gap behind this area is large enough
                    found = true;
                    proof {
                        assert forall|j: int| 0 <= j < i implies (#[trigger] vs[j]).end_vaddr.0 <= last_start - len by {
                            if j < i - 1 {
                                assert(vs[j].end_vaddr.0 <= vs[i - 1].start_vaddr.0);
                            }
                        }
                    }
                } else {
                    proof {
                        let old_start = last_start as int;
                        assert forall|s: int| v.start_vaddr.0 < s + len && s + len <= re implies !#[trigger] spec_free_at(
                            vs,
                            s,
                            len as int,
                        ) by {
                            if s + len <= old_start {
                                assert(!(vs[i - 1].end_vaddr.0 <= s || s + len <= vs[i - 1].start_vaddr.0));
                            }
                        }
                    }
                    last_start = v.start_vaddr.0;
                    i -= 1;
                }
            }
            if last_start >= range_start.0 && last_start - range_start.0 >= len {
                // find
                proof {
                    assert(spec_range_free(vs, last_start - len, last_start as int));
                    assert forall|s: int| s > last_start - len implies !spec_fits(vs, s, len as int, rs, re) by {
                    }
                }
                Some(VMA::empty(Vaddr(last_start - len), Vaddr(last_start)))
            } else {
                proof {
                    assert forall|s: int| !spec_fits(vs, s, len as int, rs, re) by {
                    }
                }
                None
            }
        }
    }
}


/// Whether `vma` is an area without pages yet, with the given flags and
/// file.
pub open spec fn spec_is_new_vma(vma: VMA, flags: VmFlags, file: Option<u64>, file_off: u64, file_len: u64) -> bool {
    &&& vma.vm_flags == flags
    &&& vma.pages_tree@.len() == 0
    &&& vma.pages_tree.wf()
    &&& vma.file == file
    &&& vma.file_off == file_off
    &&& vma.file_in_vma_off == 0
    &&& vma.file_len == file_len
    &&& vma.phy_pgs_cnt == 0
    &&& vma.cow_write_reserve_pgs is None
}

impl MmStruct {
    /// The description of an anonymous area of `len` bytes for a user, with
    /// the rights that `prot_flags` asks for: at `vaddr` if that is given and
    /// fits, else at the highest place below `MMAP_TOP` that fits.
    pub fn alloc_mmap_anon(&self, vaddr: Option<Vaddr>, len: u64, map_flags: MmapFlags, prot_flags: MmapProt) -> (r:
        Option<VMA>)
        requires
            self.wf_layout(),
        ensures
            spec_search(self.spec_vmas(), vaddr, len as int, false, USER_SPACE_START as int, MMAP_TOP as int, r),
            r matches Some(vma) ==> spec_is_new_vma(vma, VmFlags::spec_from_mmap(map_flags, prot_flags), None, 0, 0),
    {
        let to_high = false;
        match self.__alloc_unmapped_core(vaddr, len, to_high, Vaddr(USER_SPACE_START), Vaddr(MMAP_TOP)) {
            Some(v) => {
                let mut vma = v;
                vma.vm_flags = VmFlags::from_mmap(map_flags, prot_flags);
                Some(vma)
            },
            None => None,
        }
    }

    /// The description of an area of `len` bytes for a user, with the first
    /// `file_len` bytes of it backed by the file `file` from `file_off` on.
    pub fn alloc_mmap_file(
        &self,
        vaddr: Option<Vaddr>,
        len: u64,
        file: u64,
        file_off: u64,
        file_len: u64,
        map_flags: MmapFlags,
        prot_flags: MmapProt,
    ) -> (r: Option<VMA>)
        requires
            self.wf_layout(),
            file_len <= len,
        ensures
            spec_search(self.spec_vmas(), vaddr, len as int, false, USER_SPACE_START as int, MMAP_TOP as int, r),
            r matches Some(vma) ==> spec_is_new_vma(
                vma,
                VmFlags::spec_from_mmap(map_flags, prot_flags),
                Some(file),
                file_off,
                file_len,
            ),
    {
        let to_high = false;
        match self.__alloc_unmapped_core(vaddr, len, to_high, Vaddr(USER_SPACE_START), Vaddr(MMAP_TOP)) {
            Some(v) => {
                let mut vma = v;
                vma.file_off = file_off;
                vma.file = Some(file);
                vma.vm_flags = VmFlags::from_mmap(map_flags, prot_flags);
                vma.file_len = file_len;
                vma.file_in_vma_off = 0;
                Some(vma)
            },
            None => None,
        }
    }

    /// The description of an anonymous area of `len` bytes for the kernel,
    /// at the lowest place of the region of temporary mappings that fits.
    pub fn alloc_kmap_anon(&self, len: u64) -> (r: Option<VMA>)
        requires
            self.wf_layout(),
        ensures
            spec_search(self.spec_vmas(), None, len as int, true, KMAP_START as int, KMAP_END as int, r),
            r matches Some(vma) ==> spec_is_new_vma(vma, VmFlags { bits: 39 }, None, 0, 0),
    {
        let to_high = true;
        match self.__alloc_unmapped_core(None, len, to_high, Vaddr(KMAP_START), Vaddr(KMAP_END)) {
            Some(v) => {
                let mut vma = v;
                vma.vm_flags = VmFlags { bits: VM_READ | VM_WRITE | VM_EXEC | VM_ANON };
                proof {
                    assert(1usize | 2usize | 4usize | 32usize == 39usize) by (bit_vector);
                }
                Some(vma)
            },
            None => None,
        }
    }

    /// The description of an area of `len` bytes for the kernel, with the
    /// first `file_len` bytes of it backed by the file `file` from `file_off`
    /// on.
    pub fn alloc_kmap_file(&self, len: u64, file: u64, file_off: u64, file_len: u64) -> (r: Option<VMA>)
        requires
            self.wf_layout(),
            file_len <= len,
        ensures
            spec_search(self.spec_vmas(), None, len as int, true, KMAP_START as int, KMAP_END as int, r),
            r matches Some(vma) ==> spec_is_new_vma(vma, VmFlags { bits: 7 }, Some(file), file_off, file_len),
    {
        let to_high = true;
        match self.__alloc_unmapped_core(None, len, to_high, Vaddr(KMAP_START), Vaddr(KMAP_END)) {
            Some(v) => {
                let mut vma = v;
                vma.file_off = file_off;
                vma.file = Some(file);
                vma.file_len = file_len;
                vma.file_in_vma_off = 0;
                vma.vm_flags = VmFlags { bits: VM_READ | VM_WRITE | VM_EXEC };
                proof {
                    assert(1usize | 2usize | 4usize == 7usize) by (bit_vector);
                }
                Some(vma)
            },
            None => None,
        }
    }

    /// An area lies free of the areas among which the search has found a
    /// place for it.
    pub proof fn lemma_search_free(
        vmas: Seq<VMA>,
        hint: Option<Vaddr>,
        len: int,
        to_high: bool,
        range_start: int,
        range_end: int,
        vma: VMA,
    )
        requires
            spec_search(vmas, hint, len, to_high, range_start, range_end, Some(vma)),
        ensures
            vma.start_vaddr.0 < vma.end_vaddr.0,
            range_start <= vma.start_vaddr.0,
            vma.end_vaddr.0 <= range_end,
            spec_range_free(vmas, vma.start_vaddr.0 as int, vma.end_vaddr.0 as int),
    {
    }

    /// Maps `len` bytes of anonymous memory for a user and returns where.
    /// Nothing is allocated; the pages get their frames when they are touched.
    /// Fails, changing nothing, where the search finds no place.
    pub fn map_anonymous(&mut self, hint: Option<Vaddr>, len: u64, prot: MmapProt, flags: MmapFlags) -> (r: Result<
        Vaddr,
        isize,
    >)
        requires
            old(self).wf_layout(),
        ensures
            final(self).wf_layout(),
            old(self).spec_same_but_vmas(final(self)),
            r matches Err(e) ==> e == -1 && final(self).spec_vmas() == old(self).spec_vmas(),
            r is Err <==> !exists|found: VMA| #[trigger]
                spec_search(
                    old(self).spec_vmas(),
                    hint,
                    len as int,
                    false,
                    USER_SPACE_START as int,
                    MMAP_TOP as int,
                    Some(found),
                ),
            r matches Ok(start) ==> exists|at: int, vma: VMA|
                0 <= at <= old(self).spec_vmas().len() && #[trigger] final(self).spec_vmas() == old(self).spec_vmas().insert(at, vma) && vma.start_vaddr == start && spec_search(
                    old(self).spec_vmas(),
                    hint,
                    len as int,
                    false,
                    USER_SPACE_START as int,
                    MMAP_TOP as int,
                    Some(vma),
                ) && spec_is_new_vma(vma, VmFlags::spec_from_mmap(flags, prot), None, 0, 0),
    {
        match self.alloc_mmap_anon(hint, len, flags, prot) {
            Some(vma) => {
                let start = vma.get_start_vaddr();
                let ghost v = vma;
                proof {
                    Self::lemma_search_free(
                        self.spec_vmas(),
                        hint,
                        len as int,
                        false,
                        USER_SPACE_START as int,
                        MMAP_TOP as int,
                        vma,
                    );
                }
                self._insert_no_check(vma);
                proof {
                    let at = choose|at: int|
                        0 <= at <= old(self).spec_vmas().len() && #[trigger] self.spec_vmas() == old(self).spec_vmas().insert(at, v);
                    assert(self.spec_vmas() == old(self).spec_vmas().insert(at, v));
                }
                Ok(start)
            },
            None => {
                proof {
                    assert forall|found: VMA|
                        !#[trigger] spec_search(
                            old(self).spec_vmas(),
                            hint,
                            len as int,
                            false,
                            USER_SPACE_START as int,
                            MMAP_TOP as int,
                            Some(found),
                        ) by {
                    }
                }
                Err(-1)
            },
        }
    }

    /// Maps `len` bytes for a user, the first `file_len` bytes of them
    /// backed by the file `file` from `file_off` on, and returns where.
    /// Fails, changing nothing, where the search finds no place.
    pub fn map_file(
        &mut self,
        hint: Option<Vaddr>,
        len: u64,
        file: u64,
        file_off: u64,
        file_len: u64,
        prot: MmapProt,
        flags: MmapFlags,
    ) -> (r: Result<Vaddr, isize>)
        requires
            old(self).wf_layout(),
            file_len <= len,
        ensures
            final(self).wf_layout(),
            old(self).spec_same_but_vmas(final(self)),
            r matches Err(e) ==> e == -1 && final(self).spec_vmas() == old(self).spec_vmas(),
            r is Err <==> !exists|found: VMA| #[trigger]
                spec_search(
                    old(self).spec_vmas(),
                    hint,
                    len as int,
                    false,
                    USER_SPACE_START as int,
                    MMAP_TOP as int,
                    Some(found),
                ),
            r matches Ok(start) ==> exists|at: int, vma: VMA|
                0 <= at <= old(self).spec_vmas().len() && #[trigger] final(self).spec_vmas() == old(self).spec_vmas().insert(at, vma) && vma.start_vaddr == start && spec_search(
                    old(self).spec_vmas(),
                    hint,
                    len as int,
                    false,
                    USER_SPACE_START as int,
                    MMAP_TOP as int,
                    Some(vma),
                ) && spec_is_new_vma(vma, VmFlags::spec_from_mmap(flags, prot), Some(file), file_off, file_len),
    {
        match self.alloc_mmap_file(hint, len, file, file_off, file_len, flags, prot) {
            Some(vma) => {
                let start = vma.get_start_vaddr();
                let ghost v = vma;
                proof {
                    Self::lemma_search_free(
                        self.spec_vmas(),
                        hint,
                        len as int,
                        false,
                        USER_SPACE_START as int,
                        MMAP_TOP as int,
                        vma,
                    );
                }
                self._insert_no_check(vma);
                proof {
                    let at = choose|at: int|
                        0 <= at <= old(self).spec_vmas().len() && #[trigger] self.spec_vmas() == old(self).spec_vmas().insert(at, v);
                    assert(self.spec_vmas() == old(self).spec_vmas().insert(at, v));
                }
                Ok(start)
            },
            None => {
                proof {
                    assert forall|found: VMA|
                        !#[trigger] spec_search(
                            old(self).spec_vmas(),
                            hint,
                            len as int,
                            false,
                            USER_SPACE_START as int,
                            MMAP_TOP as int,
                            Some(found),
                        ) by {
                    }
                }
                Err(-1)
            },
        }
    }

    /// The place of the area of the heap: the one that starts at the start
    /// of the heap.
    pub fn find_heap(&self) -> (r: Option<usize>)
        ensures
            r matches Some(i) ==> i < self.spec_vmas().len() && self.spec_vmas()[i as int].start_vaddr
                == self.spec_start_brk(),
            r is None ==> forall|j: int|
                0 <= j < self.spec_vmas().len() ==> (#[trigger] self.spec_vmas()[j]).start_vaddr
                    != self.spec_start_brk(),
    {
        let mut i: usize = 0;
        while i < self.vmas.len()
            invariant
                i <= self.vmas@.len(),
                forall|j: int| 0 <= j < i ==> (#[trigger] self.vmas@[j]).start_vaddr != self.start_brk,
            decreases self.vmas@.len() - i,
        {
            if self.vmas[i].start_vaddr.0 == self.start_brk.0 {
                return Some(i);
            }
            i += 1;
        }
        None
    }

    /// Whether the heap may grow to `new_brk`: there is an area of the heap,
    /// `new_brk` lies behind its start, and up to `new_brk` there is neither
    /// the next area nor the end of the region for mappings.
    pub open spec fn spec_can_expand(&self, new_brk: Vaddr) -> bool {
        exists|h: int|
            0 <= h < self.spec_vmas().len() && (#[trigger] self.spec_vmas()[h]).start_vaddr == self.spec_start_brk()
                && self.spec_start_brk().0 < new_brk.0 && new_brk.0 <= MMAP_TOP && (h + 1 < self.spec_vmas().len()
                ==> new_brk.0 <= self.spec_vmas()[h + 1].start_vaddr.0)
    }

    /// Moves the end of the heap up to `new_brk`. Nothing is allocated; the
    /// pages get their frames when they are touched. Fails, changing nothing,
    /// where the heap may not grow to `new_brk`.
    pub fn _expand_brk(&mut self, new_brk: Vaddr) -> (r: Result<(), ()>)
        requires
            old(self).wf_layout(),
        ensures
            final(self).wf_layout(),
            r is Ok <==> old(self).spec_can_expand(new_brk),
            r is Err ==> *final(self) == *old(self),
            r is Ok ==> {
                &&& final(self).spec_brk() == new_brk
                &&& final(self).spec_start_brk() == old(self).spec_start_brk()
                &&& final(self).spec_is_kern() == old(self).spec_is_kern()
                &&& final(self).pagetable == old(self).pagetable
                &&& final(self).cow_target == old(self).cow_target
                &&& final(self).spec_vmas().len() == old(self).spec_vmas().len()
                &&& forall|j: int|
                    0 <= j < old(self).spec_vmas().len() && old(self).spec_vmas()[j].start_vaddr != old(self).spec_start_brk() ==> #[trigger] final(self).spec_vmas()[j] == old(self).spec_vmas()[j]
                &&& forall|j: int|
                    0 <= j < old(self).spec_vmas().len() && old(self).spec_vmas()[j].start_vaddr == old(self).spec_start_brk() ==> (#[trigger] final(self).spec_vmas()[j]).end_vaddr == new_brk && old(self).spec_vmas()[j].spec_same_but_end(&final(self).spec_vmas()[j])
            },
    {
        let h = match self.find_heap() {
            Some(h) => h,
            None => {
                return Err(());
            },
        };
        proof {
            // the area of the heap is the only one that starts where the heap starts
            assert forall|j: int| 0 <= j < self.spec_vmas().len() && j != h implies (
            #[trigger] self.spec_vmas()[j]).start_vaddr != self.spec_start_brk() by {
                if j < h {
                    assert(self.spec_vmas()[j].end_vaddr.0 <= self.spec_vmas()[h as int].start_vaddr.0);
                } else {
                    assert(self.spec_vmas()[h as int].end_vaddr.0 <= self.spec_vmas()[j].start_vaddr.0);
                }
            }
        }
        if new_brk.0 <= self.start_brk.0 || new_brk.0 > MMAP_TOP {
            return Err(());
        }
        let count = self.vmas.len();
        if h + 1 < count {
            if self.vmas[h + 1].start_vaddr.0 < new_brk.0 {
                return Err(());
            }
        }
        let ghost before = self.vmas@;
        self.vmas[h].__set_end_vaddr(new_brk);
        self.set_brk(new_brk);
        proof {
            let after = self.vmas@;
            assert forall|i: int, j: int| 0 <= i < j < after.len() implies (#[trigger] after[i]).end_vaddr.0 <= (
            #[trigger] after[j]).start_vaddr.0 by {
                if i == h {
                    assert(before[h + 1].start_vaddr.0 <= before[j].start_vaddr.0) by {
                        if j > h + 1 {
                            assert(before[h + 1].end_vaddr.0 <= before[j].start_vaddr.0);
                        }
                    }
                } else if j == h {
                    assert(before[i].end_vaddr.0 <= before[j].start_vaddr.0);
                } else {
                    assert(before[i].end_vaddr.0 <= before[j].start_vaddr.0);
                }
            }
            assert forall|i: int| 0 <= i < after.len() implies (#[trigger] after[i]).start_vaddr.0
                < after[i].end_vaddr.0 by {
                if i != h {
                    assert(after[i] == before[i]);
                }
            }
        }
        Ok(())
    }
}


impl MmStruct {
    /// Whether one of the areas holds the frame at place `p`.
    pub open spec fn spec_area_holds(&self, mem: &MemoryManager, p: int) -> bool {
        exists|i: int| 0 <= i < self.vmas@.len() && (#[trigger] self.vmas@[i]).spec_holds_frame(mem, p)
    }

    /// The invariant of an address space over the memory `mem`: the page
    /// table is well-formed; the areas stand in the order of their addresses
    /// and do not overlap; each of them is well-formed, with a part of a
    /// file that can be addressed; and no frame is held by two of them.
    pub open spec fn wf(&self, mem: &MemoryManager) -> bool {
        &&& self.pagetable.wf(mem)
        &&& self.wf_layout()
        &&& forall|i: int|
            0 <= i < self.vmas@.len() ==> (#[trigger] self.vmas@[i]).wf(&self.pagetable, mem) && self.vmas@[i].file_off
                + self.vmas@[i].file_len <= u64::MAX
        &&& forall|i: int, j: int, p: int|
            0 <= i < self.vmas@.len() && 0 <= j < self.vmas@.len() && i != j ==> !(#[trigger] self.vmas@[i].spec_holds_frame(
                mem,
                p,
            ) && #[trigger] self.vmas@[j].spec_holds_frame(mem, p))
    }

    /// An address space stays well-formed through a step in which one of
    /// its areas changes what it holds, as long as the frames that the step
    /// gives, and those that the area has gained, were free or held by that
    /// area.
    pub proof fn lemma_area_step(
        &self,
        after: MmStruct,
        mem0: MemoryManager,
        mem1: MemoryManager,
        i: int,
        touched: Set<u64>,
        given: Set<int>,
    )
        requires
            self.wf(&mem0),
            0 <= i < self.vmas@.len(),
            after.vmas@ == self.vmas@.update(i, after.vmas@[i]),
            after.vmas@[i].start_vaddr == self.vmas@[i].start_vaddr,
            after.vmas@[i].end_vaddr == self.vmas@[i].end_vaddr,
            after.vmas@[i].wf(&after.pagetable, &mem1),
            after.vmas@[i].file_off + after.vmas@[i].file_len <= u64::MAX,
            spec_step(self.pagetable, mem0, after.pagetable, mem1, touched, given),
            forall|p: int| given.contains(p) ==> self.vmas@[i].spec_holds_frame(&mem0, p) || mem0.buddy@.page_free(p),
            forall|p: int|
                after.vmas@[i].spec_holds_frame(&mem1, p) ==> self.vmas@[i].spec_holds_frame(&mem0, p)
                    || mem0.buddy@.page_free(p),
        ensures
            after.wf(&mem1),
            forall|p: int|
                after.spec_area_holds(&mem1, p) ==> self.spec_area_holds(&mem0, p) || mem0.buddy@.page_free(p),
    {
        lemma_step(self.pagetable, mem0, after.pagetable, mem1, touched, given, 0, 0);
        assert forall|j: int| 0 <= j < after.vmas@.len() implies (#[trigger] after.vmas@[j]).wf(
            &after.pagetable,
            &mem1,
        ) && after.vmas@[j].file_off + after.vmas@[j].file_len <= u64::MAX by {
            if j != i {
                let vma = self.vmas@[j];
                assert(after.vmas@[j] == vma);
                assert forall|p: int| given.contains(p) implies !vma.spec_holds_frame(&mem0, p) by {
                    if vma.spec_holds_frame(&mem0, p) {
                        vma.lemma_held(&self.pagetable, &mem0, p);
                    }
                }
                vma.lemma_vma_step(self.pagetable, mem0, after.pagetable, mem1, touched, given);
            }
        }
        assert forall|j: int, k: int, p: int|
            0 <= j < after.vmas@.len() && 0 <= k < after.vmas@.len() && j != k implies !(
        #[trigger] after.vmas@[j].spec_holds_frame(&mem1, p) && #[trigger] after.vmas@[k].spec_holds_frame(&mem1, p)) by {
            if after.vmas@[j].spec_holds_frame(&mem1, p) && after.vmas@[k].spec_holds_frame(&mem1, p) {
                if j != i {
                    self.vmas@[j].lemma_holds_same(mem0, mem1);
                    self.vmas@[j].lemma_held(&self.pagetable, &mem0, p);
                }
                if k != i {
                    self.vmas@[k].lemma_holds_same(mem0, mem1);
                    self.vmas@[k].lemma_held(&self.pagetable, &mem0, p);
                }
                assert(self.vmas@[j].spec_holds_frame(&mem0, p) && self.vmas@[k].spec_holds_frame(&mem0, p));
            }
        }
        assert(spec_sorted(after.vmas@)) by {
            assert forall|j: int| 0 <= j < after.vmas@.len() implies (#[trigger] after.vmas@[j]).start_vaddr.0
                < after.vmas@[j].end_vaddr.0 by {
                assert(self.vmas@[j].start_vaddr.0 < self.vmas@[j].end_vaddr.0);
            }
            assert forall|j: int, k: int| 0 <= j < k < after.vmas@.len() implies (#[trigger] after.vmas@[j]).end_vaddr.0 <= (
            #[trigger] after.vmas@[k]).start_vaddr.0 by {
                assert(self.vmas@[j].end_vaddr.0 <= self.vmas@[k].start_vaddr.0);
            }
        }
        assert forall|p: int| after.spec_area_holds(&mem1, p) implies self.spec_area_holds(&mem0, p)
            || mem0.buddy@.page_free(p) by {
            let j = choose|j: int| 0 <= j < after.vmas@.len() && (#[trigger] after.vmas@[j]).spec_holds_frame(&mem1, p);
            if j != i {
                self.vmas@[j].lemma_holds_same(mem0, mem1);
                assert(self.vmas@[j].spec_holds_frame(&mem0, p));
            } else {
                if self.vmas@[i].spec_holds_frame(&mem0, p) {
                }
            }
        }
    }
}


impl MmStruct {
    /// An address space stays well-formed through a step that leaves its
    /// page table as it is and gives none of the frames of its areas.
    pub proof fn lemma_mm_kept(&self, mem0: MemoryManager, mem1: MemoryManager, touched: Set<u64>, given: Set<int>)
        requires
            self.wf(&mem0),
            spec_step(self.pagetable, mem0, self.pagetable, mem1, touched, given),
            forall|p: int| given.contains(p) ==> !self.spec_area_holds(&mem0, p),
        ensures
            self.wf(&mem1),
            forall|p: int| #[trigger] self.spec_area_holds(&mem1, p) == self.spec_area_holds(&mem0, p),
    {
        lemma_step(self.pagetable, mem0, self.pagetable, mem1, touched, given, 0, 0);
        assert forall|j: int| 0 <= j < self.vmas@.len() implies (#[trigger] self.vmas@[j]).wf(&self.pagetable, &mem1) by {
            let vma = self.vmas@[j];
            assert forall|p: int| given.contains(p) implies !vma.spec_holds_frame(&mem0, p) by {
                if vma.spec_holds_frame(&mem0, p) {
                    assert(self.spec_area_holds(&mem0, p));
                }
            }
            vma.lemma_vma_step(self.pagetable, mem0, self.pagetable, mem1, touched, given);
        }
        assert forall|j: int, p: int| 0 <= j < self.vmas@.len() implies #[trigger] self.vmas@[j].spec_holds_frame(
            &mem1,
            p,
        ) == self.vmas@[j].spec_holds_frame(&mem0, p) by {
            self.vmas@[j].lemma_holds_same(mem0, mem1);
        }
        assert forall|p: int| #[trigger] self.spec_area_holds(&mem1, p) == self.spec_area_holds(&mem0, p) by {
            if self.spec_area_holds(&mem1, p) {
                let j = choose|j: int| 0 <= j < self.vmas@.len() && (#[trigger] self.vmas@[j]).spec_holds_frame(&mem1, p);
                assert(self.vmas@[j].spec_holds_frame(&mem0, p));
            }
            if self.spec_area_holds(&mem0, p) {
                let j = choose|j: int| 0 <= j < self.vmas@.len() && (#[trigger] self.vmas@[j]).spec_holds_frame(&mem0, p);
                assert(self.vmas@[j].spec_holds_frame(&mem1, p));
            }
        }
    }
}


impl MmStruct {
    /// An address space is over a memory what it is over that memory.
    pub proof fn lemma_mm_kept_refl(&self, mem: &MemoryManager)
        requires
            self.wf(mem),
        ensures
            crate::mm::fault::spec_left_alone(self, mem, mem),
    {
    }
}


impl MmStruct {
    /// An address space stays well-formed through a step in which one of
    /// its areas changes what it holds and may lose its upper end, as long
    /// as no other area held a frame that the step gives or that the area
    /// holds afterwards.
    pub proof fn lemma_areas_step(
        &self,
        after: MmStruct,
        mem0: MemoryManager,
        mem1: MemoryManager,
        i: int,
        touched: Set<u64>,
        given: Set<int>,
    )
        requires
            self.wf(&mem0),
            0 <= i < self.vmas@.len(),
            after.vmas@ == self.vmas@.update(i, after.vmas@[i]),
            after.vmas@[i].start_vaddr == self.vmas@[i].start_vaddr,
            after.vmas@[i].end_vaddr.0 <= self.vmas@[i].end_vaddr.0,
            after.vmas@[i].wf(&after.pagetable, &mem1),
            after.vmas@[i].file_off + after.vmas@[i].file_len <= u64::MAX,
            spec_step(self.pagetable, mem0, after.pagetable, mem1, touched, given),
            forall|j: int, p: int|
                0 <= j < self.vmas@.len() && j != i && given.contains(p) ==> !(#[trigger] self.vmas@[j].spec_holds_frame(
                    &mem0,
                    p,
                )),
            forall|j: int, p: int|
                0 <= j < self.vmas@.len() && j != i && after.vmas@[i].spec_holds_frame(&mem1, p) ==> !(
                #[trigger] self.vmas@[j].spec_holds_frame(&mem0, p)),
        ensures
            after.wf(&mem1),
    {
        lemma_step(self.pagetable, mem0, after.pagetable, mem1, touched, given, 0, 0);
        assert forall|j: int| 0 <= j < after.vmas@.len() implies (#[trigger] after.vmas@[j]).wf(
            &after.pagetable,
            &mem1,
        ) && after.vmas@[j].file_off + after.vmas@[j].file_len <= u64::MAX by {
            if j != i {
                let vma = self.vmas@[j];
                assert(after.vmas@[j] == vma);
                assert forall|p: int| given.contains(p) implies !vma.spec_holds_frame(&mem0, p) by {}
                vma.lemma_vma_step(self.pagetable, mem0, after.pagetable, mem1, touched, given);
            }
        }
        assert forall|j: int, k: int, p: int|
            0 <= j < after.vmas@.len() && 0 <= k < after.vmas@.len() && j != k implies !(
        #[trigger] after.vmas@[j].spec_holds_frame(&mem1, p) && #[trigger] after.vmas@[k].spec_holds_frame(&mem1, p)) by {
            if after.vmas@[j].spec_holds_frame(&mem1, p) && after.vmas@[k].spec_holds_frame(&mem1, p) {
                if j != i {
                    self.vmas@[j].lemma_holds_same(mem0, mem1);
                }
                if k != i {
                    self.vmas@[k].lemma_holds_same(mem0, mem1);
                }
                if j != i && k != i {
                    assert(self.vmas@[j].spec_holds_frame(&mem0, p) && self.vmas@[k].spec_holds_frame(&mem0, p));
                }
            }
        }
        assert(spec_sorted(after.vmas@)) by {
            assert forall|j: int| 0 <= j < after.vmas@.len() implies (#[trigger] after.vmas@[j]).start_vaddr.0
                < after.vmas@[j].end_vaddr.0 by {
                assert(self.vmas@[j].start_vaddr.0 < self.vmas@[j].end_vaddr.0);
            }
            assert forall|j: int, k: int| 0 <= j < k < after.vmas@.len() implies (#[trigger] after.vmas@[j]).end_vaddr.0 <= (
            #[trigger] after.vmas@[k]).start_vaddr.0 by {
                assert(self.vmas@[j].end_vaddr.0 <= self.vmas@[k].start_vaddr.0);
            }
        }
    }

    /// Whether the heap, the area at place `h`, has been shrunk to end at
    /// `new_brk`, `upper` being the part that was cut off: the heap has kept
    /// the pages below `new_brk` with their frames; the pages from `new_brk`
    /// on are mapped to nothing, and their frames are free; everything else
    /// is as it was.
    pub open spec fn spec_shrunk(
        &self,
        mem0: &MemoryManager,
        after: &MmStruct,
        mem1: &MemoryManager,
        h: int,
        new_brk: Vaddr,
        upper: VMA,
    ) -> bool {
        &&& after.is_kern == self.is_kern
        &&& after.start_brk == self.start_brk
        &&& after.cow_target == self.cow_target
        &&& after.brk == new_brk
        &&& after.vmas@ == self.vmas@.update(h, after.vmas@[h])
        &&& self.vmas@[h].spec_split(new_brk, &after.vmas@[h], &upper)
        &&& spec_step(
            self.pagetable,
            *mem0,
            after.pagetable,
            *mem1,
            upper.spec_page_vpns(),
            upper.spec_frames(mem0),
        )
        &&& forall|k: Vaddr| #[trigger]
            upper.pages_tree.spec_contains(k) ==> after.pagetable.spec_translate(mem1, k.0) is None
                && mem1.spec_frame_free(upper.pages_tree.spec_page(k).vaddr.0 as int)
    }

    /// Moves the end of the heap down to `new_brk`: the heap is split
    /// there, and the part above is taken down, its pages unmapped and their
    /// frames let go of. Fails, changing nothing, where there is no heap or
    /// it cannot be split at `new_brk`.
    pub fn _shrink_brk(&mut self, mem: &mut MemoryManager, new_brk: Vaddr) -> (r: Result<(), ()>)
        requires
            old(self).wf(old(mem)),
        ensures
            final(self).wf(final(mem)),
            r is Ok <==> exists|h: int|
                0 <= h < old(self).vmas@.len() && (#[trigger] old(self).vmas@[h]).start_vaddr == old(self).start_brk
                    && old(self).vmas@[h].spec_can_split(new_brk),
            r is Err ==> old(self).spec_same_but_vmas(final(self)) && final(self).vmas@ == old(self).vmas@
                && final(mem).ram == old(mem).ram && final(mem).buddy@ == old(mem).buddy@ && final(mem).pages@ == old(mem).pages@,
            r is Ok ==> exists|h: int, upper: VMA|
                0 <= h < old(self).vmas@.len() && old(self).vmas@[h].start_vaddr == old(self).start_brk
                    && #[trigger] old(self).spec_shrunk(old(mem), final(self), final(mem), h, new_brk, upper),
    {
        let h = match self.find_heap() {
            Some(h) => h,
            None => {
                return Err(());
            },
        };
        proof {
            assert(self.vmas@[h as int].wf(&self.pagetable, mem));
            assert forall|j: int|
                0 <= j < self.vmas@.len() && (#[trigger] self.vmas@[j]).start_vaddr == self.start_brk implies j == h by {
                if j < h {
                    assert(self.vmas@[j].end_vaddr.0 <= self.vmas@[h as int].start_vaddr.0);
                }
                if h < j {
                    assert(self.vmas@[h as int].end_vaddr.0 <= self.vmas@[j].start_vaddr.0);
                }
            }
        }
        let mut upper = match self.vmas[h].split(new_brk) {
            Some(u) => u,
            None => {
                proof {
                    assert(self.vmas@ =~= old(self).vmas@);
                }
                return Err(());
            },
        };
        let ghost cut = upper;
        let ghost mid = *self;
        proof {
            let lower = self.vmas@[h as int];
            assert(self.vmas@ =~= old(self).vmas@.update(h as int, lower));
            old(self).vmas@[h as int].lemma_split(new_brk, lower, upper, &self.pagetable, mem);
            crate::mm::step::lemma_step_refl(self.pagetable, *mem);
            old(self).lemma_areas_step(*self, *mem, *mem, h as int, Set::empty(), Set::empty());
        }
        let _ = upper._release_all_page(&mut self.pagetable, mem);
        self.brk = new_brk;
        proof {
            let lower = self.vmas@[h as int];
            assert(self.vmas@ =~= mid.vmas@.update(h as int, lower));
            let touched = cut.spec_page_vpns();
            let given = cut.spec_frames(old(mem));
            assert forall|p: int| given.contains(p) implies !lower.spec_holds_frame(old(mem), p) by {}
            lower.lemma_vma_step(mid.pagetable, *old(mem), self.pagetable, *mem, touched, given);
            crate::mm::step::lemma_step(mid.pagetable, *old(mem), self.pagetable, *mem, touched, given, 0, 0);
            lower.lemma_holds_same(*old(mem), *mem);
            mid.lemma_areas_step(*self, *old(mem), *mem, h as int, touched, given);
            assert(old(self).spec_shrunk(old(mem), self, mem, h as int, new_brk, cut));
        }
        Ok(())
    }

    /// Whether `after` is this address space with the heap grown to
    /// `new_brk`: the area of the heap ends at `new_brk` and is otherwise as
    /// it was, and so is every other area.
    pub open spec fn spec_expanded(&self, after: &MmStruct, new_brk: Vaddr) -> bool {
        &&& after.spec_brk() == new_brk
        &&& after.spec_start_brk() == self.spec_start_brk()
        &&& after.spec_is_kern() == self.spec_is_kern()
        &&& after.pagetable == self.pagetable
        &&& after.cow_target == self.cow_target
        &&& after.spec_vmas().len() == self.spec_vmas().len()
        &&& forall|j: int|
            0 <= j < self.spec_vmas().len() && self.spec_vmas()[j].start_vaddr != self.spec_start_brk()
                ==> #[trigger] after.spec_vmas()[j] == self.spec_vmas()[j]
        &&& forall|j: int|
            0 <= j < self.spec_vmas().len() && self.spec_vmas()[j].start_vaddr == self.spec_start_brk() ==> (
            #[trigger] after.spec_vmas()[j]).end_vaddr == new_brk && self.spec_vmas()[j].spec_same_but_end(
                &after.spec_vmas()[j],
            )
    }

    /// Whether the end of the heap may be set to `new_brk`: that is 0, which
    /// asks for the end as it is, or the end as it is, or an address at or
    /// above the start of the heap at which the heap can be split, if it lies
    /// below the end, or to which the heap can grow, if it lies above: the
    /// start of a page at or above the end of the area of the heap.
    pub open spec fn spec_brk_allowed(&self, new_brk: u64) -> bool {
        if new_brk == 0 {
            true
        } else if new_brk < self.start_brk.0 {
            false
        } else if new_brk == self.brk.0 {
            true
        } else if new_brk < self.brk.0 {
            exists|h: int|
                0 <= h < self.vmas@.len() && (#[trigger] self.vmas@[h]).start_vaddr == self.start_brk
                    && self.vmas@[h].spec_can_split(Vaddr(new_brk))
        } else {
            &&& new_brk % 4096 == 0
            &&& self.spec_can_expand(Vaddr(new_brk))
            &&& forall|h: int|
                0 <= h < self.vmas@.len() && (#[trigger] self.vmas@[h]).start_vaddr == self.start_brk
                    ==> self.vmas@[h].end_vaddr.0 <= new_brk
        }
    }

    /// Sets the end of the heap: up or down to `new_brk`, and returns it.
    /// With 0 the end of the heap is returned as it is. Fails, changing
    /// nothing, where `new_brk` lies below the start of the heap, and where
    /// the heap cannot grow or shrink to it.
    pub fn brk(&mut self, mem: &mut MemoryManager, new_brk: u64) -> (r: Result<u64, isize>)
        requires
            old(self).wf(old(mem)),
        ensures
            final(self).wf(final(mem)),
            r matches Err(e) ==> e == -1 && old(self).spec_same_but_vmas(final(self)) && final(self).vmas@ == old(self).vmas@ && final(mem).ram == old(mem).ram && final(mem).buddy@ == old(mem).buddy@ && final(mem).pages@
                == old(mem).pages@,
            r is Ok <==> old(self).spec_brk_allowed(new_brk),
            r matches Ok(end) ==> end == final(self).brk.0 && (new_brk != 0 ==> end == new_brk),
            r is Ok && (new_brk == 0 || new_brk == old(self).brk.0) ==> old(self).spec_same_but_vmas(final(self))
                && final(self).vmas@ == old(self).vmas@ && final(mem).ram == old(mem).ram && final(mem).buddy@ == old(mem).buddy@ && final(mem).pages@ == old(mem).pages@,
            r is Ok && new_brk != 0 && new_brk > old(self).brk.0 ==> old(self).spec_expanded(final(self), Vaddr(new_brk))
                && final(mem).ram == old(mem).ram && final(mem).buddy@ == old(mem).buddy@ && final(mem).pages@ == old(mem).pages@,
            r is Ok && new_brk != 0 && new_brk < old(self).brk.0 ==> exists|h: int, upper: VMA|
                0 <= h < old(self).vmas@.len() && old(self).vmas@[h].start_vaddr == old(self).start_brk
                    && #[trigger] old(self).spec_shrunk(old(mem), final(self), final(mem), h, Vaddr(new_brk), upper),
    {
        if new_brk == 0 {
            return Ok(self.get_brk().0);
        }
        let brk_now = self.get_brk().0;
        if new_brk < self.get_start_brk().0 {
            return Err(-1);
        }
        if brk_now == new_brk {
            Ok(new_brk)
        } else if new_brk < brk_now {
            // shrink
            match self._shrink_brk(mem, Vaddr(new_brk)) {
                Ok(_) => Ok(new_brk),
                Err(_) => Err(-1),
            }
        } else {
            // expand
            if new_brk % (PAGE_SIZE as u64) != 0 {
                return Err(-1);
            }
            match self.find_heap() {
                Some(h) => {
                    proof {
                        assert forall|j: int|
                            0 <= j < self.vmas@.len() && (#[trigger] self.vmas@[j]).start_vaddr
                                == self.start_brk implies j == h by {
                            if j < h {
                                assert(self.vmas@[j].end_vaddr.0 <= self.vmas@[h as int].start_vaddr.0);
                            }
                            if h < j {
                                assert(self.vmas@[h as int].end_vaddr.0 <= self.vmas@[j].start_vaddr.0);
                            }
                        }
                    }
                    if self.vmas[h].get_end_vaddr().0 > new_brk {
                        return Err(-1);
                    }
                },
                None => {},
            }
            let ghost before = *self;
            match self._expand_brk(Vaddr(new_brk)) {
                Ok(_) => {
                    proof {
                        before.lemma_expanded(*self, mem, Vaddr(new_brk));
                    }
                    Ok(new_brk)
                },
                Err(_) => Err(-1),
            }
        }
    }
}


impl MmStruct {
    /// An address space whose heap has grown to the start of a page is
    /// well-formed again.
    pub proof fn lemma_expanded(&self, after: MmStruct, mem: &MemoryManager, new_brk: Vaddr)
        requires
            self.wf(mem),
            self.spec_can_expand(new_brk),
            new_brk.0 % 4096 == 0,
            forall|h: int|
                0 <= h < self.vmas@.len() && (#[trigger] self.vmas@[h]).start_vaddr == self.start_brk
                    ==> self.vmas@[h].end_vaddr.0 <= new_brk.0,
            after.wf_layout(),
            after.pagetable == self.pagetable,
            after.spec_vmas().len() == self.spec_vmas().len(),
            forall|j: int|
                0 <= j < self.spec_vmas().len() && self.spec_vmas()[j].start_vaddr != self.spec_start_brk()
                    ==> #[trigger] after.spec_vmas()[j] == self.spec_vmas()[j],
            forall|j: int|
                0 <= j < self.spec_vmas().len() && self.spec_vmas()[j].start_vaddr == self.spec_start_brk() ==> (
                #[trigger] after.spec_vmas()[j]).end_vaddr == new_brk && self.spec_vmas()[j].spec_same_but_end(
                    &after.spec_vmas()[j],
                ),
        ensures
            after.wf(mem),
    {
        assert forall|j: int| 0 <= j < after.vmas@.len() implies (#[trigger] after.vmas@[j]).wf(&after.pagetable, mem)
            && after.vmas@[j].file_off + after.vmas@[j].file_len <= u64::MAX && forall|p: int|
            after.vmas@[j].spec_holds_frame(mem, p) == self.vmas@[j].spec_holds_frame(mem, p) by {
            let v0 = self.vmas@[j];
            let v1 = after.vmas@[j];
            assert(v0.wf(&self.pagetable, mem));
            if v0.start_vaddr == self.start_brk {
                assert(v1.end_vaddr == new_brk);
                assert(v0.spec_same_but_end(&v1));
                assert forall|v: u64| v1.start_vaddr.0 <= v < v1.end_vaddr.0 implies #[trigger] self.pagetable.spec_covers(
                    v,
                ) by {
                    crate::mm::pagetable::lemma_vpn(v, v1.start_vaddr.0);
                    crate::mm::pagetable::lemma_vpn(v1.start_vaddr.0, 0);
                    assert(self.pagetable.spec_covers(v1.start_vaddr.0));
                }
                assert forall|i: int| 0 <= i < v1.pages_tree@.len() implies v1.start_vaddr.0 <= (
                #[trigger] v1.pages_tree@[i]).vaddr.0 < v1.end_vaddr.0 by {
                    assert(v0.start_vaddr.0 <= v0.pages_tree@[i].vaddr.0 < v0.end_vaddr.0);
                    assert(self.vmas@[j].start_vaddr.0 < self.vmas@[j].end_vaddr.0);
                    assert(after.vmas@[j].start_vaddr.0 < after.vmas@[j].end_vaddr.0);
                }
            }
        }
        assert forall|j: int, k: int, p: int|
            0 <= j < after.vmas@.len() && 0 <= k < after.vmas@.len() && j != k implies !(
        #[trigger] after.vmas@[j].spec_holds_frame(mem, p) && #[trigger] after.vmas@[k].spec_holds_frame(mem, p)) by {
            assert(after.vmas@[j].spec_holds_frame(mem, p) == self.vmas@[j].spec_holds_frame(mem, p));
            assert(after.vmas@[k].spec_holds_frame(mem, p) == self.vmas@[k].spec_holds_frame(mem, p));
        }
    }
}


/// Whether the area `vma` can stand in an address space with the page table
/// `pt` before it has frames: it is a range of whole pages that the page
/// table manages, with a part of a file that can be addressed if it is not
/// anonymous.
pub open spec fn spec_bare_area(vma: VMA, pt: &PageTable) -> bool {
    &&& vma.start_vaddr.0 % 4096 == 0
    &&& vma.end_vaddr.0 % 4096 == 0
    &&& vma.start_vaddr.0 < vma.end_vaddr.0
    &&& vma.end_vaddr.0 - vma.start_vaddr.0 <= 0x80_0000_0000
    &&& forall|v: u64| vma.start_vaddr.0 <= v < vma.end_vaddr.0 ==> #[trigger] pt.spec_covers(v)
    &&& vma.pages_tree@.len() == 0
    &&& vma.pages_tree.wf()
    &&& vma.cow_write_reserve_pgs is None
    &&& !vma.spec_is_anon() ==> vma.file is Some
    &&& vma.start_vaddr.0 + vma.file_in_vma_off + vma.file_len <= u64::MAX
    &&& vma.file_off + vma.file_len <= u64::MAX
}

/// An address space whose areas have no frames is well-formed over any
/// memory over which its page table is.
pub proof fn lemma_bare_wf(mm: MmStruct, mem: MemoryManager)
    requires
        mm.pagetable.wf(&mem),
        mm.wf_layout(),
        forall|i: int| 0 <= i < mm.vmas@.len() ==> spec_bare_area(#[trigger] mm.vmas@[i], &mm.pagetable),
    ensures
        mm.wf(&mem),
        forall|p: int| !mm.spec_area_holds(&mem, p),
{
    assert forall|i: int, p: int| 0 <= i < mm.vmas@.len() implies !(#[trigger] mm.vmas@[i].spec_holds_frame(&mem, p)) by {
        assert(spec_bare_area(mm.vmas@[i], &mm.pagetable));
    }
    assert forall|i: int| 0 <= i < mm.vmas@.len() implies (#[trigger] mm.vmas@[i]).wf(&mm.pagetable, &mem)
        && mm.vmas@[i].file_off + mm.vmas@[i].file_len <= u64::MAX by {
        assert(spec_bare_area(mm.vmas@[i], &mm.pagetable));
    }
}


impl MmStruct {
    /// An address space stays well-formed when an area without frames is
    /// put among its areas.
    pub proof fn lemma_inserted(&self, after: MmStruct, mem: &MemoryManager, at: int, vma: VMA)
        requires
            self.wf(mem),
            after.pagetable == self.pagetable,
            after.wf_layout(),
            0 <= at <= self.vmas@.len(),
            after.vmas@ == self.vmas@.insert(at, vma),
            spec_bare_area(vma, &self.pagetable),
        ensures
            after.wf(mem),
            forall|p: int| after.spec_area_holds(mem, p) == self.spec_area_holds(mem, p),
    {
        assert forall|j: int| 0 <= j < after.vmas@.len() implies (#[trigger] after.vmas@[j]).wf(&after.pagetable, mem)
            && after.vmas@[j].file_off + after.vmas@[j].file_len <= u64::MAX by {
            if j < at {
                assert(after.vmas@[j] == self.vmas@[j]);
            } else if j > at {
                assert(after.vmas@[j] == self.vmas@[j - 1]);
            }
        }
        assert forall|j: int, k: int, p: int|
            0 <= j < after.vmas@.len() && 0 <= k < after.vmas@.len() && j != k implies !(
        #[trigger] after.vmas@[j].spec_holds_frame(mem, p) && #[trigger] after.vmas@[k].spec_holds_frame(mem, p)) by {
            let oj = if j < at { j } else { j - 1 };
            let ok = if k < at { k } else { k - 1 };
            if j != at && k != at {
                assert(after.vmas@[j] == self.vmas@[oj]);
                assert(after.vmas@[k] == self.vmas@[ok]);
                assert(!(self.vmas@[oj].spec_holds_frame(mem, p) && self.vmas@[ok].spec_holds_frame(mem, p)));
            }
        }
        assert forall|p: int| after.spec_area_holds(mem, p) == self.spec_area_holds(mem, p) by {
            if after.spec_area_holds(mem, p) {
                let j = choose|j: int| 0 <= j < after.vmas@.len() && (#[trigger] after.vmas@[j]).spec_holds_frame(mem, p);
                let oj = if j < at { j } else { j - 1 };
                assert(j != at);
                assert(after.vmas@[j] == self.vmas@[oj]);
                assert(self.vmas@[oj].spec_holds_frame(mem, p));
            }
            if self.spec_area_holds(mem, p) {
                let oj = choose|oj: int| 0 <= oj < self.vmas@.len() && (#[trigger] self.vmas@[oj]).spec_holds_frame(mem, p);
                let j = if oj < at { oj } else { oj + 1 };
                assert(after.vmas@[j] == self.vmas@[oj]);
                assert(after.vmas@[j].spec_holds_frame(mem, p));
            }
        }
    }

    /// An address space for a user without areas, over a fresh page table
    /// that shares what the kernel maps and manages the part of the root from
    /// `first_index` up to `end_index`, in which the root of the kernel's page
    /// table must hold nothing. Fails, changing nothing, where no frame is
    /// free.
    pub fn new_empty_user_mm(kernel: &PageTable, mem: &mut MemoryManager, first_index: u64, end_index: u64) -> (r: Option<
        Self,
    >)
        requires
            old(mem).wf(),
            kernel.spec_private_len() >= 1,
            old(mem).spec_is_frame(kernel.spec_root()),
            !old(mem).spec_frame_free(kernel.spec_root()),
            first_index <= end_index <= 512,
            forall|i: int|
                first_index <= i < end_index ==> !(#[trigger] crate::mm::pagetable::spec_entry(
                    old(mem).ram,
                    kernel.spec_root(),
                    i,
                )).spec_valid() && !crate::mm::pagetable::spec_entry(old(mem).ram, kernel.spec_root(), i).spec_is_leaf(),
        ensures
            final(mem).wf(),
            r is None <==> old(mem).buddy@.free_pages_from(0) == 0,
            r is None ==> final(mem).ram == old(mem).ram && final(mem).buddy@ == old(mem).buddy@ && final(mem).pages@
                == old(mem).pages@,
            r matches Some(mm) ==> {
                &&& mm.wf(final(mem))
                &&& !mm.spec_is_kern()
                &&& mm.spec_vmas().len() == 0
                &&& mm.spec_start_brk().0 == 0
                &&& mm.spec_brk().0 == 0
                &&& mm.cow_target is None
                &&& mm.pagetable.spec_first_index() == first_index
                &&& mm.pagetable.spec_end_index() == end_index
                &&& old(mem).spec_frame_free(mm.pagetable.spec_root())
                &&& final(mem).buddy@.free_pages_from(0) == old(mem).buddy@.free_pages_from(0) - 1
                &&& forall|v: u64| mm.pagetable.spec_covers(v) ==> #[trigger] mm.pagetable.spec_translate(final(mem), v) is None
            },
    {
        match PageTable::new_user(kernel, mem, first_index, end_index) {
            Some(pt) => Some(Self::new_empty_user_mm_by_pagetable(pt)),
            None => None,
        }
    }
}


/// Whether `file` is the file behind one of the areas `vmas` that has been
/// written to.
pub open spec fn spec_written_file(vmas: Seq<VMA>, file: u64) -> bool {
    exists|i: int| 0 <= i < vmas.len() && vmas[i].file == Some(file) && (#[trigger] vmas[i]).vm_flags.spec_contains(VM_DIRTY)
}

impl MmStruct {
    /// No two areas of an address space have an address in common.
    pub proof fn lemma_areas_apart(&self, i: int, j: int, a: Vaddr)
        requires
            self.wf_layout(),
            0 <= i < self.spec_vmas().len(),
            0 <= j < self.spec_vmas().len(),
            i != j,
        ensures
            !(self.spec_vmas()[i].spec_in_vma(a) && self.spec_vmas()[j].spec_in_vma(a)),
    {
        if i < j {
            assert(self.spec_vmas()[i].end_vaddr.0 <= self.spec_vmas()[j].start_vaddr.0);
        } else {
            assert(self.spec_vmas()[j].end_vaddr.0 <= self.spec_vmas()[i].start_vaddr.0);
        }
    }

    /// An address space stays well-formed when an area is taken out of it.
    pub proof fn lemma_dropped(&self, after: MmStruct, mem: &MemoryManager, at: int)
        requires
            self.wf(mem),
            after.pagetable == self.pagetable,
            0 <= at < self.vmas@.len(),
            after.vmas@ == self.vmas@.remove(at),
        ensures
            after.wf(mem),
    {
        assert forall|j: int| 0 <= j < after.vmas@.len() implies (#[trigger] after.vmas@[j]).wf(&after.pagetable, mem)
            && after.vmas@[j].file_off + after.vmas@[j].file_len <= u64::MAX by {
            let oj = if j < at { j } else { j + 1 };
            assert(after.vmas@[j] == self.vmas@[oj]);
        }
        assert forall|j: int, k: int, p: int|
            0 <= j < after.vmas@.len() && 0 <= k < after.vmas@.len() && j != k implies !(
        #[trigger] after.vmas@[j].spec_holds_frame(mem, p) && #[trigger] after.vmas@[k].spec_holds_frame(mem, p)) by {
            let oj = if j < at { j } else { j + 1 };
            let ok = if k < at { k } else { k + 1 };
            assert(after.vmas@[j] == self.vmas@[oj]);
            assert(after.vmas@[k] == self.vmas@[ok]);
            assert(!(self.vmas@[oj].spec_holds_frame(mem, p) && self.vmas@[ok].spec_holds_frame(mem, p)));
        }
        assert(spec_sorted(after.vmas@)) by {
            assert forall|j: int| 0 <= j < after.vmas@.len() implies (#[trigger] after.vmas@[j]).start_vaddr.0
                < after.vmas@[j].end_vaddr.0 by {
                let oj = if j < at { j } else { j + 1 };
                assert(after.vmas@[j] == self.vmas@[oj]);
            }
            assert forall|j: int, k: int| 0 <= j < k < after.vmas@.len() implies (#[trigger] after.vmas@[j]).end_vaddr.0 <= (
            #[trigger] after.vmas@[k]).start_vaddr.0 by {
                let oj = if j < at { j } else { j + 1 };
                let ok = if k < at { k } else { k + 1 };
                assert(after.vmas@[j] == self.vmas@[oj]);
                assert(after.vmas@[k] == self.vmas@[ok]);
                assert(self.vmas@[oj].end_vaddr.0 <= self.vmas@[ok].start_vaddr.0);
            }
        }
    }

    /// Takes the frames of all pages of all areas away, as when the task
    /// of the address space ends: the pages are unmapped and the frames are
    /// let go of; the areas stay, and so do the frames in reserve. Returns
    /// what has to be written back to the files behind the areas.
    pub fn _release_all(&mut self, mem: &mut MemoryManager) -> (r: Vec<FileWriteBack>)
        requires
            old(self).wf(old(mem)),
        ensures
            final(self).wf(final(mem)),
            final(self).is_kern == old(self).is_kern,
            final(self).brk == old(self).brk,
            final(self).start_brk == old(self).start_brk,
            final(self).cow_target == old(self).cow_target,
            final(self).vmas@.len() == old(self).vmas@.len(),
            forall|i: int|
                0 <= i < old(self).vmas@.len() ==> old(self).vmas@[i].spec_same_but_pages(
                    &#[trigger] final(self).vmas@[i],
                ) && final(self).vmas@[i].pages_tree@.len() == 0,
            forall|i: int, k: Vaddr|
                0 <= i < old(self).vmas@.len() && #[trigger] old(self).vmas@[i].pages_tree.spec_contains(k) ==> final(mem).spec_frame_free(old(self).vmas@[i].pages_tree.spec_page(k).vaddr.0 as int),
            forall|p: int| 0 <= p && old(mem).buddy@.page_free(p) ==> #[trigger] final(mem).buddy@.page_free(p),
            forall|i: int, k: Vaddr|
                0 <= i < old(self).vmas@.len() && #[trigger] old(self).vmas@[i].pages_tree.spec_contains(k) && old(self).vmas@[i].spec_write_back(k) is Some ==> crate::mm::vma::spec_has_write_back(
                    old(self).vmas@[i],
                    old(mem),
                    k,
                    r@,
                ),
            forall|n: int| 0 <= n < r@.len() ==> spec_from_area(old(self).vmas@, old(mem), #[trigger] r@[n]),
            forall|k: int| 0 <= k < r@.len() ==> spec_written_file(old(self).vmas@, (#[trigger] r@[k]).file),
    {
        let mut ret: Vec<FileWriteBack> = Vec::new();
        let count = self.vmas.len();
        let mut i: usize = 0;
        while i < count
            invariant
                i <= count,
                count == old(self).vmas@.len(),
                self.wf(mem),
                self.is_kern == old(self).is_kern,
                self.brk == old(self).brk,
                self.start_brk == old(self).start_brk,
                self.cow_target == old(self).cow_target,
                self.vmas@.len() == old(self).vmas@.len(),
                forall|j: int|
                    0 <= j < i ==> old(self).vmas@[j].spec_same_but_pages(&#[trigger] self.vmas@[j])
                        && self.vmas@[j].pages_tree@.len() == 0,
                forall|j: int| i <= j < count ==> #[trigger] self.vmas@[j] == old(self).vmas@[j],
                old(self).wf(old(mem)),
                mem.buddy@.start == old(mem).buddy@.start,
                forall|j: int, k: Vaddr|
                    0 <= j < i && #[trigger] old(self).vmas@[j].pages_tree.spec_contains(k) ==> mem.spec_frame_free(
                        old(self).vmas@[j].pages_tree.spec_page(k).vaddr.0 as int,
                    ),
                forall|p: int| 0 <= p && old(mem).buddy@.page_free(p) ==> #[trigger] mem.buddy@.page_free(p),
                forall|j: int, k: Vaddr|
                    i <= j < count && #[trigger] old(self).vmas@[j].pages_tree.spec_contains(k)
                        ==> crate::mm::vma::spec_same_frame(
                        old(mem),
                        mem,
                        old(self).vmas@[j].pages_tree.spec_page(k).vaddr.0 as int,
                    ),
                forall|j: int, k: Vaddr|
                    0 <= j < i && #[trigger] old(self).vmas@[j].pages_tree.spec_contains(k) && old(self).vmas@[j].spec_write_back(k) is Some ==> crate::mm::vma::spec_has_write_back(
                        old(self).vmas@[j],
                        old(mem),
                        k,
                        ret@,
                    ),
                forall|n: int| 0 <= n < ret@.len() ==> spec_from_area(old(self).vmas@, old(mem), #[trigger] ret@[n]),
                forall|k: int| 0 <= k < ret@.len() ==> spec_written_file(old(self).vmas@, (#[trigger] ret@[k]).file),
            decreases count - i,
        {
            let ghost before = *self;
            let ghost mem0 = *mem;
            let ghost done = ret@;
            proof {
                assert(self.vmas@[i as int].wf(&self.pagetable, mem));
            }
            let mut part = self.vmas[i]._release_all_page(&mut self.pagetable, mem);
            proof {
                let vma0 = before.vmas@[i as int];
                let touched = vma0.spec_page_vpns();
                let given = vma0.spec_frames(&mem0);
                assert(self.vmas@ =~= before.vmas@.update(i as int, self.vmas@[i as int]));
                assert forall|j: int, p: int|
                    0 <= j < before.vmas@.len() && j != i && given.contains(p) implies !(
                #[trigger] before.vmas@[j].spec_holds_frame(&mem0, p)) by {
                    assert(vma0.spec_holds_frame(&mem0, p));
                }
                crate::mm::step::lemma_step(before.pagetable, mem0, self.pagetable, *mem, touched, given, 0, 0);
                assert forall|p: int| self.vmas@[i as int].spec_holds_frame(mem, p) implies vma0.spec_holds_frame(
                    &mem0,
                    p,
                ) by {
                    let v1 = self.vmas@[i as int];
                    assert(v1.cow_write_reserve_pgs == vma0.cow_write_reserve_pgs);
                    assert(v1.cow_write_reserve_pgs is Some);
                    crate::mm::vma::lemma_tree_holds_same(v1.cow_write_reserve_pgs->0, mem0, *mem);
                }
                before.lemma_release_step(*self, mem0, *mem, i as int, touched, given);
                assert forall|j: int, k: Vaddr|
                    0 <= j < i + 1 && #[trigger] old(self).vmas@[j].pages_tree.spec_contains(k) implies mem.spec_frame_free(
                    old(self).vmas@[j].pages_tree.spec_page(k).vaddr.0 as int,
                ) by {
                    let a = old(self).vmas@[j].pages_tree.spec_page(k).vaddr.0 as int;
                    if j < i {
                        assert(mem0.spec_frame_free(a));
                        old(self).vmas@[j].pages_tree.lemma_contains(k);
                        let n0 = old(self).vmas@[j].pages_tree.spec_index(k);
                        assert(old(self).vmas@[j].wf(&old(self).pagetable, old(mem)));
                        crate::mm::vma::lemma_frame_place(
                            &old(self).pagetable,
                            old(mem),
                            old(self).vmas@[j].pages_tree@[n0].page,
                        );
                        assert(mem0.spec_index(a) >= 0);
                    } else {
                        assert(vma0 == old(self).vmas@[i as int]);
                    }
                }
                assert forall|k: int| 0 <= k < part@.len() implies spec_written_file(
                    old(self).vmas@,
                    (#[trigger] part@[k]).file,
                ) by {
                    assert(Some(part@[k].file) == vma0.file);
                    assert(old(self).vmas@[i as int] == vma0);
                    assert(old(self).vmas@[i as int].vm_flags.spec_contains(VM_DIRTY));
                }
            }
            let ghost got = part@;
            ret.append(&mut part);
            proof {
                lemma_release_requests(
                    old(self).vmas@,
                    *old(mem),
                    before,
                    mem0,
                    self.pagetable,
                    *mem,
                    i as int,
                    got,
                    done,
                    ret@,
                );
                assert forall|k: int| 0 <= k < ret@.len() implies spec_written_file(
                    old(self).vmas@,
                    (#[trigger] ret@[k]).file,
                ) by {
                    if k < done.len() {
                        assert(ret@[k] == done[k]);
                    } else {
                        assert(ret@[k] == got[k - done.len()]);
                    }
                }
            }
            i += 1;
        }
        ret
    }

    /// An address space stays well-formed when one of its areas lets go of
    /// frames of its own.
    proof fn lemma_release_step(
        &self,
        after: MmStruct,
        mem0: MemoryManager,
        mem1: MemoryManager,
        i: int,
        touched: Set<u64>,
        given: Set<int>,
    )
        requires
            self.wf(&mem0),
            0 <= i < self.vmas@.len(),
            after.vmas@ == self.vmas@.update(i, after.vmas@[i]),
            self.vmas@[i].spec_same_but_pages(&after.vmas@[i]),
            after.vmas@[i].wf(&after.pagetable, &mem1),
            spec_step(self.pagetable, mem0, after.pagetable, mem1, touched, given),
            forall|j: int, p: int|
                0 <= j < self.vmas@.len() && j != i && given.contains(p) ==> !(#[trigger] self.vmas@[j].spec_holds_frame(
                    &mem0,
                    p,
                )),
            forall|p: int| after.vmas@[i].spec_holds_frame(&mem1, p) ==> self.vmas@[i].spec_holds_frame(&mem0, p),
        ensures
            after.wf(&mem1),
    {
        assert(self.vmas@[i].wf(&self.pagetable, &mem0));
        assert forall|j: int, p: int|
            0 <= j < self.vmas@.len() && j != i && after.vmas@[i].spec_holds_frame(&mem1, p) implies !(
        #[trigger] self.vmas@[j].spec_holds_frame(&mem0, p)) by {
            assert(self.vmas@[i].spec_holds_frame(&mem0, p));
        }
        self.lemma_areas_step(after, mem0, mem1, i, touched, given);
    }
}


/// Whether `wb` is the request to write back a page of one of the areas
/// `vmas`.
pub open spec fn spec_from_area(vmas: Seq<VMA>, mem: &MemoryManager, wb: FileWriteBack) -> bool {
    exists|i: int| 0 <= i < vmas.len() && crate::mm::vma::spec_from_page(#[trigger] vmas[i], mem, wb)
}

/// A request to write back a page, made where the frame of the page held
/// what it held over another memory, is the request over that memory too.
pub proof fn lemma_write_back_same(vma: VMA, mem0: &MemoryManager, mem1: &MemoryManager, k: Vaddr, wb: FileWriteBack)
    requires
        crate::mm::vma::spec_is_write_back(vma, mem1, k, wb),
        crate::mm::vma::spec_same_frame(mem0, mem1, vma.pages_tree.spec_page(k).vaddr.0 as int),
    ensures
        crate::mm::vma::spec_is_write_back(vma, mem0, k, wb),
{
    let part = vma.spec_write_back(k)->0;
    let a = vma.pages_tree.spec_page(k).vaddr.0 as int;
    assert(0 <= part.page_off && part.page_off + part.len <= 4096);
    assert forall|i: int| 0 <= i < wb.data@.len() implies wb.data@[i] == mem0.ram.spec_byte(a + part.page_off + i) by {
        let j = part.page_off + i;
        assert(mem1.ram.spec_byte(a + j) == mem0.ram.spec_byte(a + j));
    }
}

/// One round of the teardown of an address space, for the requests to
/// write back: those of the area at place `i` join those of the areas
/// before, and the frames of the areas behind hold what they held.
pub proof fn lemma_release_requests(
    vmas: Seq<VMA>,
    first: MemoryManager,
    before: MmStruct,
    mem0: MemoryManager,
    pt1: PageTable,
    mem1: MemoryManager,
    i: int,
    part: Seq<FileWriteBack>,
    ret0: Seq<FileWriteBack>,
    ret1: Seq<FileWriteBack>,
)
    requires
        before.wf(&mem0),
        0 <= i < vmas.len(),
        vmas.len() == before.vmas@.len(),
        forall|j: int| i <= j < vmas.len() ==> #[trigger] before.vmas@[j] == vmas[j],
        spec_step(
            before.pagetable,
            mem0,
            pt1,
            mem1,
            before.vmas@[i].spec_page_vpns(),
            before.vmas@[i].spec_frames(&mem0),
        ),
        forall|j: int, k: Vaddr|
            i <= j < vmas.len() && #[trigger] vmas[j].pages_tree.spec_contains(k) ==> crate::mm::vma::spec_same_frame(
                &first,
                &mem0,
                vmas[j].pages_tree.spec_page(k).vaddr.0 as int,
            ),
        forall|j: int, k: Vaddr|
            0 <= j < i && #[trigger] vmas[j].pages_tree.spec_contains(k) && vmas[j].spec_write_back(k) is Some
                ==> crate::mm::vma::spec_has_write_back(vmas[j], &first, k, ret0),
        forall|n: int| 0 <= n < ret0.len() ==> spec_from_area(vmas, &first, #[trigger] ret0[n]),
        forall|k: Vaddr| #[trigger]
            vmas[i].pages_tree.spec_contains(k) && vmas[i].spec_write_back(k) is Some
                ==> crate::mm::vma::spec_has_write_back(vmas[i], &mem0, k, part),
        forall|n: int| 0 <= n < part.len() ==> crate::mm::vma::spec_from_page(vmas[i], &mem0, #[trigger] part[n]),
        ret1 == ret0 + part,
    ensures
        forall|j: int, k: Vaddr|
            i + 1 <= j < vmas.len() && #[trigger] vmas[j].pages_tree.spec_contains(k) ==> crate::mm::vma::spec_same_frame(
                &first,
                &mem1,
                vmas[j].pages_tree.spec_page(k).vaddr.0 as int,
            ),
        forall|j: int, k: Vaddr|
            0 <= j < i + 1 && #[trigger] vmas[j].pages_tree.spec_contains(k) && vmas[j].spec_write_back(k) is Some
                ==> crate::mm::vma::spec_has_write_back(vmas[j], &first, k, ret1),
        forall|n: int| 0 <= n < ret1.len() ==> spec_from_area(vmas, &first, #[trigger] ret1[n]),
{
    let touched = before.vmas@[i].spec_page_vpns();
    let given = before.vmas@[i].spec_frames(&mem0);
    assert forall|j: int, k: Vaddr|
        i + 1 <= j < vmas.len() && #[trigger] vmas[j].pages_tree.spec_contains(k) implies crate::mm::vma::spec_same_frame(
        &first,
        &mem1,
        vmas[j].pages_tree.spec_page(k).vaddr.0 as int,
    ) by {
        let vma = vmas[j];
        let pk = vma.pages_tree.spec_page(k);
        assert(before.vmas@[j] == vma);
        assert(vma.wf(&before.pagetable, &mem0));
        vma.pages_tree.lemma_contains(k);
        let n = vma.pages_tree.spec_index(k);
        assert(crate::mm::step::spec_frame_ok(pk, &before.pagetable, &mem0));
        let p = mem0.spec_index(pk.vaddr.0 as int);
        assert(mem0.spec_index(vma.pages_tree@[n].page.vaddr.0 as int) == p);
        assert(crate::mm::vma::spec_tree_holds(vma.pages_tree, &mem0, p));
        assert(before.vmas@[j].spec_holds_frame(&mem0, p));
        assert(!before.vmas@[i].spec_holds_frame(&mem0, p));
        crate::mm::step::lemma_frame_step(pk, before.pagetable, mem0, pt1, mem1, touched, given);
        assert(crate::mm::vma::spec_same_frame(&first, &mem0, pk.vaddr.0 as int));
        assert forall|b: int| 0 <= b < 4096 implies #[trigger] mem1.ram.spec_byte(pk.vaddr.0 + b) == first.ram.spec_byte(
            pk.vaddr.0 + b,
        ) by {
            assert(mem0.ram.spec_byte(pk.vaddr.0 + b) == first.ram.spec_byte(pk.vaddr.0 + b));
        }
    }
    assert forall|j: int, k: Vaddr|
        0 <= j < i + 1 && #[trigger] vmas[j].pages_tree.spec_contains(k) && vmas[j].spec_write_back(k) is Some implies crate::mm::vma::spec_has_write_back(
        vmas[j],
        &first,
        k,
        ret1,
    ) by {
        if j < i {
            let n = choose|n: int|
                0 <= n < ret0.len() && crate::mm::vma::spec_is_write_back(vmas[j], &first, k, #[trigger] ret0[n]);
            assert(ret1[n] == ret0[n]);
        } else {
            let n = choose|n: int|
                0 <= n < part.len() && crate::mm::vma::spec_is_write_back(vmas[i], &mem0, k, #[trigger] part[n]);
            lemma_write_back_same(vmas[i], &first, &mem0, k, part[n]);
            assert(ret1[ret0.len() + n] == part[n]);
        }
    }
    assert forall|n: int| 0 <= n < ret1.len() implies spec_from_area(vmas, &first, #[trigger] ret1[n]) by {
        if n < ret0.len() {
            assert(ret1[n] == ret0[n]);
            assert(spec_from_area(vmas, &first, ret0[n]));
        } else {
            let w = part[n - ret0.len()];
            assert(ret1[n] == w);
            assert(crate::mm::vma::spec_from_page(vmas[i], &mem0, w));
            let k = choose|k: Vaddr| #[trigger] crate::mm::vma::spec_is_write_back(vmas[i], &mem0, k, w);
            lemma_write_back_same(vmas[i], &first, &mem0, k, w);
            assert(crate::mm::vma::spec_from_page(vmas[i], &first, w));
        }
    }
}

} // verus!
