//! Page faults: a page gets its frame when it is first used, and a page
//! that shares its frame with another address space gets a frame of its own
//! when it is first written to.
use vstd::prelude::*;
use crate::mm::addr::{spec_floor, PageAlign, Vaddr};
use crate::mm::mm::MmStruct;
use crate::mm::page::Page;
use crate::mm::pagetable::{spec_vpn, PageTable};
use crate::mm::pagetable::spec_frame_of;
use crate::consts::PHY_MEM_OFFSET;
use crate::mm::pagetable::lemma_kept;
use crate::mm::pte::PTE;
use crate::mm::step::{
    lemma_step, lemma_step_byte, lemma_step_foreign, lemma_step_from_write, lemma_step_table, spec_frame_ok, spec_step,
    spec_table_places,
};
use crate::mm::vma::{spec_tree_holds, spec_vma_flags_2_pte_flags};
use crate::mm::vma::{lemma_got_frame_holds, spec_got_copy, spec_got_frame, FaultFill, VMA};
use crate::mm::MemoryManager;
use crate::pre::ShowRdWrEx;
use crate::trap::PgFaultProt;

verus! {

/// Why a page fault cannot be resolved.
#[derive(Clone, Copy, Debug, PartialEq, Eq, Structural)]
pub enum FatalFault {
    /// No area holds the address.
    BadAddress,
    /// The access is not one that the area allows.
    Protection,
    /// There are not enough free frames.
    OutOfMemory,
}

/// How a page fault has been resolved.
pub enum FaultDone {
    /// The page has got a frame; the request says what has to be read into
    /// it.
    Populated(FaultFill),
    /// The page has got a frame of its own, with a copy of the frame that it
    /// shared.
    Copied(Page),
}

/// Whether the two memories are the same.
pub open spec fn spec_mem_same(mem0: &MemoryManager, mem1: &MemoryManager) -> bool {
    &&& mem1.ram == mem0.ram
    &&& mem1.buddy@ == mem0.buddy@
    &&& mem1.pages@ == mem0.pages@
}

/// Whether the free frames of `mem` suffice to give the page `v` a frame
/// under the page table `pt`.
pub open spec fn spec_can_give(pt: &PageTable, mem: &MemoryManager, v: Vaddr) -> bool {
    mem.buddy@.free_pages_from(0) >= pt.spec_missing(mem, v.0) + 1
}

/// What a fault has to read into the frame that it gave to the page `v` of
/// the area `vma`, and whether the instruction cache has to be flushed.
pub open spec fn spec_fill_for(vma: VMA, mem1: &MemoryManager, v: Vaddr, ff: FaultFill) -> bool {
    &&& ff.flush_icache == (!vma.spec_is_anon() && vma.spec_execable())
    &&& ff.fill is Some <==> vma.spec_file_part(v) is Some
    &&& ff.fill matches Some(fill) ==> {
        &&& Some(fill.file) == vma.file
        &&& fill.dest.0 == ff.page.vaddr.0 + vma.spec_file_part(v)->0.page_off
        &&& fill.len == vma.spec_file_part(v)->0.len
        &&& fill.file_off == vma.spec_file_part(v)->0.file_off
        &&& mem1.ram.spec_contains(fill.dest.0 as int, fill.len as int)
    }
}

impl MmStruct {
    /// Whether no area holds the address `v`.
    pub open spec fn spec_no_area(&self, v: Vaddr) -> bool {
        forall|j: int| 0 <= j < self.vmas@.len() ==> !(#[trigger] self.vmas@[j]).spec_in_vma(v)
    }

    /// Whether `other` is this address space with the same areas and the
    /// same page table.
    pub open spec fn spec_unchanged(&self, other: &MmStruct) -> bool {
        &&& self.spec_same_but_vmas(other)
        &&& other.vmas@ == self.vmas@
    }

    /// Whether `other` is this address space but for the page table and
    /// for what the area at place `i` holds.
    pub open spec fn spec_same_but_area(&self, other: &MmStruct, i: int) -> bool {
        &&& other.is_kern == self.is_kern
        &&& other.brk == self.brk
        &&& other.start_brk == self.start_brk
        &&& other.cow_target == self.cow_target
        &&& other.vmas@ == self.vmas@.update(i, other.vmas@[i])
    }

    /// What it means that the page `v` of the area at place `i` has got its
    /// first frame: the frame was free, is full of zeros and is held by the
    /// area, which is marked as written to if it may be written to; the page
    /// is mapped to the frame with the rights of the area; no other page is
    /// mapped otherwise than before; and the frame and the tables that were
    /// missing on the way of `v` are the frames that are free no longer.
    pub open spec fn spec_populated(
        &self,
        mem0: &MemoryManager,
        after: &MmStruct,
        mem1: &MemoryManager,
        i: int,
        v: Vaddr,
        ff: FaultFill,
    ) -> bool {
        &&& self.spec_same_but_area(after, i)
        &&& spec_step(self.pagetable, *mem0, after.pagetable, *mem1, set![spec_vpn(v.0)], Set::empty())
        &&& spec_got_frame(
            self.vmas@[i].spec_marked_dirty(),
            *mem0,
            after.vmas@[i],
            after.pagetable,
            *mem1,
            v,
            ff.page,
        )
        &&& spec_fill_for(self.vmas@[i], mem1, v, ff)
        &&& mem1.buddy@.free_pages_from(0) == mem0.buddy@.free_pages_from(0) - self.pagetable.spec_missing(mem0, v.0) - 1
    }

    /// What it means that the page `v` of the area at place `i` has got a
    /// frame of its own in place of the frame at `src`: the new frame was
    /// free and holds a copy of the other; the page is mapped to the new
    /// frame with the rights of the area; no other page is mapped otherwise
    /// than before; the frame and the tables that were missing on the way of
    /// `v` are the frames that are free no longer; and where no table was
    /// missing, one frame more is in use.
    pub open spec fn spec_parted(
        &self,
        mem0: &MemoryManager,
        after: &MmStruct,
        mem1: &MemoryManager,
        i: int,
        v: Vaddr,
        page: Page,
        src: Vaddr,
    ) -> bool {
        &&& self.spec_same_but_area(after, i)
        &&& self.vmas@[i].spec_same_but_frames(&after.vmas@[i])
        &&& spec_step(
            self.pagetable,
            *mem0,
            after.pagetable,
            *mem1,
            set![spec_vpn(v.0)],
            set![mem0.spec_index(page.vaddr.0 as int)],
        )
        &&& spec_got_copy(self.vmas@[i], *mem0, after.vmas@[i], after.pagetable, *mem1, v, page, src)
        &&& forall|p: int|
            after.vmas@[i].spec_holds_frame(mem1, p) ==> (self.vmas@[i].spec_holds_frame(mem0, p) || p
                == mem0.spec_index(page.vaddr.0 as int))
        &&& after.vmas@[i].spec_holds_frame(mem1, mem0.spec_index(page.vaddr.0 as int))
        &&& mem1.buddy@.free_pages_from(0) == mem0.buddy@.free_pages_from(0) - self.pagetable.spec_missing(mem0, v.0) - 1
        &&& self.pagetable.spec_missing(mem0, v.0) == 0 ==> crate::mm::page::spec_live_count(mem1.pages@)
            == crate::mm::page::spec_live_count(mem0.pages@) + 1
    }

    /// What a fault of the kind `access` on the page `v` of the area at
    /// place `i` comes to.
    pub open spec fn spec_fault_result(
        &self,
        mem0: &MemoryManager,
        after: &MmStruct,
        mem1: &MemoryManager,
        i: int,
        v: Vaddr,
        access: PgFaultProt,
        r: Result<FaultDone, FatalFault>,
    ) -> bool {
        let vma = self.vmas@[i];
        if vma.pages_tree.spec_contains(v) {
            if access == PgFaultProt::Write && vma.spec_shared(v) {
                if spec_can_give(&self.pagetable, mem0, v) {
                    r matches Ok(FaultDone::Copied(page)) && self.spec_parted(
                        mem0,
                        after,
                        mem1,
                        i,
                        v,
                        page,
                        vma.pages_tree.spec_page(v).vaddr,
                    ) && spec_frame_ok(vma.pages_tree.spec_page(v), &after.pagetable, mem1) && (vma.spec_reserve_open(v)
                        ==> after.vmas@[i].cow_write_reserve_pgs->0.spec_page(v) == vma.pages_tree.spec_page(v))
                } else {
                    r == Err::<FaultDone, FatalFault>(FatalFault::OutOfMemory)
                }
            } else {
                r == Err::<FaultDone, FatalFault>(FatalFault::Protection)
            }
        } else {
            if self.pagetable.spec_translate(mem0, v.0) is Some {
                r == Err::<FaultDone, FatalFault>(FatalFault::Protection)
            } else if !spec_can_give(&self.pagetable, mem0, v) {
                r == Err::<FaultDone, FatalFault>(FatalFault::OutOfMemory)
            } else {
                r matches Ok(FaultDone::Populated(ff)) && self.spec_populated(mem0, after, mem1, i, v, ff)
            }
        }
    }

    /// Whether the page `v` is mapped to something.
    pub fn _page_mapped(&self, mem: &MemoryManager, v: Vaddr) -> (b: bool)
        requires
            self.pagetable.wf(mem),
            self.pagetable.spec_covers(v.0),
        ensures
            b == self.pagetable.spec_translate(mem, v.0) is Some,
    {
        match self.pagetable.walk(mem, v.0) {
            Some(r) => r.get_pte(&mem.ram).vaild(),
            None => false,
        }
    }

    /// Resolves a fault of the kind `access` at `address`. A page of an
    /// area that has no frame yet gets one. A page that shares its frame
    /// with an address space made from this one gets a frame of its own
    /// where the fault came from a store. Any other fault is fatal, and
    /// changes nothing.
    #[verifier::rlimit(100)]
    #[verifier::spinoff_prover]
    pub fn handle_fault(&mut self, mem: &mut MemoryManager, address: Vaddr, access: PgFaultProt) -> (r: Result<
        FaultDone,
        FatalFault,
    >)
        requires
            old(self).wf(old(mem)),
        ensures
            final(self).wf(final(mem)),
            r is Err ==> old(self).spec_unchanged(final(self)) && spec_mem_same(old(mem), final(mem)),
            forall|p: int|
                final(self).spec_area_holds(final(mem), p) ==> old(self).spec_area_holds(old(mem), p) || old(mem).buddy@.page_free(p),
            old(self).spec_no_area(Vaddr(spec_floor(address.0 as int) as u64)) ==> r == Err::<FaultDone, FatalFault>(
                FatalFault::BadAddress,
            ),
            forall|i: int|
                0 <= i < old(self).vmas@.len() && (#[trigger] old(self).vmas@[i]).spec_in_vma(
                    Vaddr(spec_floor(address.0 as int) as u64),
                ) ==> old(self).spec_fault_result(
                    old(mem),
                    final(self),
                    final(mem),
                    i,
                    Vaddr(spec_floor(address.0 as int) as u64),
                    access,
                    r,
                ),
    {
        let v = address.floor();
        let i = match self.find_vma(v) {
            Some(i) => i,
            None => {
                return Err(FatalFault::BadAddress);
            },
        };
        proof {
            self.lemma_one_area(i as int, v);
            assert(self.vmas@[i as int].wf(&self.pagetable, mem));
            assert(self.pagetable.spec_covers(v.0));
            self.pagetable.lemma_walk(mem, v.0);
        }
        let missing = self.pagetable._missing_tables(mem, v.0);
        let can_give = mem.buddy.get_free_pages_cnt() >= missing + 1;
        if self.vmas[i]._vaddr_have_map(v) {
            let write = match access {
                PgFaultProt::Write => true,
                _ => false,
            };
            if !write || !self.vmas[i]._is_shared(v) {
                return Err(FatalFault::Protection);
            }
            if !can_give {
                return Err(FatalFault::OutOfMemory);
            }
            let ghost kept = self.vmas@[i as int].pages_tree.spec_page(v);
            let got = self.vmas[i]._cow_reserve_one_page(&mut self.pagetable, mem, v);
            let page = got.unwrap();
            proof {
                let given = set![old(mem).spec_index(page.vaddr.0 as int)];
                assert(self.vmas@ =~= old(self).vmas@.update(i as int, self.vmas@[i as int]));
                old(self).lemma_area_step(*self, *old(mem), *mem, i as int, set![spec_vpn(v.0)], given);
            }
            Ok(FaultDone::Copied(page))
        } else {
            if self._page_mapped(mem, v) {
                return Err(FatalFault::Protection);
            }
            if !can_give {
                return Err(FatalFault::OutOfMemory);
            }
            let got = self.vmas[i]._do_alloc_one_page(&mut self.pagetable, mem, v);
            let ff = got.unwrap();
            proof {
                assert(self.vmas@ =~= old(self).vmas@.update(i as int, self.vmas@[i as int]));
                lemma_step(old(self).pagetable, *old(mem), self.pagetable, *mem, set![spec_vpn(v.0)], Set::empty(), 0, 0);
                lemma_got_frame_holds(
                    old(self).vmas@[i as int].spec_marked_dirty(),
                    *old(mem),
                    self.vmas@[i as int],
                    self.pagetable,
                    *mem,
                    v,
                    ff.page,
                );
                old(self).lemma_area_step(*self, *old(mem), *mem, i as int, set![spec_vpn(v.0)], Set::empty());
            }
            Ok(FaultDone::Populated(ff))
        }
    }

    /// Only one area holds an address.
    pub proof fn lemma_one_area(&self, i: int, v: Vaddr)
        requires
            self.wf_layout(),
            0 <= i < self.vmas@.len(),
            self.vmas@[i].spec_in_vma(v),
        ensures
            forall|j: int| 0 <= j < self.vmas@.len() && (#[trigger] self.vmas@[j]).spec_in_vma(v) ==> j == i,
    {
        assert forall|j: int| 0 <= j < self.vmas@.len() && (#[trigger] self.vmas@[j]).spec_in_vma(v) implies j == i by {
            if j < i {
                assert(self.vmas@[j].end_vaddr.0 <= self.vmas@[i].start_vaddr.0);
            }
            if i < j {
                assert(self.vmas@[i].end_vaddr.0 <= self.vmas@[j].start_vaddr.0);
            }
        }
    }
}


/// Whether two address spaces over one memory have nothing in common: no
/// table, and no frame that an area of one of them holds is held by an area
/// of the other or is a table of the other.
pub open spec fn spec_apart(a: &MmStruct, b: &MmStruct, mem: &MemoryManager) -> bool {
    &&& forall|t: int| !(#[trigger] a.pagetable.spec_tables().contains(t) && b.pagetable.spec_tables().contains(t))
    &&& forall|p: int| #[trigger]
        a.spec_area_holds(mem, p) ==> !b.spec_area_holds(mem, p) && !b.pagetable.spec_tables().contains(
            mem.buddy@.start + p * 4096,
        )
    &&& forall|p: int| #[trigger]
        b.spec_area_holds(mem, p) ==> !a.pagetable.spec_tables().contains(mem.buddy@.start + p * 4096)
}

/// Whether the address space `b` is over `mem1` what it was over `mem0`:
/// well-formed, with every address mapped as before and every frame of its
/// areas holding what it held.
pub open spec fn spec_left_alone(b: &MmStruct, mem0: &MemoryManager, mem1: &MemoryManager) -> bool {
    &&& b.wf(mem1)
    &&& mem1.buddy@.start == mem0.buddy@.start
    &&& mem1.buddy@.pages == mem0.buddy@.pages
    &&& forall|v: u64|
        b.pagetable.spec_covers(v) ==> #[trigger] b.pagetable.spec_translate(mem1, v) == b.pagetable.spec_translate(
            mem0,
            v,
        )
    &&& forall|p: int, k: int|
        b.spec_area_holds(mem0, p) && 0 <= k < 4096 ==> #[trigger] mem1.ram.spec_byte(mem0.buddy@.start + p * 4096 + k)
            == mem0.ram.spec_byte(mem0.buddy@.start + p * 4096 + k)
}

/// What was left alone twice was left alone.
pub proof fn lemma_left_alone_trans(b: &MmStruct, mem0: &MemoryManager, mem1: &MemoryManager, mem2: &MemoryManager)
    requires
        spec_left_alone(b, mem0, mem1),
        spec_left_alone(b, mem1, mem2),
    ensures
        spec_left_alone(b, mem0, mem2),
{
    assert forall|p: int, k: int| b.spec_area_holds(mem0, p) && 0 <= k < 4096 implies #[trigger] mem2.ram.spec_byte(
        mem0.buddy@.start + p * 4096 + k,
    ) == mem0.ram.spec_byte(mem0.buddy@.start + p * 4096 + k) by {
        let j = choose|j: int| 0 <= j < b.vmas@.len() && (#[trigger] b.vmas@[j]).spec_holds_frame(mem0, p);
        b.vmas@[j].lemma_holds_same(*mem0, *mem1);
        assert(b.vmas@[j].spec_holds_frame(mem1, p));
        assert(b.spec_area_holds(mem1, p));
        assert(mem2.ram.spec_byte(mem1.buddy@.start + p * 4096 + k) == mem1.ram.spec_byte(
            mem1.buddy@.start + p * 4096 + k,
        ));
    }
}

/// A step of one address space that gives and gains only frames that were
/// free or its own leaves another address space, apart from it, as it was:
/// well-formed, apart from the first, every address mapped as before, and
/// every frame of its areas with the bytes that it held.
pub proof fn lemma_apart_step(
    a0: MmStruct,
    a1: MmStruct,
    b: MmStruct,
    mem0: MemoryManager,
    mem1: MemoryManager,
    touched: Set<u64>,
    given: Set<int>,
)
    requires
        a0.wf(&mem0),
        b.wf(&mem0),
        spec_apart(&a0, &b, &mem0),
        spec_step(a0.pagetable, mem0, a1.pagetable, mem1, touched, given),
        forall|p: int| given.contains(p) ==> a0.spec_area_holds(&mem0, p) || mem0.buddy@.page_free(p),
        forall|p: int| a1.spec_area_holds(&mem1, p) ==> a0.spec_area_holds(&mem0, p) || mem0.buddy@.page_free(p),
    ensures
        b.wf(&mem1),
        spec_apart(&a1, &b, &mem1),
        spec_left_alone(&b, &mem0, &mem1),
        forall|v: u64|
            b.pagetable.spec_covers(v) ==> #[trigger] b.pagetable.spec_translate(&mem1, v) == b.pagetable.spec_translate(
                &mem0,
                v,
            ),
        forall|p: int, k: int|
            b.spec_area_holds(&mem0, p) && 0 <= k < 4096 ==> #[trigger] mem1.ram.spec_byte(
                mem0.buddy@.start + p * 4096 + k,
            ) == mem0.ram.spec_byte(mem0.buddy@.start + p * 4096 + k),
{
    let start = mem0.buddy@.start;
    let more = given.union(spec_table_places(a0.pagetable, mem0));
    mem0.buddy.lemma_wf();
    lemma_step(a0.pagetable, mem0, a1.pagetable, mem1, touched, given, 0, 0);
    assert forall|t: int| #[trigger] b.pagetable.spec_tables().contains(t) implies t == start + mem0.spec_index(t)
        * 4096 && !mem0.buddy@.page_free(mem0.spec_index(t)) by {
        assert(mem0.spec_is_frame(t));
        assert(!mem0.spec_frame_free(t));
    }
    assert forall|p: int| b.spec_area_holds(&mem0, p) implies 0 <= p < mem0.pages@.len() && !mem0.buddy@.page_free(p)
        && !b.pagetable.spec_tables().contains(start + p * 4096) by {
        let j = choose|j: int| 0 <= j < b.vmas@.len() && (#[trigger] b.vmas@[j]).spec_holds_frame(&mem0, p);
        b.vmas@[j].lemma_held(&b.pagetable, &mem0, p);
    }
    assert forall|t: int| #[trigger] b.pagetable.spec_tables().contains(t) implies !given.contains(
        mem0.spec_index(t),
    ) by {
        let p = mem0.spec_index(t);
        if given.contains(p) {
            if a0.spec_area_holds(&mem0, p) {
                assert(!b.pagetable.spec_tables().contains(start + p * 4096));
            }
        }
    }
    lemma_step_foreign(a0.pagetable, mem0, a1.pagetable, mem1, touched, given, b.pagetable);
    lemma_step(b.pagetable, mem0, b.pagetable, mem1, Set::empty(), more, 0, 0);
    assert forall|p: int| more.contains(p) implies !b.spec_area_holds(&mem0, p) by {
        if b.spec_area_holds(&mem0, p) {
            if given.contains(p) {
                if a0.spec_area_holds(&mem0, p) {
                }
            }
        }
    }
    assert forall|j: int| 0 <= j < b.vmas@.len() implies (#[trigger] b.vmas@[j]).wf(&b.pagetable, &mem1) by {
        let vma = b.vmas@[j];
        assert forall|p: int| more.contains(p) implies !vma.spec_holds_frame(&mem0, p) by {
            if vma.spec_holds_frame(&mem0, p) {
                assert(b.spec_area_holds(&mem0, p));
            }
        }
        vma.lemma_vma_step(b.pagetable, mem0, b.pagetable, mem1, Set::empty(), more);
    }
    assert forall|j: int, p: int| 0 <= j < b.vmas@.len() implies #[trigger] b.vmas@[j].spec_holds_frame(&mem1, p)
        == b.vmas@[j].spec_holds_frame(&mem0, p) by {
        b.vmas@[j].lemma_holds_same(mem0, mem1);
    }
    assert(b.wf(&mem1));
    assert forall|p: int| b.spec_area_holds(&mem1, p) == b.spec_area_holds(&mem0, p) by {
        if b.spec_area_holds(&mem1, p) {
            let j = choose|j: int| 0 <= j < b.vmas@.len() && (#[trigger] b.vmas@[j]).spec_holds_frame(&mem1, p);
            assert(b.vmas@[j].spec_holds_frame(&mem0, p));
        }
        if b.spec_area_holds(&mem0, p) {
            let j = choose|j: int| 0 <= j < b.vmas@.len() && (#[trigger] b.vmas@[j]).spec_holds_frame(&mem0, p);
            assert(b.vmas@[j].spec_holds_frame(&mem1, p));
        }
    }
    assert forall|v: u64| b.pagetable.spec_covers(v) implies #[trigger] b.pagetable.spec_translate(&mem1, v)
        == b.pagetable.spec_translate(&mem0, v) by {
        lemma_step(b.pagetable, mem0, b.pagetable, mem1, Set::empty(), more, v, 0);
    }
    assert forall|p: int, k: int| b.spec_area_holds(&mem0, p) && 0 <= k < 4096 implies #[trigger] mem1.ram.spec_byte(
        start + p * 4096 + k,
    ) == mem0.ram.spec_byte(start + p * 4096 + k) by {
        let a = start + p * 4096 + k;
        lemma_frame_of(start, p, k);
        lemma_step_byte(b.pagetable, mem0, b.pagetable, mem1, Set::empty(), more, a);
    }
    assert forall|p: int| #[trigger] a1.spec_area_holds(&mem1, p) implies !b.spec_area_holds(&mem1, p)
        && !b.pagetable.spec_tables().contains(start + p * 4096) by {
        if a0.spec_area_holds(&mem0, p) {
        } else {
            assert(mem0.buddy@.page_free(p));
            if b.pagetable.spec_tables().contains(start + p * 4096) {
                assert(mem0.spec_index(start + p * 4096) == p);
            }
        }
    }
    assert forall|p: int| #[trigger] b.spec_area_holds(&mem1, p) implies !a1.pagetable.spec_tables().contains(
        start + p * 4096,
    ) by {
        let t = start + p * 4096;
        if a1.pagetable.spec_tables().contains(t) {
            assert(mem0.spec_index(t) == p);
            lemma_step_table(a0.pagetable, mem0, a1.pagetable, mem1, touched, given, t);
        }
    }
}


impl MmStruct {
    /// Whether the area at place `i` allows an access of the kind `access`.
    pub open spec fn spec_allows(&self, i: int, access: PgFaultProt) -> bool {
        match access {
            PgFaultProt::Read => self.vmas@[i].spec_readable(),
            PgFaultProt::Write => self.vmas@[i].spec_writeable(),
            PgFaultProt::EXEC => self.vmas@[i].spec_execable(),
        }
    }

    /// What a fault of the kind `access` on the page `v` of the area at
    /// place `i` comes to in an address space that was made as a copy. A
    /// page that is mapped to nothing gets its first frame. A page that is
    /// mapped, to a frame that it shares, gets a frame of its own with a copy
    /// of that frame on a store, if that frame is in use.
    pub open spec fn spec_cow_fault_result(
        &self,
        parent: &MmStruct,
        mem0: &MemoryManager,
        after: &MmStruct,
        mem1: &MemoryManager,
        i: int,
        v: Vaddr,
        access: PgFaultProt,
        r: Result<FaultDone, FatalFault>,
    ) -> bool {
        let vma = self.vmas@[i];
        if !self.spec_allows(i, access) || vma.pages_tree.spec_contains(v) {
            r == Err::<FaultDone, FatalFault>(FatalFault::Protection)
        } else if self.pagetable.spec_translate(mem0, v.0) is None {
            if !spec_can_give(&self.pagetable, mem0, v) {
                r == Err::<FaultDone, FatalFault>(FatalFault::OutOfMemory)
            } else {
                r matches Ok(FaultDone::Populated(ff)) && self.spec_populated(mem0, after, mem1, i, v, ff)
            }
        } else if access != PgFaultProt::Write {
            r == Err::<FaultDone, FatalFault>(FatalFault::Protection)
        } else if !mem0.spec_frame_in_use(self.spec_mapped_frame(mem0, v)) {
            r == Err::<FaultDone, FatalFault>(FatalFault::Protection)
        } else if !spec_can_give(&self.pagetable, mem0, v) {
            r == Err::<FaultDone, FatalFault>(FatalFault::OutOfMemory)
        } else {
            r matches Ok(FaultDone::Copied(page)) && self.spec_parted(
                mem0,
                after,
                mem1,
                i,
                v,
                page,
                Vaddr(self.spec_mapped_frame(mem0, v) as u64),
            )
        }
    }

    /// The address in the direct map of the frame that the page `v` is
    /// mapped to.
    pub open spec fn spec_mapped_frame(&self, mem: &MemoryManager, v: Vaddr) -> int {
        PHY_MEM_OFFSET + self.pagetable.spec_leaf_entry(mem, v.0).spec_point_paddr()
    }

    /// Resolves a fault of the kind `access` at `address` in an address
    /// space that was made as a copy of `parent`. A page that is mapped to
    /// nothing gets its first frame. A page that is mapped to a frame that it
    /// shares gets a frame of its own, with a copy, where the fault came from
    /// a store. Any other fault is fatal, and changes nothing. `parent` is
    /// left as it was.
    #[verifier::rlimit(100)]
    #[verifier::spinoff_prover]
    pub fn handle_cow_fault(
        &mut self,
        parent: &MmStruct,
        mem: &mut MemoryManager,
        address: Vaddr,
        access: PgFaultProt,
    ) -> (r: Result<FaultDone, FatalFault>)
        requires
            old(self).wf(old(mem)),
            parent.wf(old(mem)),
            spec_apart(old(self), parent, old(mem)),
        ensures
            final(self).wf(final(mem)),
            parent.wf(final(mem)),
            spec_apart(final(self), parent, final(mem)),
            r is Err ==> old(self).spec_unchanged(final(self)) && spec_mem_same(old(mem), final(mem)),
            forall|p: int|
                final(self).spec_area_holds(final(mem), p) ==> old(self).spec_area_holds(old(mem), p) || old(mem).buddy@.page_free(p),
            forall|vb: u64|
                parent.pagetable.spec_covers(vb) ==> #[trigger] parent.pagetable.spec_translate(final(mem), vb)
                    == parent.pagetable.spec_translate(old(mem), vb),
            forall|p: int, k: int|
                parent.spec_area_holds(old(mem), p) && 0 <= k < 4096 ==> #[trigger] final(mem).ram.spec_byte(
                    old(mem).buddy@.start + p * 4096 + k,
                ) == old(mem).ram.spec_byte(old(mem).buddy@.start + p * 4096 + k),
            old(self).spec_no_area(Vaddr(spec_floor(address.0 as int) as u64)) ==> r == Err::<FaultDone, FatalFault>(
                FatalFault::BadAddress,
            ),
            forall|i: int|
                0 <= i < old(self).vmas@.len() && (#[trigger] old(self).vmas@[i]).spec_in_vma(
                    Vaddr(spec_floor(address.0 as int) as u64),
                ) ==> old(self).spec_cow_fault_result(
                    parent,
                    old(mem),
                    final(self),
                    final(mem),
                    i,
                    Vaddr(spec_floor(address.0 as int) as u64),
                    access,
                    r,
                ),
    {
        let v = address.floor();
        let i = match self.find_vma(v) {
            Some(i) => i,
            None => {
                return Err(FatalFault::BadAddress);
            },
        };
        proof {
            self.lemma_one_area(i as int, v);
            assert(self.vmas@[i as int].wf(&self.pagetable, mem));
            assert(self.pagetable.spec_covers(v.0));
            self.pagetable.lemma_walk(mem, v.0);
        }
        let allowed = match access {
            PgFaultProt::Read => self.vmas[i].readable(),
            PgFaultProt::Write => self.vmas[i].writeable(),
            PgFaultProt::EXEC => self.vmas[i].execable(),
        };
        if !allowed || self.vmas[i]._vaddr_have_map(v) {
            return Err(FatalFault::Protection);
        }
        let missing = self.pagetable._missing_tables(mem, v.0);
        let can_give = mem.buddy.get_free_pages_cnt() >= missing + 1;
        if !self._page_mapped(mem, v) {
            if !can_give {
                return Err(FatalFault::OutOfMemory);
            }
            let got = self.vmas[i]._do_alloc_one_page(&mut self.pagetable, mem, v);
            let ff = got.unwrap();
            proof {
                assert(self.vmas@ =~= old(self).vmas@.update(i as int, self.vmas@[i as int]));
                lemma_step(old(self).pagetable, *old(mem), self.pagetable, *mem, set![spec_vpn(v.0)], Set::empty(), 0, 0);
                lemma_got_frame_holds(
                    old(self).vmas@[i as int].spec_marked_dirty(),
                    *old(mem),
                    self.vmas@[i as int],
                    self.pagetable,
                    *mem,
                    v,
                    ff.page,
                );
                old(self).lemma_area_step(*self, *old(mem), *mem, i as int, set![spec_vpn(v.0)], Set::empty());
                lemma_apart_step(*old(self), *self, *parent, *old(mem), *mem, set![spec_vpn(v.0)], Set::empty());
            }
            return Ok(FaultDone::Populated(ff));
        }
        let write = match access {
            PgFaultProt::Write => true,
            _ => false,
        };
        if !write {
            return Err(FatalFault::Protection);
        }
        let entry = self.pagetable.walk(mem, v.0).unwrap().get_pte(&mem.ram);
        proof {
            PTE::lemma_entry(0, entry, 0, 0);
        }
        if entry.get_point_paddr() > u64::MAX - PHY_MEM_OFFSET {
            proof {
                mem.buddy.lemma_wf();
            }
            return Err(FatalFault::Protection);
        }
        let src = Vaddr(entry.get_point_paddr() + PHY_MEM_OFFSET);
        if !mem.frame_in_use(src) {
            return Err(FatalFault::Protection);
        }
        if !can_give {
            return Err(FatalFault::OutOfMemory);
        }
        let got = self.vmas[i]._install_copy(&mut self.pagetable, mem, v, src);
        let (page, _) = got.unwrap();
        proof {
            let given = set![old(mem).spec_index(page.vaddr.0 as int)];
            assert(self.vmas@ =~= old(self).vmas@.update(i as int, self.vmas@[i as int]));
            lemma_step(old(self).pagetable, *old(mem), self.pagetable, *mem, set![spec_vpn(v.0)], given, 0, 0);
            old(self).vmas@[i as int].lemma_holds_same(*old(mem), *mem);
            self.vmas@[i as int].lemma_holds_same(*old(mem), *mem);
            old(self).lemma_area_step(*self, *old(mem), *mem, i as int, set![spec_vpn(v.0)], given);
            lemma_apart_step(*old(self), *self, *parent, *old(mem), *mem, set![spec_vpn(v.0)], given);
        }
        Ok(FaultDone::Copied(page))
    }
}


/// The frame and the place of an address `k` bytes into the frame at place
/// `p`, counted from `start`.
pub proof fn lemma_frame_of(start: int, p: int, k: int)
    requires
        start % 4096 == 0,
        0 <= k < 4096,
    ensures
        spec_frame_of(start + p * 4096 + k) == start + p * 4096,
        (start + p * 4096 + k - start) / 4096 == p,
{
    assert((start + p * 4096 + k) / 4096 * 4096 == start + p * 4096) by (nonlinear_arith)
        requires
            start % 4096 == 0,
            0 <= k < 4096,
    ;
    assert((start + p * 4096 + k - start) / 4096 == p) by (nonlinear_arith)
        requires
            0 <= k < 4096,
    ;
}

/// A fault through which one address space has got a frame of its own for
/// the page `v` leaves another address space, apart from it, as it was. A
/// frame that was in use and is no table of the first is not the new frame,
/// and holds what it held.
pub proof fn lemma_parted_apart(
    a0: MmStruct,
    a1: MmStruct,
    b: MmStruct,
    mem0: MemoryManager,
    mem1: MemoryManager,
    i: int,
    v: Vaddr,
    page: Page,
    src: Vaddr,
    frame: int,
)
    requires
        a0.wf(&mem0),
        b.wf(&mem0),
        spec_apart(&a0, &b, &mem0),
        0 <= i < a0.vmas@.len(),
        a0.spec_parted(&mem0, &a1, &mem1, i, v, page, src),
        mem0.spec_is_frame(frame),
        !mem0.spec_frame_free(frame),
        !a0.pagetable.spec_tables().contains(frame),
    ensures
        b.wf(&mem1),
        spec_apart(&a1, &b, &mem1),
        forall|vb: u64|
            b.pagetable.spec_covers(vb) ==> #[trigger] b.pagetable.spec_translate(&mem1, vb) == b.pagetable.spec_translate(
                &mem0,
                vb,
            ),
        forall|k: int| 0 <= k < 4096 ==> #[trigger] mem1.ram.spec_byte(frame + k) == mem0.ram.spec_byte(frame + k),
        page.vaddr.0 != frame,
        forall|k: int|
            0 <= k < 4096 ==> #[trigger] mem1.ram.spec_contains(frame + k, 1) && !(page.vaddr.0 <= frame + k
                < page.vaddr.0 + 4096),
        mem1.spec_is_frame(page.vaddr.0 as int),
        !mem1.spec_frame_free(page.vaddr.0 as int),
        !b.pagetable.spec_tables().contains(page.vaddr.0 as int),
        !b.spec_area_holds(&mem1, mem1.spec_index(page.vaddr.0 as int)),
{
    let start = mem0.buddy@.start;
    let touched = set![spec_vpn(v.0)];
    let pidx = mem0.spec_index(page.vaddr.0 as int);
    let fidx = mem0.spec_index(frame);
    let given = set![pidx];
    mem0.buddy.lemma_wf();
    lemma_step(a0.pagetable, mem0, a1.pagetable, mem1, touched, given, 0, 0);
    assert(mem0.buddy@.page_free(pidx));
    assert forall|p: int| a1.spec_area_holds(&mem1, p) implies a0.spec_area_holds(&mem0, p) || mem0.buddy@.page_free(
        p,
    ) by {
        let j = choose|j: int| 0 <= j < a1.vmas@.len() && (#[trigger] a1.vmas@[j]).spec_holds_frame(&mem1, p);
        if j != i {
            a0.vmas@[j].lemma_holds_same(mem0, mem1);
            assert(a0.vmas@[j].spec_holds_frame(&mem0, p));
        } else {
            if p != pidx {
                assert(a0.vmas@[i].spec_holds_frame(&mem0, p));
            }
        }
    }
    lemma_apart_step(a0, a1, b, mem0, mem1, touched, given);
    assert(frame == start + fidx * 4096);
    assert(fidx != pidx);
    assert(!a1.pagetable.spec_tables().contains(frame)) by {
        if a1.pagetable.spec_tables().contains(frame) {
            lemma_step_table(a0.pagetable, mem0, a1.pagetable, mem1, touched, given, frame);
        }
    }
    assert forall|k: int| 0 <= k < 4096 implies #[trigger] mem1.ram.spec_byte(frame + k) == mem0.ram.spec_byte(
        frame + k,
    ) by {
        lemma_frame_of(start, fidx, k);
        lemma_step_byte(a0.pagetable, mem0, a1.pagetable, mem1, touched, given, frame + k);
    }
    assert(!b.pagetable.spec_tables().contains(page.vaddr.0 as int)) by {
        if b.pagetable.spec_tables().contains(page.vaddr.0 as int) {
            assert(!mem0.spec_frame_free(page.vaddr.0 as int));
        }
    }
    assert(spec_frame_ok(page, &a1.pagetable, &mem1));
    assert(a1.spec_area_holds(&mem1, pidx)) by {
        assert(a1.vmas@[i].spec_holds_frame(&mem1, pidx));
    }
    assert(page.vaddr.0 % 4096 == 0 && frame % 4096 == 0);
    assert(mem1.ram@.len() == mem1.buddy@.pages * 4096);
    assert forall|k: int| 0 <= k < 4096 implies #[trigger] mem1.ram.spec_contains(frame + k, 1) && !(page.vaddr.0
        <= frame + k < page.vaddr.0 + 4096) by {}
}

/// A store into a frame that is in use and that an address space neither
/// has as a table nor holds in an area leaves the address space as it was.
pub proof fn lemma_store_apart(b: MmStruct, mem1: MemoryManager, mem2: MemoryManager, page: Page, addr: int)
    requires
        b.wf(&mem1),
        mem1.spec_is_frame(page.vaddr.0 as int),
        !mem1.spec_frame_free(page.vaddr.0 as int),
        !b.pagetable.spec_tables().contains(page.vaddr.0 as int),
        !b.spec_area_holds(&mem1, mem1.spec_index(page.vaddr.0 as int)),
        page.vaddr.0 <= addr < page.vaddr.0 + 4096,
        mem2.wf(),
        mem2.buddy@ == mem1.buddy@,
        mem2.pages@ == mem1.pages@,
        mem1.ram.same_but(&mem2.ram, addr, 1),
    ensures
        b.wf(&mem2),
        forall|vb: u64|
            b.pagetable.spec_covers(vb) ==> #[trigger] b.pagetable.spec_translate(&mem2, vb) == b.pagetable.spec_translate(
                &mem1,
                vb,
            ),
{
    let given = set![mem1.spec_index(page.vaddr.0 as int)];
    lemma_step_from_write(b.pagetable, mem1, mem2, page, addr, 1);
    lemma_kept(b.pagetable, mem1, mem2);
    assert forall|j: int| 0 <= j < b.vmas@.len() implies (#[trigger] b.vmas@[j]).wf(&b.pagetable, &mem2) by {
        let vma = b.vmas@[j];
        assert forall|p: int| given.contains(p) implies !vma.spec_holds_frame(&mem1, p) by {
            if vma.spec_holds_frame(&mem1, p) {
                assert(b.spec_area_holds(&mem1, p));
            }
        }
        vma.lemma_vma_step(b.pagetable, mem1, b.pagetable, mem2, Set::empty(), given);
    }
    assert forall|j: int, p: int| 0 <= j < b.vmas@.len() implies #[trigger] b.vmas@[j].spec_holds_frame(&mem2, p)
        == b.vmas@[j].spec_holds_frame(&mem1, p) by {
        b.vmas@[j].lemma_holds_same(mem1, mem2);
    }
}

/// Copies that are made on the first store keep two address spaces
/// isolated. Let one address space have got a frame of its own for the page
/// `v` through a fault, and let a byte then be stored into that frame, as a
/// store through the new mapping does. Let `vb` be an address that the other
/// address space maps to a frame that was in use before the fault and is no
/// table of the first, as every frame is that the two share. Then the other
/// address space still maps `vb` as it did, to a frame that is not the new
/// one, and the frame holds what it held.
pub proof fn lemma_cow_isolation(
    a0: MmStruct,
    a1: MmStruct,
    b: MmStruct,
    mem0: MemoryManager,
    mem1: MemoryManager,
    mem2: MemoryManager,
    i: int,
    v: Vaddr,
    page: Page,
    src: Vaddr,
    addr: int,
    vb: u64,
    frame: int,
)
    requires
        a0.wf(&mem0),
        b.wf(&mem0),
        spec_apart(&a0, &b, &mem0),
        0 <= i < a0.vmas@.len(),
        a0.spec_parted(&mem0, &a1, &mem1, i, v, page, src),
        page.vaddr.0 <= addr < page.vaddr.0 + 4096,
        mem2.wf(),
        mem2.buddy@ == mem1.buddy@,
        mem2.pages@ == mem1.pages@,
        mem1.ram.same_but(&mem2.ram, addr, 1),
        b.pagetable.spec_covers(vb),
        b.pagetable.spec_translate(&mem0, vb) matches Some(pte) && frame == PHY_MEM_OFFSET + pte.spec_point_paddr(),
        mem0.spec_is_frame(frame),
        !mem0.spec_frame_free(frame),
        !a0.pagetable.spec_tables().contains(frame),
    ensures
        b.wf(&mem2),
        b.pagetable.spec_translate(&mem2, vb) == b.pagetable.spec_translate(&mem0, vb),
        forall|k: int| 0 <= k < 4096 ==> #[trigger] mem2.ram.spec_byte(frame + k) == mem0.ram.spec_byte(frame + k),
        page.vaddr.0 != frame,
{
    lemma_parted_apart(a0, a1, b, mem0, mem1, i, v, page, src, frame);
    lemma_store_apart(b, mem1, mem2, page, addr);
    assert forall|k: int| 0 <= k < 4096 implies #[trigger] mem2.ram.spec_byte(frame + k) == mem0.ram.spec_byte(
        frame + k,
    ) by {
        assert(mem1.ram.spec_contains(frame + k, 1));
        assert(mem1.ram.spec_byte(frame + k) == mem0.ram.spec_byte(frame + k));
    }
}


/// Two address spaces are apart whichever is named first.
pub proof fn lemma_apart_sym(a: &MmStruct, b: &MmStruct, mem: &MemoryManager)
    requires
        spec_apart(a, b, mem),
    ensures
        spec_apart(b, a, mem),
{
    assert forall|p: int| #[trigger] b.spec_area_holds(mem, p) implies !a.spec_area_holds(mem, p) by {
        if a.spec_area_holds(mem, p) {
            assert(!b.spec_area_holds(mem, p));
        }
    }
}


/// A step that leaves the page table of an address space as it is, touches
/// none of its pages and gives none of the frames of its areas leaves the
/// address space alone.
pub proof fn lemma_left_alone(b: &MmStruct, mem0: &MemoryManager, mem1: &MemoryManager, given: Set<int>)
    requires
        b.wf(mem0),
        spec_step(b.pagetable, *mem0, b.pagetable, *mem1, Set::empty(), given),
        forall|p: int| given.contains(p) ==> !b.spec_area_holds(mem0, p),
    ensures
        spec_left_alone(b, mem0, mem1),
{
    let start = mem0.buddy@.start;
    mem0.buddy.lemma_wf();
    b.lemma_mm_kept(*mem0, *mem1, Set::empty(), given);
    lemma_step(b.pagetable, *mem0, b.pagetable, *mem1, Set::empty(), given, 0, 0);
    assert forall|v: u64| b.pagetable.spec_covers(v) implies #[trigger] b.pagetable.spec_translate(mem1, v)
        == b.pagetable.spec_translate(mem0, v) by {
        lemma_step(b.pagetable, *mem0, b.pagetable, *mem1, Set::empty(), given, v, 0);
    }
    assert forall|p: int, k: int| b.spec_area_holds(mem0, p) && 0 <= k < 4096 implies #[trigger] mem1.ram.spec_byte(
        start + p * 4096 + k,
    ) == mem0.ram.spec_byte(start + p * 4096 + k) by {
        let j = choose|j: int| 0 <= j < b.vmas@.len() && (#[trigger] b.vmas@[j]).spec_holds_frame(mem0, p);
        b.vmas@[j].lemma_held(&b.pagetable, mem0, p);
        lemma_frame_of(start, p, k);
        lemma_step_byte(b.pagetable, *mem0, b.pagetable, *mem1, Set::empty(), given, start + p * 4096 + k);
    }
}


/// An address space is left alone where the memory holds the same, with the
/// same frames free and in use.
pub proof fn lemma_left_alone_same(b: &MmStruct, mem0: &MemoryManager, mem1: &MemoryManager)
    requires
        b.wf(mem0),
        mem1.wf(),
        spec_mem_same(mem0, mem1),
    ensures
        spec_left_alone(b, mem0, mem1),
{
    assert(crate::mm::pagetable::spec_kept(b.pagetable, *mem0, *mem1));
    crate::mm::step::lemma_step_from_kept(b.pagetable, *mem0, *mem1, Set::empty());
    lemma_left_alone(b, mem0, mem1, Set::empty());
}

} // verus!
