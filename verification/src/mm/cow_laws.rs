//! What a copy of an address space and the faults after it come to, put
//! together: a store on one side is not seen on the other.
use vstd::prelude::*;
use crate::consts::PHY_MEM_OFFSET;
use crate::mm::addr::Vaddr;
use crate::mm::cow::{spec_demoted, spec_forked, spec_one_window, spec_share_entry, spec_share_flags, spec_before};
use crate::mm::fault::{lemma_apart_sym, lemma_cow_isolation, spec_can_give, FatalFault, FaultDone};
use crate::mm::mm::MmStruct;
use crate::mm::page::Page;
use crate::mm::pte::{PTE, PTE_W};
use crate::mm::vma::{lemma_frame_place, spec_tree_holds, spec_vma_flags_2_pte_flags, VmFlags, VM_WRITE};
use crate::mm::MemoryManager;
use crate::pre::ShowRdWrEx;
use crate::trap::PgFaultProt;

verus! {

/// The entry for a page of an area that may be written to allows writing.
pub proof fn lemma_write_bit(bits: usize)
    by (bit_vector)
    requires
        bits & 2 == 2,
    ensures
        ((((bits & 0b1111) << 1) as u8) | 1u8 | 1u8) & 4u8 == 4u8,
        ((((bits & 0b1111) << 1) as u8) | 1u8) & 4u8 == 4u8,
{
}

/// Whether every frame of `mem` has a physical address that an entry of a
/// page table can hold.
pub open spec fn spec_addressable(mem: &MemoryManager) -> bool {
    mem.buddy@.start + mem.buddy@.pages * 4096 <= PHY_MEM_OFFSET + 0x80_0000_0000
}

/// What the two address spaces agree on right after a copy, for a page `v`
/// of the area at place `i` that had the frame `frame` and was mapped to it:
/// both map the page to that frame, which is in use and holds what it held,
/// and the copy has no frame of its own for the page.
pub proof fn lemma_forked_page(
    par0: MmStruct,
    mem0: MemoryManager,
    par1: MmStruct,
    child: MmStruct,
    mem1: MemoryManager,
    i: int,
    v: Vaddr,
)
    requires
        par0.wf(&mem0),
        spec_addressable(&mem0),
        spec_forked(par0, mem0, par1, child, mem1),
        0 <= i < par0.vmas@.len(),
        par0.vmas@[i].spec_writeable(),
        par0.vmas@[i].pages_tree.spec_contains(v),
        par0.pagetable.spec_translate(&mem0, v.0) matches Some(entry) && PHY_MEM_OFFSET + entry.spec_point_paddr()
            == par0.vmas@[i].pages_tree.spec_page(v).vaddr.0,
    ensures
        ({
            let frame = par0.vmas@[i].pages_tree.spec_page(v);
            &&& child.pagetable.spec_translate(&mem1, v.0) == Some(spec_share_entry(par0.vmas@[i], frame))
            &&& PHY_MEM_OFFSET + spec_share_entry(par0.vmas@[i], frame).spec_point_paddr() == frame.vaddr.0
            &&& par1.pagetable.spec_translate(&mem1, v.0) == spec_demoted(
                par0.pagetable.spec_translate(&mem0, v.0),
                spec_share_flags(par0.vmas@[i].vm_flags),
            )
            &&& PHY_MEM_OFFSET + par1.pagetable.spec_translate(&mem1, v.0)->0.spec_point_paddr() == frame.vaddr.0
            &&& mem1.spec_frame_in_use(frame.vaddr.0 as int)
            &&& !mem1.spec_frame_free(frame.vaddr.0 as int)
            &&& par1.spec_area_holds(&mem1, mem1.spec_index(frame.vaddr.0 as int))
            &&& !par1.pagetable.spec_tables().contains(frame.vaddr.0 as int)
            &&& !child.pagetable.spec_tables().contains(frame.vaddr.0 as int)
            &&& forall|j: int|
                0 <= j < 4096 ==> #[trigger] mem1.ram.spec_byte(frame.vaddr.0 + j) == mem0.ram.spec_byte(frame.vaddr.0 + j)
            &&& par1.vmas@[i].pages_tree == par0.vmas@[i].pages_tree
            &&& par1.vmas@[i].cow_write_reserve_pgs is Some
            &&& par1.vmas@[i].spec_in_vma(v)
            &&& child.vmas@[i].spec_in_vma(v)
            &&& child.vmas@[i].vm_flags == par0.vmas@[i].vm_flags
            &&& !child.vmas@[i].pages_tree.spec_contains(v)
            &&& child.pagetable.spec_covers(v.0)
            &&& par1.pagetable.spec_covers(v.0)
        }),
{
    let vma0 = par0.vmas@[i];
    let tree = vma0.pages_tree;
    let frame = tree.spec_page(v);
    let n = par0.vmas@.len() as int;
    tree.lemma_contains(v);
    let k = tree.spec_index(v);
    assert(tree@[k].vaddr == v && tree@[k].page == frame);
    assert(vma0.wf(&par0.pagetable, &mem0));
    assert(crate::mm::step::spec_frame_ok(frame, &par0.pagetable, &mem0));
    assert(mem0.wf());
    lemma_frame_place(&par0.pagetable, &mem0, frame);
    let p = mem0.spec_index(frame.vaddr.0 as int);
    // what the copy maps
    assert(spec_before(i, k, n, 0));
    assert(child.pagetable.spec_translate(&mem1, par0.vmas@[i].pages_tree@[k].vaddr.0) == Some(
        spec_share_entry(par0.vmas@[i], par0.vmas@[i].pages_tree@[k].page),
    ));
    mem0.buddy.lemma_wf();
    let paddr = (frame.vaddr.0 - PHY_MEM_OFFSET) as u64;
    assert(paddr % 4096 == 0 && paddr < 0x80_0000_0000);
    PTE::lemma_entry(0, PTE::spec_from(0), paddr, spec_vma_flags_2_pte_flags(crate::mm::cow::spec_read_only(vma0.vm_flags)) | 1u8);
    // what the address space itself maps
    assert(par1.pagetable.spec_translate(&mem1, par0.vmas@[i].pages_tree@[k].vaddr.0) == spec_demoted(
        par0.pagetable.spec_translate(&mem0, par0.vmas@[i].pages_tree@[k].vaddr.0),
        spec_share_flags(par0.vmas@[i].vm_flags),
    ));
    // the frame
    assert(mem0.spec_index(tree@[k].page.vaddr.0 as int) == p);
    assert(spec_tree_holds(tree, &mem0, p));
    assert(vma0.spec_holds_frame(&mem0, p));
    assert(par0.spec_area_holds(&mem0, p));
    assert(par1.spec_area_holds(&mem1, p));
    assert(mem1.buddy@.start == mem0.buddy@.start);
    let j1 = choose|j: int| 0 <= j < par1.vmas@.len() && (#[trigger] par1.vmas@[j]).spec_holds_frame(&mem1, p);
    assert(par1.vmas@[j1].wf(&par1.pagetable, &mem1));
    par1.vmas@[j1].lemma_held(&par1.pagetable, &mem1, p);
    assert(frame.vaddr.0 == mem1.buddy@.start + p * 4096);
    assert(mem1.wf());
    mem1.buddy.lemma_wf();
    assert(mem1.spec_is_frame(frame.vaddr.0 as int));
    assert(mem1.spec_index(frame.vaddr.0 as int) == p);
    assert forall|j: int| 0 <= j < 4096 implies #[trigger] mem1.ram.spec_byte(frame.vaddr.0 + j) == mem0.ram.spec_byte(
        frame.vaddr.0 + j,
    ) by {
        assert(mem1.ram.spec_byte(mem0.buddy@.start + p * 4096 + j) == mem0.ram.spec_byte(
            mem0.buddy@.start + p * 4096 + j,
        ));
    }
    assert(crate::mm::cow::spec_child_area(par0.vmas@[i], child.vmas@[i]));
    if child.vmas@[i].pages_tree.spec_contains(v) {
        child.vmas@[i].pages_tree.lemma_contains(v);
    }
    assert(par0.pagetable.spec_covers(v.0));
}


/// The parts of what a copy has brought about that the laws below start
/// from.
pub proof fn lemma_forked_parts(par0: MmStruct, mem0: MemoryManager, par1: MmStruct, child: MmStruct, mem1: MemoryManager)
    requires
        spec_forked(par0, mem0, par1, child, mem1),
    ensures
        par1.wf(&mem1),
        child.wf(&mem1),
        crate::mm::fault::spec_apart(&child, &par1, &mem1),
        crate::mm::fault::spec_apart(&par1, &child, &mem1),
        mem1.buddy@.start == mem0.buddy@.start,
        par1.vmas@.len() == par0.vmas@.len(),
        child.vmas@.len() == par0.vmas@.len(),
{
    lemma_apart_sym(&child, &par1, &mem1);
}

/// What a fault has left behind that gave the page `v` of the area at place
/// `i` the frame `page` of its own in place of the frame at `frame`, and a
/// store into the new frame after it: the page is mapped to the new frame
/// and may be written to.
pub proof fn lemma_parted_entry(a0: MmStruct, mem0: MemoryManager, a1: MmStruct, mem1: MemoryManager, i: int, v: Vaddr, page: Page, frame: Vaddr)
    requires
        a0.wf(&mem0),
        0 <= i < a0.vmas@.len(),
        a0.vmas@[i].spec_writeable(),
        a0.spec_parted(&mem0, &a1, &mem1, i, v, page, frame),
        spec_addressable(&mem0),
    ensures
        a1.pagetable.spec_translate(&mem1, v.0) matches Some(entry) && PHY_MEM_OFFSET + entry.spec_point_paddr()
            == page.vaddr.0 && entry.flags & PTE_W == PTE_W,
        forall|j: int| 0 <= j < 4096 ==> #[trigger] mem1.ram.spec_byte(page.vaddr.0 + j) == mem0.ram.spec_byte(frame.0 + j),
{
    mem0.buddy.lemma_wf();
    let paddr = (page.vaddr.0 - PHY_MEM_OFFSET) as u64;
    assert(mem0.spec_is_frame(page.vaddr.0 as int));
    assert(paddr % 4096 == 0 && paddr < 0x80_0000_0000);
    let flags = spec_vma_flags_2_pte_flags(a0.vmas@[i].vm_flags) | 1u8;
    PTE::lemma_entry(0, PTE::spec_from(0), paddr, flags);
    lemma_write_bit(a0.vmas@[i].vm_flags.bits);
}

/// A fault from a store in a copy, at a page that is mapped to a frame in
/// use and has no frame of its own, copies where the frames suffice.
pub proof fn lemma_child_fault_copies(
    child1: MmStruct,
    par1: MmStruct,
    mem1: MemoryManager,
    child2: MmStruct,
    mem2: MemoryManager,
    i: int,
    v: Vaddr,
    r: Result<FaultDone, FatalFault>,
    frame: Vaddr,
)
    requires
        child1.vmas@[i].spec_writeable(),
        !child1.vmas@[i].pages_tree.spec_contains(v),
        child1.pagetable.spec_translate(&mem1, v.0) matches Some(entry) && PHY_MEM_OFFSET + entry.spec_point_paddr()
            == frame.0,
        mem1.spec_frame_in_use(frame.0 as int),
        child1.spec_cow_fault_result(&par1, &mem1, &child2, &mem2, i, v, PgFaultProt::Write, r),
        spec_can_give(&child1.pagetable, &mem1, v),
    ensures
        r matches Ok(FaultDone::Copied(page)) && child1.spec_parted(&mem1, &child2, &mem2, i, v, page, frame),
{
    assert(child1.spec_allows(i, PgFaultProt::Write));
    assert(child1.spec_mapped_frame(&mem1, v) == frame.0);
    assert(Vaddr(child1.spec_mapped_frame(&mem1, v) as u64) == frame);
}

/// A fault from a store in an address space that was copied, at a page
/// with a frame in an area that keeps a reserve, copies where the frames
/// suffice.
pub proof fn lemma_parent_fault_copies(
    par1: MmStruct,
    mem1: MemoryManager,
    par2: MmStruct,
    mem2: MemoryManager,
    i: int,
    v: Vaddr,
    r: Result<FaultDone, FatalFault>,
)
    requires
        par1.vmas@[i].pages_tree.spec_contains(v),
        par1.vmas@[i].cow_write_reserve_pgs is Some,
        par1.spec_fault_result(&mem1, &par2, &mem2, i, v, PgFaultProt::Write, r),
        spec_can_give(&par1.pagetable, &mem1, v),
    ensures
        r matches Ok(FaultDone::Copied(page)) && par1.spec_parted(
            &mem1,
            &par2,
            &mem2,
            i,
            v,
            page,
            par1.vmas@[i].pages_tree.spec_page(v).vaddr,
        ),
{
    assert(par1.vmas@[i].spec_shared(v));
}

/// A store in a copy is not seen in the address space that it was made
/// from. Let `child` be a copy of the address space `par0`, made over
/// `mem0`, and `v` a page of an area that may be written to, which had the
/// frame `frame` and was mapped to it. Let the copy then take a fault from a
/// store at `v`, with enough free frames, and let a byte be stored into the
/// frame that the copy has got. Then the copy has a frame of its own,
/// another than `frame`, that held what `frame` held when the fault was
/// over and that may be written to; and the address space that was copied
/// still maps `v` to `frame`, which holds what it held before the copy.
#[verifier::rlimit(100)]
#[verifier::spinoff_prover]
pub proof fn lemma_copy_child_store(
    par0: MmStruct,
    mem0: MemoryManager,
    par1: MmStruct,
    child1: MmStruct,
    mem1: MemoryManager,
    child2: MmStruct,
    mem2: MemoryManager,
    mem3: MemoryManager,
    i: int,
    v: Vaddr,
    r: Result<FaultDone, FatalFault>,
    addr: int,
)
    requires
        par0.wf(&mem0),
        spec_addressable(&mem0),
        spec_forked(par0, mem0, par1, child1, mem1),
        0 <= i < par0.vmas@.len(),
        par0.vmas@[i].spec_writeable(),
        par0.vmas@[i].pages_tree.spec_contains(v),
        par0.pagetable.spec_translate(&mem0, v.0) matches Some(entry) && PHY_MEM_OFFSET + entry.spec_point_paddr()
            == par0.vmas@[i].pages_tree.spec_page(v).vaddr.0,
        // the fault in the copy
        child1.spec_cow_fault_result(&par1, &mem1, &child2, &mem2, i, v, PgFaultProt::Write, r),
        spec_can_give(&child1.pagetable, &mem1, v),
        // the store into the frame that the copy has got
        r matches Ok(FaultDone::Copied(page)) ==> page.vaddr.0 <= addr < page.vaddr.0 + 4096,
        mem3.wf(),
        mem3.buddy@ == mem2.buddy@,
        mem3.pages@ == mem2.pages@,
        mem2.ram.same_but(&mem3.ram, addr, 1),
    ensures
        r matches Ok(FaultDone::Copied(page)) && ({
            let frame = par0.vmas@[i].pages_tree.spec_page(v);
            &&& page.vaddr != frame.vaddr
            &&& child2.pagetable.spec_translate(&mem2, v.0) matches Some(entry) && PHY_MEM_OFFSET
                + entry.spec_point_paddr() == page.vaddr.0 && entry.flags & PTE_W == PTE_W
            &&& forall|j: int|
                0 <= j < 4096 ==> #[trigger] mem2.ram.spec_byte(page.vaddr.0 + j) == mem0.ram.spec_byte(frame.vaddr.0 + j)
            &&& par1.pagetable.spec_translate(&mem3, v.0) matches Some(entry) && PHY_MEM_OFFSET
                + entry.spec_point_paddr() == frame.vaddr.0
            &&& forall|j: int|
                0 <= j < 4096 ==> #[trigger] mem3.ram.spec_byte(frame.vaddr.0 + j) == mem0.ram.spec_byte(frame.vaddr.0 + j)
        }),
{
    let frame = par0.vmas@[i].pages_tree.spec_page(v);
    lemma_forked_page(par0, mem0, par1, child1, mem1, i, v);
    lemma_forked_parts(par0, mem0, par1, child1, mem1);
    lemma_child_fault_copies(child1, par1, mem1, child2, mem2, i, v, r, frame.vaddr);
    let page = match r {
        Ok(FaultDone::Copied(page)) => page,
        _ => arbitrary(),
    };
    lemma_cow_isolation(child1, child2, par1, mem1, mem2, mem3, i, v, page, frame.vaddr, addr, v.0, frame.vaddr.0 as int);
    lemma_parted_entry(child1, mem1, child2, mem2, i, v, page, frame.vaddr);
    assert forall|j: int| 0 <= j < 4096 implies #[trigger] mem2.ram.spec_byte(page.vaddr.0 + j) == mem0.ram.spec_byte(
        frame.vaddr.0 + j,
    ) by {
        assert(mem2.ram.spec_byte(page.vaddr.0 + j) == mem1.ram.spec_byte(frame.vaddr.0 + j));
        assert(mem1.ram.spec_byte(frame.vaddr.0 + j) == mem0.ram.spec_byte(frame.vaddr.0 + j));
    }
    assert forall|j: int| 0 <= j < 4096 implies #[trigger] mem3.ram.spec_byte(frame.vaddr.0 + j) == mem0.ram.spec_byte(
        frame.vaddr.0 + j,
    ) by {
        assert(mem3.ram.spec_byte(frame.vaddr.0 + j) == mem1.ram.spec_byte(frame.vaddr.0 + j));
        assert(mem1.ram.spec_byte(frame.vaddr.0 + j) == mem0.ram.spec_byte(frame.vaddr.0 + j));
    }
}

/// A store in an address space that was copied is not seen in the copy.
/// Let `child` be a copy of the address space `par0`, made over `mem0`, and
/// `v` a page of an area that may be written to, which had the frame
/// `frame` and was mapped to it. Let the address space then take a fault
/// from a store at `v`, with enough free frames, and let a byte be stored
/// into the frame that it has got. Then it has a new frame for the page,
/// another than `frame`, that may be written to; and the copy still maps `v`
/// to `frame`, which holds what it held before the copy.
#[verifier::rlimit(100)]
#[verifier::spinoff_prover]
pub proof fn lemma_copy_parent_store(
    par0: MmStruct,
    mem0: MemoryManager,
    par1: MmStruct,
    child: MmStruct,
    mem1: MemoryManager,
    par2: MmStruct,
    mem2: MemoryManager,
    mem3: MemoryManager,
    i: int,
    v: Vaddr,
    r: Result<FaultDone, FatalFault>,
    addr: int,
)
    requires
        par0.wf(&mem0),
        spec_addressable(&mem0),
        spec_forked(par0, mem0, par1, child, mem1),
        0 <= i < par0.vmas@.len(),
        par0.vmas@[i].spec_writeable(),
        par0.vmas@[i].pages_tree.spec_contains(v),
        par0.pagetable.spec_translate(&mem0, v.0) matches Some(entry) && PHY_MEM_OFFSET + entry.spec_point_paddr()
            == par0.vmas@[i].pages_tree.spec_page(v).vaddr.0,
        // the fault in the address space that was copied
        par1.spec_fault_result(&mem1, &par2, &mem2, i, v, PgFaultProt::Write, r),
        spec_can_give(&par1.pagetable, &mem1, v),
        // the store into the frame that it has got
        r matches Ok(FaultDone::Copied(page)) ==> page.vaddr.0 <= addr < page.vaddr.0 + 4096,
        mem3.wf(),
        mem3.buddy@ == mem2.buddy@,
        mem3.pages@ == mem2.pages@,
        mem2.ram.same_but(&mem3.ram, addr, 1),
    ensures
        r matches Ok(FaultDone::Copied(page)) && ({
            let frame = par0.vmas@[i].pages_tree.spec_page(v);
            &&& page.vaddr != frame.vaddr
            &&& par2.pagetable.spec_translate(&mem2, v.0) matches Some(entry) && PHY_MEM_OFFSET
                + entry.spec_point_paddr() == page.vaddr.0 && entry.flags & PTE_W == PTE_W
            &&& forall|j: int|
                0 <= j < 4096 ==> #[trigger] mem2.ram.spec_byte(page.vaddr.0 + j) == mem0.ram.spec_byte(frame.vaddr.0 + j)
            &&& child.pagetable.spec_translate(&mem3, v.0) matches Some(entry) && PHY_MEM_OFFSET
                + entry.spec_point_paddr() == frame.vaddr.0
            &&& forall|j: int|
                0 <= j < 4096 ==> #[trigger] mem3.ram.spec_byte(frame.vaddr.0 + j) == mem0.ram.spec_byte(frame.vaddr.0 + j)
        }),
{
    let frame = par0.vmas@[i].pages_tree.spec_page(v);
    lemma_forked_page(par0, mem0, par1, child, mem1, i, v);
    lemma_forked_parts(par0, mem0, par1, child, mem1);
    lemma_parent_fault_copies(par1, mem1, par2, mem2, i, v, r);
    let page = match r {
        Ok(FaultDone::Copied(page)) => page,
        _ => arbitrary(),
    };
    lemma_cow_isolation(par1, par2, child, mem1, mem2, mem3, i, v, page, frame.vaddr, addr, v.0, frame.vaddr.0 as int);
    lemma_parted_entry(par1, mem1, par2, mem2, i, v, page, frame.vaddr);
    assert forall|j: int| 0 <= j < 4096 implies #[trigger] mem2.ram.spec_byte(page.vaddr.0 + j) == mem0.ram.spec_byte(
        frame.vaddr.0 + j,
    ) by {
        assert(mem2.ram.spec_byte(page.vaddr.0 + j) == mem1.ram.spec_byte(frame.vaddr.0 + j));
        assert(mem1.ram.spec_byte(frame.vaddr.0 + j) == mem0.ram.spec_byte(frame.vaddr.0 + j));
    }
    assert forall|j: int| 0 <= j < 4096 implies #[trigger] mem3.ram.spec_byte(frame.vaddr.0 + j) == mem0.ram.spec_byte(
        frame.vaddr.0 + j,
    ) by {
        assert(mem3.ram.spec_byte(frame.vaddr.0 + j) == mem1.ram.spec_byte(frame.vaddr.0 + j));
        assert(mem1.ram.spec_byte(frame.vaddr.0 + j) == mem0.ram.spec_byte(frame.vaddr.0 + j));
    }
}

} // verus!
