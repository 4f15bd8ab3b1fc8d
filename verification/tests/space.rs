use kernel::consts::PHY_MEM_OFFSET;
use kernel::mm::addr::Vaddr;
use kernel::mm::cow::new_mm_by_old;
use kernel::mm::fault::{FatalFault, FaultDone};
use kernel::mm::mm::MmStruct;
use kernel::mm::pagetable::PageTable;
use kernel::mm::vma::{
    fill_page, MmapFlags, MmapProt, VmFlags, MAP_ANONYMOUS, MAP_PRIVATE, PROT_READ, PROT_WRITE, VMA, VM_ANON, VM_READ,
    VM_USER, VM_WRITE,
};
use kernel::mm::MemoryManager;
use kernel::trap::PgFaultProt;

fn memory(pages: u64) -> MemoryManager {
    let start = PHY_MEM_OFFSET + 0x8000_0000;
    MemoryManager::new(Vaddr(start), Vaddr(start + pages * 4096))
}

fn user_space(mem: &mut MemoryManager) -> (PageTable, MmStruct) {
    let kernel = PageTable::new(mem, 256, 512).unwrap();
    let user = PageTable::new_user(&kernel, mem, 0, 1).unwrap();
    (kernel, MmStruct::new_empty_user_mm_by_pagetable(user))
}

fn rw() -> MmapProt {
    MmapProt { bits: PROT_READ | PROT_WRITE }
}

fn anon() -> MmapFlags {
    MmapFlags { bits: MAP_PRIVATE | MAP_ANONYMOUS }
}

fn load(mm: &MmStruct, mem: &MemoryManager, va: u64) -> Option<u8> {
    if !mm._page_mapped(mem, Vaddr(va & !0xfff)) {
        return None;
    }
    mm.pagetable.get_kvaddr_by_uvaddr(mem, Vaddr(va)).map(|k| mem.ram.read_u8(k))
}

fn store(mm: &MmStruct, mem: &mut MemoryManager, va: u64, b: u8) {
    assert!(mm._page_mapped(mem, Vaddr(va & !0xfff)));
    let k = mm.pagetable.get_kvaddr_by_uvaddr(mem, Vaddr(va)).unwrap();
    mem.ram.write_u8(k, b);
}

#[test]
fn an_anonymous_page_gets_one_frame_when_it_is_first_read() {
    let mut mem = memory(64);
    let (_kernel, mut mm) = user_space(&mut mem);
    let at = mm.map_anonymous(Some(Vaddr(0x10_0000)), 2 * 4096, rw(), anon()).unwrap();
    assert_eq!(at.0, 0x10_0000);
    assert_eq!(mm.vma_count(), 1);
    let in_use = mem.pages.get_in_memory_page_cnt();
    let free = mem.buddy.get_free_pages_cnt();
    assert_eq!(load(&mm, &mem, 0x10_1000), None);
    let done = mm.handle_fault(&mut mem, Vaddr(0x10_1000), PgFaultProt::Read);
    match done {
        Ok(FaultDone::Populated(ff)) => {
            assert!(ff.fill.is_none());
            assert!(!ff.flush_icache);
        },
        _ => panic!("the fault was not resolved"),
    }
    // one frame for the page, two for the tables on its way
    assert_eq!(mm.vmas[0].pages_tree.len(), 1);
    assert_eq!(mem.pages.get_in_memory_page_cnt(), in_use + 3);
    assert_eq!(mem.buddy.get_free_pages_cnt(), free - 3);
    assert_eq!(load(&mm, &mem, 0x10_1000), Some(0));
    assert_eq!(load(&mm, &mem, 0x10_1fff), Some(0));
    // the first page has no frame yet
    assert_eq!(load(&mm, &mem, 0x10_0000), None);
    // the page is mapped now: another fault on it is a violation and changes nothing
    assert!(matches!(mm.handle_fault(&mut mem, Vaddr(0x10_1008), PgFaultProt::Read), Err(FatalFault::Protection)));
    assert_eq!(mm.vmas[0].pages_tree.len(), 1);
    assert_eq!(mem.pages.get_in_memory_page_cnt(), in_use + 3);
}

#[test]
fn a_page_of_a_short_file_is_filled_and_padded_with_zeros() {
    let mut mem = memory(64);
    let (_kernel, mut mm) = user_space(&mut mem);
    let at = mm
        .map_file(Some(Vaddr(0x20_0000)), 4096, 7, 0, 10, MmapProt { bits: PROT_READ }, MmapFlags { bits: MAP_PRIVATE })
        .unwrap();
    assert_eq!(at.0, 0x20_0000);
    let done = mm.handle_fault(&mut mem, Vaddr(0x20_0000 + 4095), PgFaultProt::Read);
    let ff = match done {
        Ok(FaultDone::Populated(ff)) => ff,
        _ => panic!("the fault was not resolved"),
    };
    let fill = ff.fill.expect("a part of the file lies on the page");
    assert_eq!(fill.file, 7);
    assert_eq!(fill.file_off, 0);
    assert_eq!(fill.len, 10);
    assert_eq!(fill.dest.0, ff.page.get_vaddr().0);
    let data: Vec<u8> = vec![0x41, 2, 3, 4, 5, 6, 7, 8, 9, 10];
    fill_page(&mut mem, &fill, &data);
    assert_eq!(load(&mm, &mem, 0x20_0000), Some(0x41));
    assert_eq!(load(&mm, &mem, 0x20_0009), Some(10));
    assert_eq!(load(&mm, &mem, 0x20_000a), Some(0));
    assert_eq!(load(&mm, &mem, 0x20_0000 + 4095), Some(0));
}

#[test]
fn the_heap_does_not_grow_into_the_next_area() {
    let mut mem = memory(64);
    let (_kernel, mut mm) = user_space(&mut mem);
    let flags = VmFlags { bits: VM_READ | VM_WRITE | VM_USER | VM_ANON };
    mm.start_brk = Vaddr(0x30_0000);
    mm.brk = Vaddr(0x30_1000);
    mm._insert_no_check(VMA::new_anon(Vaddr(0x30_0000), Vaddr(0x30_1000), flags));
    mm._insert_no_check(VMA::new_anon(Vaddr(0x30_3000), Vaddr(0x30_4000), flags));
    assert_eq!(mm._expand_brk(Vaddr(0x30_3001)), Err(()));
    assert_eq!(mm.get_brk().0, 0x30_1000);
    assert_eq!(mm.vma_count(), 2);
    assert_eq!(mm.vmas[0].get_end_vaddr().0, 0x30_1000);
    assert_eq!(mm.vmas[1].get_start_vaddr().0, 0x30_3000);
    assert_eq!(mm._expand_brk(Vaddr(0x30_3000)), Ok(()));
    assert_eq!(mm.get_brk().0, 0x30_3000);
    assert_eq!(mm.vmas[0].get_end_vaddr().0, 0x30_3000);
}

#[test]
fn faults_that_cannot_be_resolved_say_why() {
    let mut mem = memory(4);
    let (_kernel, mut mm) = user_space(&mut mem);
    mm.map_anonymous(Some(Vaddr(0x10_0000)), 4096, rw(), anon()).unwrap();
    assert!(matches!(mm.handle_fault(&mut mem, Vaddr(0x50_0000), PgFaultProt::Read), Err(FatalFault::BadAddress)));
    // two frames are left, three are needed
    assert_eq!(mem.buddy.get_free_pages_cnt(), 2);
    assert!(matches!(mm.handle_fault(&mut mem, Vaddr(0x10_0000), PgFaultProt::Write), Err(FatalFault::OutOfMemory)));
    assert_eq!(mem.buddy.get_free_pages_cnt(), 2);
    assert_eq!(mm.vmas[0].pages_tree.len(), 0);
}

fn forked(mem: &mut MemoryManager) -> (PageTable, MmStruct, MmStruct) {
    let (kernel, mut parent) = user_space(mem);
    parent.map_anonymous(Some(Vaddr(0x10_0000)), 4096, rw(), anon()).unwrap();
    assert!(parent.handle_fault(mem, Vaddr(0x10_0000), PgFaultProt::Write).is_ok());
    store(&parent, mem, 0x10_0010, 0x5a);
    let child = new_mm_by_old(&mut parent, &kernel, mem).expect("enough frames are free");
    (kernel, parent, child)
}

#[test]
fn a_copy_shares_the_frames_without_the_right_to_write() {
    let mut mem = memory(64);
    let in_use_before = mem.pages.get_in_memory_page_cnt();
    let (_kernel, parent, child) = forked(&mut mem);
    assert_eq!(child.vma_count(), 1);
    assert_eq!(child.vmas[0].get_start_vaddr().0, 0x10_0000);
    assert_eq!(child.vmas[0].get_end_vaddr().0, 0x10_1000);
    assert_eq!(child.vmas[0].pages_tree.len(), 0);
    assert!(child.vmas[0].cow_write_reserve_pgs.is_none());
    assert_eq!(child.cow_target, Some(parent.pagetable._get_root_page_vaddr()));
    assert_eq!(parent.vmas[0].cow_write_reserve_pgs.as_ref().map(|t| t.len()), Some(0));
    let frame = parent.vmas[0].pages_tree.page_at(0).get_vaddr();
    assert_eq!(child.pagetable.get_kvaddr_by_uvaddr(&mem, Vaddr(0x10_0000)), Some(frame));
    assert_eq!(parent.pagetable.get_kvaddr_by_uvaddr(&mem, Vaddr(0x10_0000)), Some(frame));
    let pw = parent.pagetable.walk(&mem, 0x10_0000).unwrap().get_pte(&mem.ram);
    let cw = child.pagetable.walk(&mem, 0x10_0000).unwrap().get_pte(&mem.ram);
    assert_eq!(pw.flags & 0b100, 0);
    assert_eq!(cw.flags & 0b100, 0);
    assert_eq!(cw.flags & 0b11, 0b11);
    assert_eq!(load(&child, &mem, 0x10_0010), Some(0x5a));
    // kernel root and user root, two tables and one frame for the parent; root and two tables for the copy
    assert_eq!(mem.pages.get_in_memory_page_cnt(), in_use_before + 8);
}

#[test]
fn a_store_in_the_copy_does_not_reach_the_parent() {
    let mut mem = memory(64);
    let (_kernel, parent, mut child) = forked(&mut mem);
    let in_use = mem.pages.get_in_memory_page_cnt();
    let shared = parent.vmas[0].pages_tree.page_at(0).get_vaddr();
    let done = child.handle_cow_fault(&parent, &mut mem, Vaddr(0x10_0010), PgFaultProt::Write);
    let page = match done {
        Ok(FaultDone::Copied(page)) => page,
        _ => panic!("the fault was not resolved"),
    };
    assert!(page.get_vaddr() != shared);
    assert_eq!(mem.pages.get_in_memory_page_cnt(), in_use + 1);
    assert_eq!(child.vmas[0].pages_tree.len(), 1);
    assert_eq!(parent.vmas[0].pages_tree.len(), 1);
    assert_eq!(child.pagetable.get_kvaddr_by_uvaddr(&mem, Vaddr(0x10_0000)), Some(page.get_vaddr()));
    let cw = child.pagetable.walk(&mem, 0x10_0000).unwrap().get_pte(&mem.ram);
    assert_eq!(cw.flags & 0b100, 0b100);
    assert_eq!(load(&child, &mem, 0x10_0010), Some(0x5a));
    store(&child, &mut mem, 0x10_0010, 0xa5);
    assert_eq!(load(&child, &mem, 0x10_0010), Some(0xa5));
    assert_eq!(load(&parent, &mem, 0x10_0010), Some(0x5a));
    assert_eq!(parent.pagetable.get_kvaddr_by_uvaddr(&mem, Vaddr(0x10_0000)), Some(shared));
    // the page has a frame of its own now: another fault on it is a violation
    assert!(matches!(
        child.handle_cow_fault(&parent, &mut mem, Vaddr(0x10_0010), PgFaultProt::Write),
        Err(FatalFault::Protection)
    ));
}

#[test]
fn a_store_in_the_parent_does_not_reach_the_copy() {
    let mut mem = memory(64);
    let (_kernel, mut parent, mut child) = forked(&mut mem);
    let shared = parent.vmas[0].pages_tree.page_at(0).get_vaddr();
    // a load is no reason for a copy
    assert!(matches!(parent.handle_fault(&mut mem, Vaddr(0x10_0010), PgFaultProt::Read), Err(FatalFault::Protection)));
    let done = parent.handle_fault(&mut mem, Vaddr(0x10_0010), PgFaultProt::Write);
    let page = match done {
        Ok(FaultDone::Copied(page)) => page,
        _ => panic!("the fault was not resolved"),
    };
    assert!(page.get_vaddr() != shared);
    assert_eq!(parent.vmas[0].pages_tree.page_at(0).get_vaddr(), page.get_vaddr());
    let reserve = parent.vmas[0].cow_write_reserve_pgs.as_ref().unwrap();
    assert_eq!(reserve.len(), 1);
    assert_eq!(reserve.page_at(0).get_vaddr(), shared);
    store(&parent, &mut mem, 0x10_0010, 0x77);
    assert_eq!(load(&parent, &mem, 0x10_0010), Some(0x77));
    assert_eq!(load(&child, &mem, 0x10_0010), Some(0x5a));
    // the frame that the copy maps is kept for it
    assert_eq!(child.pagetable.get_kvaddr_by_uvaddr(&mem, Vaddr(0x10_0000)), Some(shared));
    // the copy still gets what was there when it was made
    assert!(child.handle_cow_fault(&parent, &mut mem, Vaddr(0x10_0010), PgFaultProt::Write).is_ok());
    assert_eq!(load(&child, &mem, 0x10_0010), Some(0x5a));
    store(&child, &mut mem, 0x10_0010, 0x11);
    assert_eq!(load(&parent, &mem, 0x10_0010), Some(0x77));
}

#[test]
fn a_copy_of_a_copy_is_refused() {
    let mut mem = memory(64);
    let (kernel, _parent, mut child) = forked(&mut mem);
    let free = mem.buddy.get_free_pages_cnt();
    assert!(new_mm_by_old(&mut child, &kernel, &mut mem).is_none());
    assert_eq!(mem.buddy.get_free_pages_cnt(), free);
}

#[test]
fn an_address_space_is_copied_again_after_it_has_written() {
    let mut mem = memory(64);
    let (kernel, mut parent, mut first) = forked(&mut mem);
    // the parent writes: it gets a frame of its own, the first copy keeps the old one
    assert!(parent.handle_fault(&mut mem, Vaddr(0x10_0010), PgFaultProt::Write).is_ok());
    store(&parent, &mut mem, 0x10_0010, 0x61);
    let mut second = new_mm_by_old(&mut parent, &kernel, &mut mem).expect("a second copy");
    assert_eq!(load(&first, &mem, 0x10_0010), Some(0x5a));
    assert_eq!(load(&second, &mem, 0x10_0010), Some(0x61));
    assert_eq!(load(&parent, &mem, 0x10_0010), Some(0x61));
    // the parent writes again, and so do both copies: each has its own
    assert!(parent.handle_fault(&mut mem, Vaddr(0x10_0010), PgFaultProt::Write).is_ok());
    store(&parent, &mut mem, 0x10_0010, 0x62);
    assert_eq!(load(&first, &mem, 0x10_0010), Some(0x5a));
    assert_eq!(load(&second, &mem, 0x10_0010), Some(0x61));
    assert!(first.handle_cow_fault(&parent, &mut mem, Vaddr(0x10_0010), PgFaultProt::Write).is_ok());
    assert!(second.handle_cow_fault(&parent, &mut mem, Vaddr(0x10_0010), PgFaultProt::Write).is_ok());
    assert_eq!(load(&first, &mem, 0x10_0010), Some(0x5a));
    assert_eq!(load(&second, &mem, 0x10_0010), Some(0x61));
    store(&first, &mut mem, 0x10_0010, 1);
    store(&second, &mut mem, 0x10_0010, 2);
    assert_eq!(load(&parent, &mem, 0x10_0010), Some(0x62));
    assert_eq!(load(&first, &mem, 0x10_0010), Some(1));
    assert_eq!(load(&second, &mem, 0x10_0010), Some(2));
}

#[test]
fn a_copy_fails_only_when_the_frames_run_out() {
    // the parent takes five frames; the copy needs three: a root and two tables
    let mut mem = memory(8);
    let (kernel, mut parent) = user_space(&mut mem);
    parent.map_anonymous(Some(Vaddr(0x10_0000)), 4096, rw(), anon()).unwrap();
    assert!(parent.handle_fault(&mut mem, Vaddr(0x10_0000), PgFaultProt::Write).is_ok());
    assert_eq!(mem.buddy.get_free_pages_cnt(), 3);
    let child = new_mm_by_old(&mut parent, &kernel, &mut mem).expect("three frames are enough");
    assert_eq!(mem.buddy.get_free_pages_cnt(), 0);
    assert_eq!(child.vma_count(), 1);
    // with one frame less the frames run out; the parent is left as it is
    let mut mem = memory(7);
    let (kernel, mut parent) = user_space(&mut mem);
    parent.map_anonymous(Some(Vaddr(0x10_0000)), 4096, rw(), anon()).unwrap();
    assert!(parent.handle_fault(&mut mem, Vaddr(0x10_0000), PgFaultProt::Write).is_ok());
    assert_eq!(mem.buddy.get_free_pages_cnt(), 2);
    assert!(new_mm_by_old(&mut parent, &kernel, &mut mem).is_none());
    assert!(mem.buddy.get_free_pages_cnt() < 2);
    assert!(parent.vmas[0].cow_write_reserve_pgs.is_none());
    let entry = parent.pagetable.walk(&mem, 0x10_0000).unwrap().get_pte(&mem.ram);
    assert_eq!(entry.flags & 0b100, 0b100);
}

fn with_heap(mem: &mut MemoryManager) -> MmStruct {
    let (_kernel, mut mm) = user_space(mem);
    let flags = VmFlags { bits: VM_READ | VM_WRITE | VM_USER | VM_ANON };
    mm.start_brk = Vaddr(0x30_0000);
    mm.brk = Vaddr(0x30_4000);
    mm._insert_no_check(VMA::new_anon(Vaddr(0x30_0000), Vaddr(0x30_4000), flags));
    mm._insert_no_check(VMA::new_anon(Vaddr(0x30_8000), Vaddr(0x30_9000), flags));
    mm
}

#[test]
fn a_heap_that_shrinks_lets_go_of_the_frames_above_its_end() {
    let mut mem = memory(64);
    let mut mm = with_heap(&mut mem);
    for k in 0..4u64 {
        assert!(mm.handle_fault(&mut mem, Vaddr(0x30_0000 + k * 4096), PgFaultProt::Write).is_ok());
    }
    store(&mm, &mut mem, 0x30_1004, 0x42);
    let free = mem.buddy.get_free_pages_cnt();
    assert_eq!(mm.brk(&mut mem, 0), Ok(0x30_4000));
    assert_eq!(mm.brk(&mut mem, 0x30_4000), Ok(0x30_4000));
    assert_eq!(mm.brk(&mut mem, 0x30_2000), Ok(0x30_2000));
    assert_eq!(mm.get_brk().0, 0x30_2000);
    assert_eq!(mm.vmas[0].get_end_vaddr().0, 0x30_2000);
    assert_eq!(mm.vmas[0].pages_tree.len(), 2);
    assert_eq!(mem.buddy.get_free_pages_cnt(), free + 2);
    assert_eq!(load(&mm, &mem, 0x30_1004), Some(0x42));
    assert_eq!(load(&mm, &mem, 0x30_2000), None);
    assert_eq!(load(&mm, &mem, 0x30_3000), None);
    assert!(matches!(mm.handle_fault(&mut mem, Vaddr(0x30_3000), PgFaultProt::Read), Err(FatalFault::BadAddress)));
}

#[test]
fn brk_refuses_what_the_heap_cannot_become() {
    let mut mem = memory(64);
    let mut mm = with_heap(&mut mem);
    // below the start of the heap
    assert_eq!(mm.brk(&mut mem, 0x2f_f000), Err(-1));
    // no start of a page
    assert_eq!(mm.brk(&mut mem, 0x30_2001), Err(-1));
    assert_eq!(mm.brk(&mut mem, 0x30_5001), Err(-1));
    // the whole heap cannot go
    assert_eq!(mm.brk(&mut mem, 0x30_0000), Err(-1));
    // into the next area
    assert_eq!(mm.brk(&mut mem, 0x30_9000), Err(-1));
    assert_eq!(mm.get_brk().0, 0x30_4000);
    assert_eq!(mm.vmas[0].get_end_vaddr().0, 0x30_4000);
    // up to the next area
    assert_eq!(mm.brk(&mut mem, 0x30_8000), Ok(0x30_8000));
    assert_eq!(mm.vmas[0].get_end_vaddr().0, 0x30_8000);
    assert!(mm.handle_fault(&mut mem, Vaddr(0x30_7ff8), PgFaultProt::Write).is_ok());
}

#[test]
fn an_area_is_split_with_its_frames() {
    let mut mem = memory(64);
    let mut mm = with_heap(&mut mem);
    for k in [0u64, 2, 3] {
        assert!(mm.handle_fault(&mut mem, Vaddr(0x30_0000 + k * 4096), PgFaultProt::Write).is_ok());
    }
    let kept = mm.vmas[0]._find_page(Vaddr(0x30_0000)).unwrap().get_vaddr();
    let moved = mm.vmas[0]._find_page(Vaddr(0x30_3000)).unwrap().get_vaddr();
    assert!(mm.vmas[0].split(Vaddr(0x30_0000)).is_none());
    assert!(mm.vmas[0].split(Vaddr(0x30_4000)).is_none());
    assert!(mm.vmas[0].split(Vaddr(0x30_2010)).is_none());
    let upper = mm.vmas[0].split(Vaddr(0x30_2000)).unwrap();
    assert_eq!((mm.vmas[0].get_start_vaddr().0, mm.vmas[0].get_end_vaddr().0), (0x30_0000, 0x30_2000));
    assert_eq!((upper.get_start_vaddr().0, upper.get_end_vaddr().0), (0x30_2000, 0x30_4000));
    assert_eq!(mm.vmas[0].pages_tree.len(), 1);
    assert_eq!(upper.pages_tree.len(), 2);
    assert_eq!(mm.vmas[0]._find_page(Vaddr(0x30_0000)).unwrap().get_vaddr(), kept);
    assert_eq!(upper._find_page(Vaddr(0x30_3000)).unwrap().get_vaddr(), moved);
    assert!(upper._find_page(Vaddr(0x30_0000)).is_none());
    assert_eq!(upper.get_flags().bits, mm.vmas[0].get_flags().bits);
}

#[test]
fn a_frame_is_mapped_into_an_area_and_taken_out_again() {
    let mut mem = memory(64);
    let mut mm = with_heap(&mut mem);
    let frame = kernel::mm::alloc_one_page(&mut mem).unwrap();
    let at = frame.get_vaddr();
    mem.ram.write_u8(Vaddr(at.0 + 5), 0x33);
    let block = kernel::mm::alloc_pages(&mut mem, 1).unwrap();
    let MmStruct { pagetable, vmas, .. } = &mut mm;
    let heap = &mut vmas[0];
    assert_eq!(heap._anon_map_one_page(pagetable, &mut mem, block, Vaddr(0x30_1000)), Err(()));
    assert_eq!(heap._anon_map_one_page(pagetable, &mut mem, frame, Vaddr(0x30_1000)), Ok(()));
    assert_eq!(heap.phy_pgs_cnt, 1);
    assert_eq!(pagetable.get_kvaddr_by_uvaddr(&mem, Vaddr(0x30_1005)), Some(Vaddr(at.0 + 5)));
    let other = kernel::mm::alloc_one_page(&mut mem).unwrap();
    assert_eq!(heap._anon_map_one_page(pagetable, &mut mem, other, Vaddr(0x30_1000)), Err(()));
    assert!(heap._anon_unmap_pages(pagetable, &mut mem, Vaddr(0x30_2000)).is_none());
    let back = heap._anon_unmap_pages(pagetable, &mut mem, Vaddr(0x30_1000)).unwrap();
    assert_eq!(back.get_vaddr(), at);
    assert_eq!(mem.ram.read_u8(Vaddr(at.0 + 5)), 0x33);
    assert_eq!(heap.pages_tree.len(), 0);
    assert!(!mm._page_mapped(&mem, Vaddr(0x30_1000)));
}

#[test]
fn an_address_space_that_ends_gives_its_frames_back() {
    let mut mem = memory(64);
    let mut mm = with_heap(&mut mem);
    let free = mem.buddy.get_free_pages_cnt();
    for k in 0..3u64 {
        assert!(mm.handle_fault(&mut mem, Vaddr(0x30_0000 + k * 4096), PgFaultProt::Write).is_ok());
    }
    assert!(mm.handle_fault(&mut mem, Vaddr(0x30_8000), PgFaultProt::Read).is_ok());
    // four frames and two tables
    assert_eq!(mem.buddy.get_free_pages_cnt(), free - 6);
    let back = mm._release_all(&mut mem);
    assert!(back.is_empty());
    assert_eq!(mm.vma_count(), 2);
    assert_eq!(mm.vmas[0].pages_tree.len(), 0);
    assert_eq!(mm.vmas[1].pages_tree.len(), 0);
    assert_eq!(load(&mm, &mem, 0x30_0000), None);
    assert_eq!(load(&mm, &mem, 0x30_8000), None);
    // the tables stay with the page table
    assert_eq!(mem.buddy.get_free_pages_cnt(), free - 2);
}

#[test]
fn what_was_written_to_a_file_goes_back_when_the_area_ends() {
    let mut mem = memory(64);
    let (_kernel, mut mm) = user_space(&mut mem);
    let at = mm
        .map_file(Some(Vaddr(0x20_0000)), 2 * 4096, 7, 0x100, 4096 + 6, rw(), MmapFlags { bits: MAP_PRIVATE })
        .unwrap();
    assert_eq!(at.0, 0x20_0000);
    let free = mem.buddy.get_free_pages_cnt();
    for page in [0x20_0000u64, 0x20_1000] {
        match mm.handle_fault(&mut mem, Vaddr(page), PgFaultProt::Write) {
            Ok(FaultDone::Populated(ff)) => {
                let fill = ff.fill.expect("the file lies behind the page");
                let data = vec![0x30u8; fill.len as usize];
                fill_page(&mut mem, &fill, &data);
            },
            _ => panic!("the fault was not resolved"),
        }
    }
    store(&mm, &mut mem, 0x20_0002, 0x41);
    store(&mm, &mut mem, 0x20_1005, 0x42);
    let mut back = mm._release_all(&mut mem);
    back.sort_by_key(|request| request.file_off);
    assert_eq!(back.len(), 2);
    assert_eq!((back[0].file, back[0].file_off, back[0].data.len()), (7, 0x100, 4096));
    assert_eq!(back[0].data[2], 0x41);
    assert_eq!(back[0].data[3], 0x30);
    assert_eq!((back[1].file, back[1].file_off), (7, 0x100 + 4096));
    assert_eq!(back[1].data, vec![0x30, 0x30, 0x30, 0x30, 0x30, 0x42]);
    // the frames are free again; the two tables stay
    assert_eq!(mem.buddy.get_free_pages_cnt(), free - 2);
}

#[test]
fn the_heap_of_an_address_space_that_was_copied_shrinks() {
    let mut mem = memory(64);
    let mut mm = with_heap(&mut mem);
    let kernel = PageTable::new(&mut mem, 256, 512).unwrap();
    for k in 0..4u64 {
        assert!(mm.handle_fault(&mut mem, Vaddr(0x30_0000 + k * 4096), PgFaultProt::Write).is_ok());
    }
    store(&mm, &mut mem, 0x30_3000, 0x55);
    let child = new_mm_by_old(&mut mm, &kernel, &mut mem).expect("enough frames are free");
    // the parent writes to a page above the new end: its old frame goes to the reserve
    assert!(mm.handle_fault(&mut mem, Vaddr(0x30_3000), PgFaultProt::Write).is_ok());
    assert_eq!(mm.brk(&mut mem, 0x30_2000), Ok(0x30_2000));
    assert_eq!(mm.vmas[0].get_end_vaddr().0, 0x30_2000);
    assert_eq!(mm.vmas[0].pages_tree.len(), 2);
    assert_eq!(mm.vmas[0].cow_write_reserve_pgs.as_ref().map(|t| t.len()), Some(0));
    assert_eq!(load(&mm, &mem, 0x30_3000), None);
    // the copy still sees what was there when it was made
    assert_eq!(load(&child, &mem, 0x30_3000), Some(0x55));
}
