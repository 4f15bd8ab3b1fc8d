use kernel::consts::PHY_MEM_OFFSET;
use kernel::mm::addr::{Paddr, Vaddr};
use kernel::mm::pagetable::PageTable;
use kernel::mm::pte::{PTE, PTE_R, PTE_U, PTE_V, PTE_W};
use kernel::mm::{alloc_one_page, alloc_pages, free_pages, MemoryManager};

fn memory(pages: u64) -> MemoryManager {
    let start = PHY_MEM_OFFSET + 0x8000_0000;
    MemoryManager::new(Vaddr(start), Vaddr(start + pages * 4096))
}

#[test]
fn pte_round_trip() {
    let mut e = PTE::default();
    e.set_ppn_by_paddr(0x8020_3000);
    e.set_flags(PTE_V | PTE_R | PTE_W);
    assert_eq!(e.get_point_paddr(), 0x8020_3000);
    assert!(e.vaild());
    assert!(e.is_leaf());
    let w = e.into();
    assert_eq!(w, ((0x8020_3000u64 >> 12) << 10) | 7);
    let back = PTE::from(w);
    assert_eq!(back.get_point_paddr(), 0x8020_3000);
    assert_eq!(back.flags, 7);
    let mut link = PTE::from(1);
    assert!(link.vaild());
    assert!(!link.is_leaf());
    link.clear_flags(PTE_V);
    assert!(!link.vaild());
}

#[test]
fn alloc_pages_zeroes_and_registers() {
    let mut mem = memory(64);
    let before = mem.buddy.get_free_pages_cnt();
    assert_eq!(mem.pages.get_in_memory_page_cnt(), 0);
    let pg = alloc_pages(&mut mem, 2).unwrap();
    assert_eq!(pg.get_block_page_cnt(), 4);
    assert_eq!(pg.get_order(), 2);
    assert!(pg.is_leader());
    assert_eq!(mem.buddy.get_free_pages_cnt(), before - 4);
    assert_eq!(mem.pages.get_in_memory_page_cnt(), 4);
    assert_eq!(pg.back().get_vaddr().0, pg.get_vaddr().0 + 3 * 4096);
    assert_eq!(pg.front().get_vaddr().0, pg.get_vaddr().0);
    free_pages(&mut mem, pg);
    assert_eq!(mem.buddy.get_free_pages_cnt(), before);
    assert_eq!(mem.pages.get_in_memory_page_cnt(), 0);
}

#[test]
fn alloc_pages_rejects_bad_order_and_exhaustion() {
    let mut mem = memory(2);
    assert!(alloc_pages(&mut mem, 11).is_none());
    assert!(alloc_pages(&mut mem, 2).is_none());
    let a = alloc_one_page(&mut mem).unwrap();
    let b = alloc_one_page(&mut mem).unwrap();
    assert!(a.get_vaddr().0 != b.get_vaddr().0);
    assert!(alloc_one_page(&mut mem).is_none());
}

#[test]
fn walk_alloc_is_idempotent() {
    let mut mem = memory(64);
    let mut pt = PageTable::new(&mut mem, 0, 1).unwrap();
    assert!(pt.walk(&mem, 0x1234_5000).is_none());
    let free0 = mem.buddy.get_free_pages_cnt();
    let first = pt.walk_alloc(&mut mem, 0x1234_5000);
    assert_eq!(first.get_level(), 2);
    // two tables were made
    assert_eq!(mem.buddy.get_free_pages_cnt(), free0 - 2);
    let second = pt.walk_alloc(&mut mem, 0x1234_5000);
    assert_eq!(second.pte_addr, first.pte_addr);
    assert_eq!(mem.buddy.get_free_pages_cnt(), free0 - 2);
    assert_eq!(pt.walk(&mem, 0x1234_5000).map(|r| r.pte_addr), Some(first.pte_addr));
    // a neighbour page shares both tables
    let next = pt.walk_alloc(&mut mem, 0x1234_6000);
    assert_eq!(next.pte_addr, first.pte_addr + 8);
    assert_eq!(mem.buddy.get_free_pages_cnt(), free0 - 2);
}

#[test]
fn map_and_unmap_one_page() {
    let mut mem = memory(64);
    let mut pt = PageTable::new(&mut mem, 0, 1).unwrap();
    let frame = alloc_one_page(&mut mem).unwrap();
    let va = Vaddr(0x40_0000);
    assert!(pt.is_not_mapped(&mut mem, va));
    assert_eq!(pt.map_one_page(&mut mem, va, frame.get_paddr(), PTE_R | PTE_W | PTE_U), Ok(()));
    assert!(!pt.is_not_mapped(&mut mem, va));
    // no implicit overwrite
    assert_eq!(pt.map_one_page(&mut mem, va, frame.get_paddr(), PTE_R), Err(-1));
    let leaf = pt.walk(&mem, va.0).unwrap().get_pte(&mem.ram);
    assert_eq!(leaf.get_point_paddr(), frame.get_paddr().0);
    assert_eq!(leaf.flags, PTE_V | PTE_R | PTE_W | PTE_U);
    assert_eq!(pt.get_kvaddr_by_uvaddr(&mem, Vaddr(0x40_0123)).map(|v| v.0), Some(frame.get_vaddr().0 + 0x123));
    assert_eq!(pt._unmap_one_page(&mut mem, va).map(|p| p.0), Ok(frame.get_paddr().0));
    assert!(pt.is_not_mapped(&mut mem, va));
    assert_eq!(pt.map_one_page(&mut mem, va, frame.get_paddr(), PTE_R), Ok(()));
}

#[test]
fn map_pages_fails_if_any_page_is_mapped() {
    let mut mem = memory(128);
    let mut pt = PageTable::new(&mut mem, 0, 1).unwrap();
    let block = alloc_pages(&mut mem, 2).unwrap();
    let va = Vaddr(0x80_0000);
    assert_eq!(pt.map_one_page(&mut mem, Vaddr(0x80_2000), Paddr(0x8000_0000), PTE_R), Ok(()));
    assert_eq!(pt.map_pages(&mut mem, va, block.get_paddr(), 2, PTE_R | PTE_W), Err(-1));
    assert!(pt.is_not_mapped(&mut mem, va));
    assert_eq!(pt._unmap_one_page(&mut mem, Vaddr(0x80_2000)).map(|p| p.0), Ok(0x8000_0000));
    assert!(pt.is_not_mapped_order(&mut mem, va, 2));
    assert_eq!(pt.map_pages(&mut mem, va, block.get_paddr(), 2, PTE_R | PTE_W), Ok(()));
    assert!(!pt.is_not_mapped_order(&mut mem, va, 2));
    for k in 0..4u64 {
        let leaf = pt.walk(&mem, va.0 + k * 4096).unwrap().get_pte(&mem.ram);
        assert_eq!(leaf.get_point_paddr(), block.get_paddr().0 + k * 4096);
        assert_eq!(leaf.flags, PTE_V | PTE_R | PTE_W);
    }
    assert_eq!(pt.unmap_pages(&mut mem, va, 2).map(|p| p.0), Ok(block.get_paddr().0));
    assert!(pt.is_not_mapped_order(&mut mem, va, 2));
}

#[test]
fn user_page_table_copies_the_kernel_root() {
    let mut mem = memory(128);
    let mut kernel = PageTable::new(&mut mem, 280, 284).unwrap();
    // a kernel mapping in the region of temporary mappings
    let kva = Vaddr(0xffff_ffc6_0000_0000);
    assert!(kernel.covers(kva.0));
    assert_eq!(kernel.map_one_page(&mut mem, kva, Paddr(0x8000_5000), PTE_R | PTE_W), Ok(()));
    let user = PageTable::new_user(&kernel, &mut mem, 0, 1).unwrap();
    let kroot = kernel._get_root_page_vaddr().0;
    let uroot = user._get_root_page_vaddr().0;
    assert!(kroot != uroot);
    for i in 0..512u64 {
        assert_eq!(mem.ram.read_u64(Vaddr(uroot + i * 8)), mem.ram.read_u64(Vaddr(kroot + i * 8)));
    }
    assert!(mem.ram.read_u64(Vaddr(uroot + 280 * 8)) != 0);
    assert!(user.walk(&mem, 0x1000).is_none());
}

#[test]
fn a_page_that_is_not_mapped_cannot_be_unmapped() {
    let mut mem = memory(64);
    let mut pt = PageTable::new(&mut mem, 0, 1).unwrap();
    let free = mem.buddy.get_free_pages_cnt();
    let va = Vaddr(0x40_0000);
    // no table on the way: nothing to unmap, and no table is made
    assert_eq!(pt._unmap_one_page(&mut mem, va).map(|p| p.0), Err(-1));
    assert_eq!(pt.unmap_pages(&mut mem, va, 0).map(|p| p.0), Err(-1));
    assert_eq!(pt.get_kvaddr_by_uvaddr(&mem, va), None);
    assert_eq!(mem.buddy.get_free_pages_cnt(), free);
    let frame = alloc_pages(&mut mem, 1).unwrap();
    assert_eq!(pt.map_one_page(&mut mem, va, frame.get_paddr(), PTE_R), Ok(()));
    // the second page of the block is not mapped: nothing is unmapped
    assert_eq!(pt.unmap_pages(&mut mem, va, 1).map(|p| p.0), Err(-1));
    assert!(pt.get_kvaddr_by_uvaddr(&mem, va).is_some());
    // its tables are there, its entry is not in use
    assert_eq!(pt.get_kvaddr_by_uvaddr(&mem, Vaddr(0x40_1000)), None);
    assert_eq!(pt._unmap_one_page(&mut mem, Vaddr(0x40_1000)).map(|p| p.0), Err(-1));
    assert_eq!(pt._unmap_one_page(&mut mem, va).map(|p| p.0), Ok(frame.get_paddr().0));
    assert_eq!(pt._unmap_one_page(&mut mem, va).map(|p| p.0), Err(-1));
}

#[test]
fn whether_pages_are_mapped_is_seen_without_a_free_frame() {
    let mut mem = memory(3);
    let mut pt = PageTable::new(&mut mem, 0, 1).unwrap();
    let frame = alloc_one_page(&mut mem).unwrap();
    let other = alloc_one_page(&mut mem).unwrap();
    assert_eq!(mem.buddy.get_free_pages_cnt(), 0);
    assert!(pt.is_not_mapped_order(&mut mem, Vaddr(0x40_0000), 3));
    assert!(frame.get_vaddr() != other.get_vaddr());
    assert_eq!(mem.buddy.get_free_pages_cnt(), 0);
}

#[test]
fn freeing_adds_what_allocating_took() {
    let mut mem = memory(37);
    assert_eq!(mem.buddy.get_free_pages_cnt(), 37);
    let a = alloc_pages(&mut mem, 3).unwrap();
    assert_eq!(mem.buddy.get_free_pages_cnt(), 29);
    let b = alloc_pages(&mut mem, 0).unwrap();
    assert_eq!(mem.buddy.get_free_pages_cnt(), 28);
    free_pages(&mut mem, a);
    assert_eq!(mem.buddy.get_free_pages_cnt(), 36);
    free_pages(&mut mem, b);
    assert_eq!(mem.buddy.get_free_pages_cnt(), 37);
}
