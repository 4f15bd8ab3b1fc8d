use kernel::consts::{KMAP_START, MMAP_TOP, PHY_MEM_OFFSET, USER_SPACE_END, USER_SPACE_START};
use kernel::mm::addr::Vaddr;
use kernel::mm::kmap::KmapToken;
use kernel::mm::mm::MmStruct;
use kernel::mm::page::PageInterator;
use kernel::mm::pagetable::PageTable;
use kernel::mm::vma::{
    MmapFlags, MmapProt, VmFlags, MAP_ANONYMOUS, MAP_PRIVATE, PROT_EXEC, PROT_READ, PROT_WRITE, VMA, VM_ANON, VM_EXEC,
    VM_READ, VM_USER, VM_WRITE,
};
use kernel::mm::MemoryManager;

fn memory(pages: u64) -> MemoryManager {
    let start = PHY_MEM_OFFSET + 0x8000_0000;
    MemoryManager::new(Vaddr(start), Vaddr(start + pages * 4096))
}

fn space(mem: &mut MemoryManager) -> MmStruct {
    let kernel = PageTable::new(mem, 256, 512).unwrap();
    MmStruct::new_empty_user_mm(&kernel, mem, 0, 1).unwrap()
}

fn area(start: u64, end: u64) -> VMA {
    VMA::new_anon(Vaddr(start), Vaddr(end), VmFlags { bits: VM_READ | VM_USER | VM_ANON })
}

fn ranges(mm: &MmStruct) -> Vec<(u64, u64)> {
    (0..mm.vma_count()).map(|i| (mm.vma_at(i).get_start_vaddr().0, mm.vma_at(i).get_end_vaddr().0)).collect()
}

#[test]
fn areas_stand_in_the_order_of_their_addresses() {
    let mut mem = memory(16);
    let mut mm = space(&mut mem);
    mm._insert_no_check(area(0x5000, 0x6000));
    mm._insert_no_check(area(0x1000, 0x3000));
    mm._insert_no_check(area(0x3000, 0x4000));
    assert_eq!(ranges(&mm), vec![(0x1000, 0x3000), (0x3000, 0x4000), (0x5000, 0x6000)]);
    assert_eq!(mm.find_vma(Vaddr(0x2fff)), Some(0));
    assert_eq!(mm.find_vma(Vaddr(0x3000)), Some(1));
    assert_eq!(mm.find_vma(Vaddr(0x4000)), None);
    assert_eq!(mm.find_vma(Vaddr(0x6000)), None);
    assert_eq!(mm.find_vma_intersection(Vaddr(0x1800), Vaddr(0x2000)), Some(0));
    assert_eq!(mm.find_vma_intersection(Vaddr(0x800), Vaddr(0x2000)), None);
    assert_eq!(mm.find_vma_intersection(Vaddr(0x1000), Vaddr(0x4800)), None);
    // no two areas overlap
    let all = ranges(&mm);
    for i in 0..all.len() {
        for j in 0..all.len() {
            if i != j {
                assert!(all[i].1 <= all[j].0 || all[j].1 <= all[i].0);
            }
        }
    }
    let gone = mm.drop_vma(Vaddr(0x3000)).unwrap();
    assert_eq!((gone.get_start_vaddr().0, gone.get_end_vaddr().0), (0x3000, 0x4000));
    assert!(mm.drop_vma(Vaddr(0x3000)).is_none());
    assert!(mm.drop_vma(Vaddr(0x1800)).is_none());
    assert_eq!(ranges(&mm), vec![(0x1000, 0x3000), (0x5000, 0x6000)]);
}

#[test]
fn a_search_upwards_finds_the_lowest_gap_that_fits() {
    let mut mem = memory(16);
    let mut mm = space(&mut mem);
    mm._insert_no_check(area(0x0, 0x2000));
    mm._insert_no_check(area(0x3000, 0x5000));
    mm._insert_no_check(area(0x8000, 0x9000));
    let lo = Vaddr(USER_SPACE_START);
    let hi = Vaddr(USER_SPACE_END);
    let one = mm.__alloc_unmapped_core(None, 0x1000, true, lo, hi).unwrap();
    assert_eq!((one.get_start_vaddr().0, one.get_end_vaddr().0), (0x2000, 0x3000));
    let two = mm.__alloc_unmapped_core(None, 0x2000, true, lo, hi).unwrap();
    assert_eq!((two.get_start_vaddr().0, two.get_end_vaddr().0), (0x5000, 0x7000));
    let four = mm.__alloc_unmapped_core(None, 0x4000, true, lo, hi).unwrap();
    assert_eq!(four.get_start_vaddr().0, 0x9000);
    // the search puts nothing among the areas
    assert_eq!(mm.vma_count(), 3);
    assert_eq!(one.get_flags().bits, 0);
    assert!(one.get_file_inode().is_none());
}

#[test]
fn a_search_downwards_finds_the_highest_gap_that_fits() {
    let mut mem = memory(16);
    let mut mm = space(&mut mem);
    mm._insert_no_check(area(MMAP_TOP - 0x1000, MMAP_TOP));
    mm._insert_no_check(area(MMAP_TOP - 0x4000, MMAP_TOP - 0x3000));
    let lo = Vaddr(USER_SPACE_START);
    let hi = Vaddr(MMAP_TOP);
    let two = mm.__alloc_unmapped_core(None, 0x2000, false, lo, hi).unwrap();
    assert_eq!((two.get_start_vaddr().0, two.get_end_vaddr().0), (MMAP_TOP - 0x3000, MMAP_TOP - 0x1000));
    let three = mm.__alloc_unmapped_core(None, 0x3000, false, lo, hi).unwrap();
    assert_eq!(three.get_end_vaddr().0, MMAP_TOP - 0x4000);
}

#[test]
fn a_search_with_a_hint_takes_the_hint_or_nothing() {
    let mut mem = memory(16);
    let mut mm = space(&mut mem);
    mm._insert_no_check(area(0x3000, 0x4000));
    mm._insert_no_check(area(0x5000, 0x6000));
    let lo = Vaddr(USER_SPACE_START);
    let hi = Vaddr(USER_SPACE_END);
    let at = mm.__alloc_unmapped_core(Some(Vaddr(0x1000)), 0x2000, true, lo, hi).unwrap();
    assert_eq!((at.get_start_vaddr().0, at.get_end_vaddr().0), (0x1000, 0x3000));
    // the first area in the way
    assert!(mm.__alloc_unmapped_core(Some(Vaddr(0x2000)), 0x2000, true, lo, hi).is_none());
    // a later area in the way
    assert!(mm.__alloc_unmapped_core(Some(Vaddr(0x4000)), 0x1800, true, lo, hi).is_none());
    assert!(mm.__alloc_unmapped_core(Some(Vaddr(0x4000)), 0x1000, true, lo, hi).is_some());
    // outside the region
    assert!(mm.__alloc_unmapped_core(Some(Vaddr(USER_SPACE_END - 0x1000)), 0x2000, true, lo, hi).is_none());
    // nothing, and too much
    assert!(mm.__alloc_unmapped_core(Some(Vaddr(0x1000)), 0, true, lo, hi).is_none());
    assert!(mm.__alloc_unmapped_core(None, 0, true, lo, hi).is_none());
    assert!(mm.__alloc_unmapped_core(None, USER_SPACE_END - USER_SPACE_START, true, lo, hi).is_none());
    assert!(mm.__alloc_unmapped_core(None, USER_SPACE_END - USER_SPACE_START + 1, true, lo, hi).is_none());
}

#[test]
fn a_request_as_long_as_the_region_fits_where_the_region_is_empty() {
    let mut mem = memory(16);
    let mm = space(&mut mem);
    let lo = Vaddr(USER_SPACE_START);
    let hi = Vaddr(USER_SPACE_END);
    let len = USER_SPACE_END - USER_SPACE_START;
    let up = mm.__alloc_unmapped_core(None, len, true, lo, hi).unwrap();
    assert_eq!((up.get_start_vaddr().0, up.get_end_vaddr().0), (USER_SPACE_START, USER_SPACE_END));
    let down = mm.__alloc_unmapped_core(None, len, false, lo, hi).unwrap();
    assert_eq!((down.get_start_vaddr().0, down.get_end_vaddr().0), (USER_SPACE_START, USER_SPACE_END));
    let fixed = mm.__alloc_unmapped_core(Some(lo), len, true, lo, hi).unwrap();
    assert_eq!(fixed.get_end_vaddr().0, USER_SPACE_END);
}

#[test]
fn requests_to_map_become_areas_with_the_rights_asked_for() {
    let mut mem = memory(16);
    let mut mm = space(&mut mem);
    let prot = MmapProt { bits: PROT_READ | PROT_WRITE | PROT_EXEC };
    let flags = MmapFlags { bits: MAP_PRIVATE | MAP_ANONYMOUS };
    // without a hint the highest range below the top of the mappings is taken
    let at = mm.map_anonymous(None, 0x3000, prot, flags).unwrap();
    assert_eq!(at.0, MMAP_TOP - 0x3000);
    let next = mm.map_anonymous(None, 0x1000, prot, flags).unwrap();
    assert_eq!(next.0, MMAP_TOP - 0x4000);
    assert_eq!(mm.map_anonymous(Some(at), 0x1000, prot, flags), Err(-1));
    assert_eq!(mm.vma_count(), 2);
    let vma = mm.vma_at(1);
    assert_eq!(vma.get_start_vaddr(), at);
    assert!(vma.is_anon());
    assert!(vma.get_flags().contains(VM_READ | VM_WRITE | VM_EXEC | VM_USER));
    let file = mm.map_file(None, 0x2000, 4, 0x100, 0x1800, MmapProt { bits: PROT_READ }, MmapFlags { bits: MAP_PRIVATE });
    let file_at = file.unwrap();
    assert_eq!(file_at.0, MMAP_TOP - 0x6000);
    let vma = mm.vma_at(0);
    assert!(vma.is_file());
    assert_eq!(vma.get_file_inode(), Some(4));
    assert_eq!((vma.file_off, vma.file_len), (0x100, 0x1800));
    assert!(!vma.get_flags().contains(VM_WRITE));
}

#[test]
fn the_kernel_maps_upwards_from_the_start_of_its_region() {
    let mut mem = memory(16);
    let table = PageTable::new(&mut mem, 256, 512).unwrap();
    let mut mm = MmStruct::new_kern_mm_by_pagetable(table);
    assert!(mm.is_kern());
    let first = mm.alloc_kmap_anon(0x2000).unwrap();
    assert_eq!((first.get_start_vaddr().0, first.get_end_vaddr().0), (KMAP_START, KMAP_START + 0x2000));
    assert!(first.is_anon());
    mm._insert_no_check(first);
    let second = mm.alloc_kmap_file(0x1000, 3, 0, 0x1000).unwrap();
    assert_eq!(second.get_start_vaddr().0, KMAP_START + 0x2000);
    assert_eq!(second.get_file_inode(), Some(3));
    assert!(mm.alloc_kmap_anon(0).is_none());
}

#[test]
fn a_token_stands_for_a_temporary_mapping_until_it_is_released() {
    let mut mem = memory(16);
    let table = PageTable::new(&mut mem, 256, 512).unwrap();
    let mut mm = MmStruct::new_kern_mm_by_pagetable(table);
    let one = KmapToken::new_anon(&mut mm, 0x3000, 0x8000_0000_0008_0001, 2).unwrap();
    assert_eq!(one.get_vaddr().0, KMAP_START);
    assert_eq!(one.get_len(), 0x3000);
    assert_eq!(one.get_satp_val(), 0x8000_0000_0008_0001);
    assert_eq!(one.get_irq_level(), 2);
    let two = KmapToken::new_file(&mut mm, 0x1000, 5, 0x200, 0x800, 0, 0).unwrap();
    assert_eq!(two.get_vaddr().0, KMAP_START + 0x3000);
    assert_eq!(mm.vma_count(), 2);
    assert_eq!(mm.vma_at(1).get_file_inode(), Some(5));
    assert!(KmapToken::new_anon(&mut mm, 0, 0, 0).is_none());
    assert_eq!(mm.vma_count(), 2);
    let gone = one.release(&mut mm).unwrap();
    assert_eq!(gone.get_start_vaddr().0, KMAP_START);
    assert_eq!(ranges(&mm), vec![(KMAP_START + 0x3000, KMAP_START + 0x4000)]);
    // the place is free again
    let three = KmapToken::new_anon(&mut mm, 0x2000, 0, 0).unwrap();
    assert_eq!(three.get_vaddr().0, KMAP_START);
}

#[test]
fn the_frames_of_a_block_come_in_order() {
    let mut mem = memory(16);
    let block = kernel::mm::alloc_pages(&mut mem, 2).unwrap();
    let mut it = PageInterator::new(&block);
    let mut got = Vec::new();
    while let Some(v) = it.next() {
        got.push(v.0);
    }
    let base = block.get_vaddr().0;
    assert_eq!(got, vec![base, base + 4096, base + 2 * 4096, base + 3 * 4096]);
    assert!(it.next().is_none());
    let single = kernel::mm::alloc_one_page(&mut mem).unwrap();
    let mut it = PageInterator::new(&single);
    assert_eq!(it.next().map(|v| v.0), Some(single.get_vaddr().0));
    assert!(it.next().is_none());
}
