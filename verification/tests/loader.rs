use kernel::consts::PHY_MEM_OFFSET;
use kernel::mm::addr::Vaddr;
use kernel::mm::auxv::{AuxHeader, AT_CLKTCK, AT_ENTRY, AT_NULL, AT_PAGESZ, AT_PHENT};
use kernel::mm::elf::{new_from_elf, ElfImage, ElfSegment};
use kernel::mm::pagetable::PageTable;
use kernel::mm::vma::{VM_ANON, VM_DIRTY, VM_EXEC, VM_READ, VM_USER, VM_WRITE};
use kernel::mm::MemoryManager;

fn memory(pages: u64) -> MemoryManager {
    let start = PHY_MEM_OFFSET + 0x8000_0000;
    MemoryManager::new(Vaddr(start), Vaddr(start + pages * 4096))
}

fn user_table(mem: &mut MemoryManager) -> PageTable {
    let kernel = PageTable::new(mem, 256, 512).unwrap();
    PageTable::new_user(&kernel, mem, 0, 1).unwrap()
}

fn segment(vaddr: u64, offset: u64, file_size: u64, mem_size: u64, w: bool, x: bool) -> ElfSegment {
    ElfSegment { vaddr, offset, file_size, mem_size, readable: true, writable: w, executable: x }
}

fn program() -> ElfImage {
    ElfImage {
        entry: 0x1_0040,
        ph_entry_size: 56,
        segments: vec![
            segment(0x1_3100, 0x2100, 0x300, 0x500, true, false),
            segment(0x1_0000, 0, 0x1234, 0x1234, false, true),
        ],
    }
}

#[test]
fn a_program_gets_its_segments_a_heap_and_a_stack() {
    let mut mem = memory(128);
    let pt = user_table(&mut mem);
    let free = mem.buddy.get_free_pages_cnt();
    let (mm, auxv, entry) = match new_from_elf(pt, &mut mem, &program(), 9) {
        Ok(r) => r,
        Err(_) => panic!("the program fits"),
    };
    assert_eq!(entry, 0x1_0040);
    assert_eq!(auxv.len(), 16);
    assert_eq!(auxv[0], AuxHeader { aux_type: AT_PHENT, value: 56 });
    assert_eq!(auxv[2], AuxHeader { aux_type: AT_PAGESZ, value: 4096 });
    assert_eq!(auxv[5], AuxHeader { aux_type: AT_ENTRY, value: 0x1_0040 });
    assert_eq!(auxv[12], AuxHeader { aux_type: AT_CLKTCK, value: 100 });
    assert_eq!(auxv[15], AuxHeader { aux_type: AT_NULL, value: 0 });
    assert!(mm.is_user());
    assert_eq!(mm.vma_count(), 4);
    // the text
    let text = &mm.vmas[0];
    assert_eq!((text.get_start_vaddr().0, text.get_end_vaddr().0), (0x1_0000, 0x1_2000));
    assert_eq!(text.get_flags().bits, VM_USER | VM_READ | VM_EXEC);
    assert_eq!(text.get_file_inode(), Some(9));
    assert_eq!((text.file_off, text.file_in_vma_off, text.file_len), (0, 0, 0x1234));
    assert_eq!(text.pages_tree.len(), 0);
    // the data, which does not start at the start of a page
    let data = &mm.vmas[1];
    assert_eq!((data.get_start_vaddr().0, data.get_end_vaddr().0), (0x1_3000, 0x1_4000));
    assert_eq!(data.get_flags().bits, VM_USER | VM_READ | VM_WRITE);
    assert_eq!((data.file_off, data.file_in_vma_off, data.file_len), (0x2100, 0x100, 0x300));
    // the heap, one page above
    let heap = &mm.vmas[2];
    assert_eq!((heap.get_start_vaddr().0, heap.get_end_vaddr().0), (0x1_5000, 0x2_5000));
    assert_eq!(heap.get_flags().bits, VM_USER | VM_READ | VM_WRITE | VM_EXEC | VM_ANON);
    assert_eq!(heap.pages_tree.len(), 0);
    assert_eq!(mm.get_start_brk().0, 0x1_5000);
    assert_eq!(mm.get_brk().0, 0x2_5000);
    // the stack, with a frame for each page
    let stack = &mm.vmas[3];
    assert_eq!((stack.get_start_vaddr().0, stack.get_end_vaddr().0), (0x0fff_0000, 0x1000_0000));
    assert_eq!(stack.get_flags().bits, VM_USER | VM_READ | VM_WRITE | VM_EXEC | VM_ANON | VM_DIRTY);
    assert_eq!(stack.pages_tree.len(), 16);
    for k in 0..16u64 {
        assert!(stack._vaddr_have_map(Vaddr(0x0fff_0000 + k * 4096)));
        assert!(mm._page_mapped(&mem, Vaddr(0x0fff_0000 + k * 4096)));
    }
    // sixteen frames and two tables
    assert_eq!(mem.buddy.get_free_pages_cnt(), free - 18);
}

#[test]
fn segments_that_overlap_are_refused() {
    let mut mem = memory(128);
    let pt = user_table(&mut mem);
    let root = pt._get_root_page_vaddr();
    let free = mem.buddy.get_free_pages_cnt();
    let image = ElfImage {
        entry: 0,
        ph_entry_size: 56,
        segments: vec![segment(0x1_0000, 0, 0x1001, 0x1001, false, true), segment(0x1_1800, 0x2000, 8, 8, true, false)],
    };
    match new_from_elf(pt, &mut mem, &image, 9) {
        Ok(_) => panic!("the segments overlap"),
        Err(back) => assert_eq!(back._get_root_page_vaddr(), root),
    }
    assert_eq!(mem.buddy.get_free_pages_cnt(), free);
}

#[test]
fn a_program_that_leaves_no_room_for_the_heap_is_refused() {
    let mut mem = memory(128);
    let pt = user_table(&mut mem);
    // the heap would end above the start of the stack
    let image = ElfImage { entry: 0, ph_entry_size: 56, segments: vec![segment(0x0ffd_0000, 0, 0x1000, 0xf001, true, false)] };
    assert!(new_from_elf(pt, &mut mem, &image, 9).is_err());
    let pt = user_table(&mut mem);
    let empty = ElfImage { entry: 0, ph_entry_size: 56, segments: vec![segment(0x1000, 0, 0, 0, true, false)] };
    assert!(new_from_elf(pt, &mut mem, &empty, 9).is_err());
    let pt = user_table(&mut mem);
    let outside = ElfImage { entry: 0, ph_entry_size: 56, segments: vec![segment(0x1000_0000, 0, 8, 8, true, false)] };
    assert!(new_from_elf(pt, &mut mem, &outside, 9).is_err());
}

#[test]
fn a_stack_gets_as_many_frames_as_are_free() {
    let mut mem = memory(9);
    let pt = user_table(&mut mem);
    assert_eq!(mem.buddy.get_free_pages_cnt(), 7);
    let image = ElfImage { entry: 0x1000, ph_entry_size: 56, segments: vec![segment(0x1000, 0, 8, 8, true, false)] };
    let (mm, _, _) = match new_from_elf(pt, &mut mem, &image, 9) {
        Ok(r) => r,
        Err(_) => panic!("the program fits"),
    };
    // two tables and five frames
    assert_eq!(mm.vmas[2].pages_tree.len(), 5);
    assert_eq!(mem.buddy.get_free_pages_cnt(), 0);
}
