use kernel::consts::{MAX_ORDER, PAGE_SIZE, PHY_MEM_OFFSET};
use kernel::mm::addr::Vaddr;
use kernel::mm::buddy::BuddyAllocator;

#[test]
fn init_counts_every_whole_page() {
    let b = BuddyAllocator::new(Vaddr(0x1000), Vaddr(0x1000000));
    assert_eq!(b.get_free_pages_cnt(), (0x1000000 - 0x1000) / PAGE_SIZE);
}

#[test]
fn init_clips_to_whole_pages() {
    let b = BuddyAllocator::new(Vaddr(0x1001), Vaddr(0x5fff));
    // pages 0x2000, 0x3000, 0x4000
    assert_eq!(b.get_free_pages_cnt(), 3);
}

#[test]
fn alloc_then_free_restores_free_page_count() {
    let mut b = BuddyAllocator::new(Vaddr(0x1000), Vaddr(0x1000000));
    let before = b.get_free_pages_cnt();
    let v = b.alloc_area(0).unwrap();
    assert_eq!(b.get_free_pages_cnt(), before - 1);
    assert_eq!(b.free_area(v, 0), Ok(()));
    assert_eq!(b.get_free_pages_cnt(), before);
}

#[test]
fn alloc_round_trip_for_every_order() {
    for order in 0..MAX_ORDER {
        let mut b = BuddyAllocator::new(Vaddr(0), Vaddr(0x1000000));
        let before = b.get_free_pages_cnt();
        let v = b.alloc_area(order).unwrap();
        assert_eq!(b.get_free_pages_cnt(), before - (1 << order));
        assert_eq!(b.free_area(v, order), Ok(()));
        assert_eq!(b.get_free_pages_cnt(), before);
        // the same block comes out again
        assert_eq!(b.alloc_area(order).unwrap().0, v.0);
    }
}

#[test]
fn alloc_rejects_an_order_out_of_range() {
    let mut b = BuddyAllocator::new(Vaddr(0), Vaddr(0x1000000));
    assert_eq!(b.alloc_area(MAX_ORDER).map(|v| v.0), Err(-1));
    assert_eq!(b.alloc_area(MAX_ORDER + 5).map(|v| v.0), Err(-1));
}

#[test]
fn alloc_fails_when_nothing_is_free() {
    // two pages: one block of order 1
    let mut b = BuddyAllocator::new(Vaddr(0), Vaddr(0x2000));
    assert_eq!(b.alloc_area(2).map(|v| v.0), Err(-1));
    assert_eq!(b.alloc_area(1).map(|v| v.0), Ok(0));
    assert_eq!(b.alloc_area(0).map(|v| v.0), Err(-1));
    assert_eq!(b.get_free_pages_cnt(), 0);
}

#[test]
fn alloc_splits_and_keeps_the_lower_half() {
    let mut b = BuddyAllocator::new(Vaddr(0x10000), Vaddr(0x10000 + 4 * 4096));
    // one block of order 2; a page comes from its lowest quarter
    assert_eq!(b.alloc_area(0).map(|v| v.0), Ok(0x10000));
    // the upper halves are free at orders 0 and 1
    assert_eq!(b.get_free_pages_cnt(), 3);
    assert_eq!(b.alloc_area(0).map(|v| v.0), Ok(0x11000));
    assert_eq!(b.alloc_area(1).map(|v| v.0), Ok(0x12000));
    assert_eq!(b.alloc_area(0).map(|v| v.0), Err(-1));
}

#[test]
fn allocated_blocks_do_not_overlap() {
    let mut b = BuddyAllocator::new(Vaddr(0), Vaddr(64 * 4096));
    let mut got: Vec<(u64, u64)> = Vec::new();
    for order in [0usize, 2, 1, 0, 3, 0, 1] {
        let v = b.alloc_area(order).unwrap();
        got.push((v.0, v.0 + ((PAGE_SIZE as u64) << order)));
    }
    for i in 0..got.len() {
        for j in 0..got.len() {
            if i != j {
                assert!(got[i].1 <= got[j].0 || got[j].1 <= got[i].0);
            }
        }
    }
}

#[test]
fn freeing_both_buddies_merges_them() {
    let mut b = BuddyAllocator::new(Vaddr(0), Vaddr(2 * 4096));
    let lo = b.alloc_area(0).unwrap();
    let hi = b.alloc_area(0).unwrap();
    assert_eq!((lo.0, hi.0), (0, 4096));
    assert_eq!(b.free_area(hi, 0), Ok(()));
    assert_eq!(b.free_area(lo, 0), Ok(()));
    // one block of order 1 again, none of order 0
    assert_eq!(b.get_free_pages_cnt(), 2);
    assert_eq!(b.alloc_area(1).map(|v| v.0), Ok(0));
    assert_eq!(b.alloc_area(0).map(|v| v.0), Err(-1));
}

#[test]
fn freeing_both_buddies_in_the_other_order_merges_them_too() {
    let mut b = BuddyAllocator::new(Vaddr(0), Vaddr(2 * 4096));
    let lo = b.alloc_area(0).unwrap();
    let hi = b.alloc_area(0).unwrap();
    assert_eq!(b.free_area(lo, 0), Ok(()));
    assert_eq!(b.free_area(hi, 0), Ok(()));
    assert_eq!(b.alloc_area(1).map(|v| v.0), Ok(0));
}

#[test]
fn free_rejects_bad_blocks() {
    let mut b = BuddyAllocator::new(Vaddr(0x4000), Vaddr(0x8000));
    let v = b.alloc_area(1).unwrap();
    assert_eq!(v.0, 0x4000);
    // order out of range
    assert_eq!(b.free_area(v, MAX_ORDER), Err(-1));
    // below the range
    assert_eq!(b.free_area(Vaddr(0x2000), 0), Err(-1));
    // not the address of a block of that order
    assert_eq!(b.free_area(Vaddr(0x5000), 1), Err(-1));
    // behind the range
    assert_eq!(b.free_area(Vaddr(0x8000), 0), Err(-1));
    assert_eq!(b.free_area(v, 1), Ok(()));
    assert_eq!(b.get_free_pages_cnt(), 4);
}

#[test]
fn direct_map_addresses_work() {
    let start = PHY_MEM_OFFSET + 0x8000_0000;
    let mut b = BuddyAllocator::new(Vaddr(start), Vaddr(start + 6 * 1024 * 1024));
    assert_eq!(b.get_free_pages_cnt(), 6 * 256);
    // one block of order 10 and, behind it, one of order 9
    let v = b.alloc_area(10).unwrap();
    assert_eq!(v.0, start);
    assert_eq!(b.alloc_area(9).map(|v| v.0), Ok(start + 4 * 1024 * 1024));
    assert_eq!(b.alloc_area(0).map(|v| v.0), Err(-1));
    assert_eq!(b.free_area(v, 10), Ok(()));
}
