//! Layout constants of the kernel's address space and allocator.
use vstd::prelude::*;

verus! {

/// First address of user space.
pub const USER_SPACE_START: u64 = 0x0;

/// One past the last address of user space.
pub const USER_SPACE_END: u64 = 0x10000000;

pub const USER_HEAP_SIZE_NR_PAGES: usize = 16;

/// Pages given to the heap area when an address space is built.
pub const USER_HEAP_VMA_INIT_NR_PAGES: usize = 16;

pub const USER_STACK_SIZE_NR_PAGES: usize = 16;

pub const USER_STACK_SIZE_ORDER: usize = 4;

/// One past the highest address of the user stack.
pub const USER_STACK_MAX_ADDR: u64 = 0x10000000;

/// Upper bound of the region that user mappings and the heap may occupy:
/// the user stack lies directly above it.
pub const MMAP_TOP: u64 = 0x0FFF0000;

/// Region of temporary kernel mappings.
pub const KMAP_START: u64 = 0xffffffc600000000;

pub const KMAP_END: u64 = 0xffffffc700000000;

pub const VMEMMAP_START: u64 = 0xffffffc700000000;

pub const VMEMMAP_END: u64 = 0xffffffc800000000;

/// Region in which all of physical memory is mapped at a fixed offset.
pub const DIRECT_MAP_START: u64 = 0xffffffd800000000;

pub const DIRECT_MAP_END: u64 = 0xfffffff700000000;

pub const PAGE_SIZE: usize = 4096;

pub const PAGE_OFFSET: usize = 12;

pub const CPUS: usize = 2;

/// Number of block orders the frame allocator keeps: orders `0..MAX_ORDER`.
pub const MAX_ORDER: usize = 11;

pub const MAX_ORDER_NR_PAGES: usize = 1024;

pub const BOOT_STACK_NR_PAGES: usize = 8;

pub const KERNEL_STACK_SIZE_ORDER: usize = 3;

pub const STACK_MAGIC: u64 = 0xABCD1122ABCD1122;

/// Distance between a physical address and its address in the direct map.
pub const PHY_MEM_OFFSET: u64 = 0xFFFFFFD800000000;

pub const PHY_MEM_START: u64 = 0xFFFFFFD880000000;

} // verus!
