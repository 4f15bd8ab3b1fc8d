//! Memory management core of a small RISC-V (Sv39) kernel: a buddy allocator
//! for physical frames, a frame registry, a three-level page table and the
//! per-address-space virtual memory areas, verified with Verus.
#![allow(unused_imports)]

use vstd::prelude::*;

pub mod consts;
pub mod utils;
pub mod pre;
pub mod fs;
pub mod mm;
pub mod trap;

