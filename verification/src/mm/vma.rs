//! Virtual memory areas: ranges of pages of one address space with the same
//! rights and the same backing, whose frames are handed out when they are
//! first touched.
use vstd::prelude::*;
use crate::consts::{PAGE_SIZE, PHY_MEM_OFFSET};
use crate::mm::{alloc_one_page, free_pages, spec_allocated, MemoryManager};
use crate::mm::addr::{Paddr, PageAlign, Vaddr};
use crate::mm::page::{spec_in_block, Page, PageView};
use crate::mm::pagetable::{
    lemma_grown, lemma_grown_refl, lemma_grown_trans, lemma_kept, lemma_vpn, lemma_vpn_offset, spec_entry_set,
    spec_frame_of, spec_grown, spec_kept, spec_vpn, PageTable,
};
use crate::mm::buddy_model::lemma_allocate_count;
use crate::mm::pte::{lemma_pte_flags, PTE, PTE_V};
use crate::mm::step::{
    lemma_frame_step, lemma_step, lemma_step_from_alloc, lemma_step_from_free, lemma_step_from_grown,
    lemma_step_from_write, lemma_step_more, lemma_step_refl, lemma_step_trans, spec_frame_ok, spec_freed, spec_step,
};
use crate::pre::ShowRdWrEx;

verus! {

pub const VM_NONE: usize = 0;

pub const VM_READ: usize = 1;

pub const VM_WRITE: usize = 2;

pub const VM_EXEC: usize = 4;

pub const VM_USER: usize = 8;

pub const VM_SHARD: usize = 16;

pub const VM_ANON: usize = 32;

pub const VM_DIRTY: usize = 64;

pub const MAP_FILE: usize = 0;

pub const MAP_SHARED: usize = 0x01;

pub const MAP_PRIVATE: usize = 0x02;

pub const MAP_FIXED: usize = 0x10;

pub const MAP_ANONYMOUS: usize = 0x20;

pub const PROT_NONE: usize = 0x0;

pub const PROT_READ: usize = 0x1;

pub const PROT_WRITE: usize = 0x2;

pub const PROT_EXEC: usize = 0x4;

pub const PROT_SEM: usize = 0x8;

pub const PROT_GROWSDOWN: usize = 0x01000000;

pub const PROT_GROWSUP: usize = 0x02000000;

/// Facts about the bits of flags: which bits a union holds, which bits stay
/// when one is cleared, and how the rights of an area become the flags of an
/// entry.
pub proof fn lemma_flag_bits(f: usize, g: usize)
    by (bit_vector)
    ensures
        (f | g) & g == g,
        f & 0 == 0,
        (f | 1usize) & 1usize == 1usize,
        (f | 2usize) & 2usize == 2usize,
        (f | 4usize) & 4usize == 4usize,
        (f | 8usize) & 8usize == 8usize,
        (f | 32usize) & 32usize == 32usize,
        (f | 64usize) & 64usize == 64usize,
        (f & !64usize) & 64usize == 0,
        (f & !2usize) & 2usize == 0,
        (f & !2usize) & 1usize == f & 1usize,
        (f & !2usize) & 4usize == f & 4usize,
        (f & !2usize) & 8usize == f & 8usize,
        (f & !2usize) & 32usize == f & 32usize,
        (f | 64usize) & 1usize == f & 1usize,
        (f | 64usize) & 2usize == f & 2usize,
        (f | 64usize) & 4usize == f & 4usize,
        (f | 64usize) & 32usize == f & 32usize,
        (f & !64usize) & 1usize == f & 1usize,
        (f & !64usize) & 2usize == f & 2usize,
        (f & !64usize) & 4usize == f & 4usize,
        (f & !64usize) & 32usize == f & 32usize,
        ((f & 15usize) << 1usize) <= 30,
        (f | 64usize) & 15usize == f & 15usize,
        (f & !2usize) & 15usize == (f & 15usize) & !2usize,
{
}

/// The rights and the kind of an area.
#[derive(Clone, Copy, PartialEq, Eq, Structural)]
pub struct VmFlags {
    pub bits: usize,
}

/// Flags of a request to map memory.
#[derive(Clone, Copy, PartialEq, Eq, Structural)]
pub struct MmapFlags {
    pub bits: usize,
}

/// Rights asked for in a request to map memory.
#[derive(Clone, Copy, PartialEq, Eq, Structural)]
pub struct MmapProt {
    pub bits: usize,
}

impl MmapFlags {
    /// Whether all bits of `flag` are set.
    pub fn contains(&self, flag: usize) -> (b: bool)
        ensures
            b == (self.bits & flag == flag),
    {
        self.bits & flag == flag
    }
}

impl MmapProt {
    /// Whether all bits of `flag` are set.
    pub fn contains(&self, flag: usize) -> (b: bool)
        ensures
            b == (self.bits & flag == flag),
    {
        self.bits & flag == flag
    }
}

impl VmFlags {
    /// Whether all bits of `flag` are set.
    pub open spec fn spec_contains(&self, flag: usize) -> bool {
        self.bits & flag == flag
    }

    /// Whether all bits of `flag` are set.
    pub fn contains(&self, flag: usize) -> (b: bool)
        ensures
            b == self.spec_contains(flag),
    {
        self.bits & flag == flag
    }

    /// Sets or clears the bits of `flag`.
    pub fn set(&mut self, flag: usize, value: bool)
        ensures
            final(self).bits == if value {
                old(self).bits | flag
            } else {
                old(self).bits & !flag
            },
    {
        if value {
            self.bits = self.bits | flag;
        } else {
            self.bits = self.bits & !flag;
        }
    }

    /// The flags of an area that a request to map memory asks for: the
    /// rights to read, write and execute as asked, anonymous if asked, and
    /// always for the user.
    pub open spec fn spec_from_mmap(mmap_flags: MmapFlags, prot_flags: MmapProt) -> VmFlags {
        let r: usize = if prot_flags.bits & 1 == 1 {
            1
        } else {
            0
        };
        let w: usize = if prot_flags.bits & 2 == 2 {
            2
        } else {
            0
        };
        let x: usize = if prot_flags.bits & 4 == 4 {
            4
        } else {
            0
        };
        let a: usize = if mmap_flags.bits & 0x20 == 0x20 {
            32
        } else {
            0
        };
        VmFlags { bits: (r + w + x + a + 8) as usize }
    }

    pub fn from_mmap(mmap_flags: MmapFlags, prot_flags: MmapProt) -> (ret: Self)
        ensures
            ret == Self::spec_from_mmap(mmap_flags, prot_flags),
    {
        let mut ret = VmFlags { bits: VM_NONE };
        if prot_flags.contains(PROT_READ) {
            proof {
                lemma_or_adds(ret.bits);
            }
            ret.bits = ret.bits | VM_READ;
        }
        if prot_flags.contains(PROT_WRITE) {
            proof {
                lemma_or_adds(ret.bits);
            }
            ret.bits = ret.bits | VM_WRITE;
        }
        if prot_flags.contains(PROT_EXEC) {
            proof {
                lemma_or_adds(ret.bits);
            }
            ret.bits = ret.bits | VM_EXEC;
        }
        if mmap_flags.contains(MAP_ANONYMOUS) {
            proof {
                lemma_or_adds(ret.bits);
            }
            ret.bits = ret.bits | VM_ANON;
        }
        proof {
            lemma_or_adds(ret.bits);
        }
        ret.bits = ret.bits | VM_USER;
        ret
    }
}

proof fn lemma_or_adds(b: usize)
    by (bit_vector)
    ensures
        b == 0 ==> b | 1usize == 1usize,
        b <= 1 ==> b | 2usize == b + 2,
        b <= 3 ==> b | 4usize == b + 4,
        b <= 7 ==> b | 32usize == b + 32,
        b <= 7 || (32 <= b && b <= 39) ==> b | 8usize == b + 8,
{
}

/// The flags of the entry of a page of an area with the flags `f`: the
/// rights to read, write and execute and the flag for the user, each one bit
/// higher, and the flag that marks the entry as in use.
pub open spec fn spec_vma_flags_2_pte_flags(f: VmFlags) -> u8 {
    (((f.bits & 15usize) << 1usize) as u8) | 1u8
}

pub fn _vma_flags_2_pte_flags(f: VmFlags) -> (flags: u8)
    ensures
        flags == spec_vma_flags_2_pte_flags(f),
{
    proof {
        lemma_flag_bits(f.bits, 0);
    }
    (((f.bits & 0b1111) << 1) as u8) | PTE_V
}


/// One page of an area and the frame that it has got.
pub struct PageEntry {
    pub vaddr: Vaddr,
    pub page: Page,
}

/// The pages of an area that have got a frame, each page once.
pub struct PageTree {
    entries: Vec<PageEntry>,
}

impl View for PageTree {
    type V = Seq<PageEntry>;

    closed spec fn view(&self) -> Seq<PageEntry> {
        self.entries@
    }
}

impl PageTree {
    /// No page occurs twice.
    pub open spec fn wf(&self) -> bool {
        forall|i: int, j: int|
            0 <= i < self@.len() && 0 <= j < self@.len() && i != j ==> (#[trigger] self@[i]).vaddr != (
            #[trigger] self@[j]).vaddr
    }

    /// Whether the page at `vaddr` has got a frame.
    pub open spec fn spec_contains(&self, vaddr: Vaddr) -> bool {
        exists|i: int| 0 <= i < self@.len() && (#[trigger] self@[i]).vaddr == vaddr
    }

    /// The place of the page at `vaddr` among the entries.
    pub open spec fn spec_index(&self, vaddr: Vaddr) -> int {
        choose|i: int| 0 <= i < self@.len() && (#[trigger] self@[i]).vaddr == vaddr
    }

    /// The frame of the page at `vaddr`.
    pub open spec fn spec_page(&self, vaddr: Vaddr) -> Page {
        self@[self.spec_index(vaddr)].page
    }

    /// In a well-formed tree an entry is found by its page.
    pub proof fn lemma_index(&self, i: int)
        requires
            self.wf(),
            0 <= i < self@.len(),
        ensures
            self.spec_contains(self@[i].vaddr),
            self.spec_index(self@[i].vaddr) == i,
            self.spec_page(self@[i].vaddr) == self@[i].page,
    {
        let k = self@[i].vaddr;
        assert(self@[i].vaddr == k);
        let j = self.spec_index(k);
        assert(self@[j].vaddr == k);
    }

    /// A page that has got a frame is found among the entries.
    pub proof fn lemma_contains(&self, vaddr: Vaddr)
        requires
            self.spec_contains(vaddr),
        ensures
            0 <= self.spec_index(vaddr) < self@.len(),
            self@[self.spec_index(vaddr)].vaddr == vaddr,
            self@[self.spec_index(vaddr)].page == self.spec_page(vaddr),
    {
    }

    pub fn new() -> (t: PageTree)
        ensures
            t@.len() == 0,
            t.wf(),
    {
        PageTree { entries: Vec::new() }
    }

    pub fn len(&self) -> (n: usize)
        ensures
            n == self@.len(),
    {
        self.entries.len()
    }

    /// The page of the entry at place `i`.
    pub fn key_at(&self, i: usize) -> (vaddr: Vaddr)
        requires
            i < self@.len(),
        ensures
            vaddr == self@[i as int].vaddr,
    {
        self.entries[i].vaddr
    }

    /// The frame of the entry at place `i`.
    pub fn page_at(&self, i: usize) -> (page: &Page)
        requires
            i < self@.len(),
        ensures
            *page == self@[i as int].page,
    {
        &self.entries[i].page
    }

    fn find(&self, vaddr: Vaddr) -> (r: Option<usize>)
        ensures
            r is Some <==> self.spec_contains(vaddr),
            r matches Some(i) ==> i < self@.len() && self@[i as int].vaddr == vaddr,
            self.wf() ==> (r matches Some(i) ==> i == self.spec_index(vaddr)),
    {
        let mut i: usize = 0;
        while i < self.entries.len()
            invariant
                i <= self.entries@.len(),
                forall|j: int| 0 <= j < i ==> (#[trigger] self@[j]).vaddr != vaddr,
            decreases self.entries@.len() - i,
        {
            if self.entries[i].vaddr.0 == vaddr.0 {
                proof {
                    assert(self@[i as int].vaddr == vaddr);
                }
                return Some(i);
            }
            i += 1;
        }
        None
    }

    /// Whether the page at `vaddr` has got a frame.
    pub fn contains_key(&self, vaddr: Vaddr) -> (b: bool)
        ensures
            b == self.spec_contains(vaddr),
    {
        self.find(vaddr).is_some()
    }

    /// The frame of the page at `vaddr`, if it has got one.
    pub fn get(&self, vaddr: Vaddr) -> (r: Option<Page>)
        requires
            self.wf(),
        ensures
            r is Some <==> self.spec_contains(vaddr),
            r matches Some(page) ==> page@ == self.spec_page(vaddr)@ && page.inner.friends@ == self.spec_page(
                vaddr,
            ).inner.friends@,
    {
        match self.find(vaddr) {
            Some(i) => Some(self.entries[i].page.clone()),
            None => None,
        }
    }

    /// Gives the page at `vaddr` the frame `page` and returns the frame
    /// that it had, if it had one.
    pub fn insert(&mut self, vaddr: Vaddr, page: Page) -> (r: Option<Page>)
        requires
            old(self).wf(),
        ensures
            final(self).wf(),
            r is Some <==> old(self).spec_contains(vaddr),
            r matches Some(before) ==> before == old(self).spec_page(vaddr),
            final(self).spec_contains(vaddr),
            final(self).spec_page(vaddr) == page,
            forall|k: Vaddr| k != vaddr ==> (#[trigger] final(self).spec_contains(k) == old(self).spec_contains(k)),
            forall|k: Vaddr|
                k != vaddr && old(self).spec_contains(k) ==> #[trigger] final(self).spec_page(k) == old(self).spec_page(k),
            final(self)@.len() == if old(self).spec_contains(vaddr) {
                old(self)@.len()
            } else {
                old(self)@.len() + 1
            },
    {
        let ghost before = self@;
        match self.find(vaddr) {
            Some(i) => {
                let removed = self.entries.remove(i);
                let ghost mid = self@;
                self.entries.push(PageEntry { vaddr, page });
                proof {
                    let after = self@;
                    assert forall|a: int, b: int|
                        0 <= a < after.len() && 0 <= b < after.len() && a != b implies (#[trigger] after[a]).vaddr != (
                    #[trigger] after[b]).vaddr by {
                        let oa = if a < i { a } else { a + 1 };
                        let ob = if b < i { b } else { b + 1 };
                        if a < mid.len() {
                            assert(after[a] == before[oa]);
                        }
                        if b < mid.len() {
                            assert(after[b] == before[ob]);
                        }
                    }
                    assert(after[after.len() - 1].vaddr == vaddr);
                    assert forall|k: Vaddr| k != vaddr implies (#[trigger] self.spec_contains(k) == old(self).spec_contains(k)) by {
                        if old(self).spec_contains(k) {
                            let j = old(self).spec_index(k);
                            let nj = if j < i { j } else { j - 1 };
                            assert(after[nj] == before[j]);
                            let m = self.spec_index(k);
                            let om = if m < i { m } else { m + 1 };
                            assert(after[m] == before[om]);
                        }
                        if self.spec_contains(k) {
                            let m = self.spec_index(k);
                            let om = if m < i { m } else { m + 1 };
                            assert(after[m] == before[om]);
                        }
                    }
                    assert forall|k: Vaddr| k != vaddr && old(self).spec_contains(k) implies #[trigger] self.spec_page(
                        k,
                    ) == old(self).spec_page(k) by {
                        if old(self).spec_contains(k) {
                            let j = old(self).spec_index(k);
                            let nj = if j < i { j } else { j - 1 };
                            assert(after[nj] == before[j]);
                            let m = self.spec_index(k);
                            let om = if m < i { m } else { m + 1 };
                            assert(after[m] == before[om]);
                        }
                        if self.spec_contains(k) {
                            let m = self.spec_index(k);
                            let om = if m < i { m } else { m + 1 };
                            assert(after[m] == before[om]);
                        }
                    }
                    let m = self.spec_index(vaddr);
                    if m < mid.len() {
                        let om = if m < i { m } else { m + 1 };
                        assert(after[m] == before[om]);
                    }
                }
                Some(removed.page)
            },
            None => {
                self.entries.push(PageEntry { vaddr, page });
                proof {
                    let after = self@;
                    assert(after[after.len() - 1].vaddr == vaddr);
                    assert forall|a: int, b: int|
                        0 <= a < after.len() && 0 <= b < after.len() && a != b implies (#[trigger] after[a]).vaddr != (
                    #[trigger] after[b]).vaddr by {
                        if a < before.len() {
                            assert(after[a] == before[a]);
                        }
                        if b < before.len() {
                            assert(after[b] == before[b]);
                        }
                    }
                    assert forall|k: Vaddr| k != vaddr implies (#[trigger] self.spec_contains(k) == old(self).spec_contains(k)) by {
                        if old(self).spec_contains(k) {
                            let j = old(self).spec_index(k);
                            assert(after[j] == before[j]);
                            let m = self.spec_index(k);
                            assert(after[m] == before[m]);
                        }
                        if self.spec_contains(k) {
                            let m = self.spec_index(k);
                            assert(after[m] == before[m]);
                        }
                    }
                    assert forall|k: Vaddr| k != vaddr && old(self).spec_contains(k) implies #[trigger] self.spec_page(
                        k,
                    ) == old(self).spec_page(k) by {
                        if old(self).spec_contains(k) {
                            let j = old(self).spec_index(k);
                            assert(after[j] == before[j]);
                            let m = self.spec_index(k);
                            assert(after[m] == before[m]);
                        }
                        if self.spec_contains(k) {
                            let m = self.spec_index(k);
                            assert(after[m] == before[m]);
                        }
                    }
                }
                None
            },
        }
    }

    /// Takes the frame of the page at `vaddr` away and returns it, if the
    /// page had one.
    pub fn remove(&mut self, vaddr: Vaddr) -> (r: Option<Page>)
        requires
            old(self).wf(),
        ensures
            final(self).wf(),
            r is Some <==> old(self).spec_contains(vaddr),
            r matches Some(before) ==> before == old(self).spec_page(vaddr),
            !final(self).spec_contains(vaddr),
            forall|k: Vaddr| k != vaddr ==> (#[trigger] final(self).spec_contains(k) == old(self).spec_contains(k)),
            forall|k: Vaddr|
                k != vaddr && old(self).spec_contains(k) ==> #[trigger] final(self).spec_page(k) == old(self).spec_page(k),
            final(self)@.len() == if old(self).spec_contains(vaddr) {
                old(self)@.len() - 1
            } else {
                old(self)@.len() as int
            },
            r is None ==> *final(self) == *old(self),
    {
        let ghost before = self@;
        match self.find(vaddr) {
            Some(i) => {
                let removed = self.entries.remove(i);
                proof {
                    let after = self@;
                    assert forall|a: int, b: int|
                        0 <= a < after.len() && 0 <= b < after.len() && a != b implies (#[trigger] after[a]).vaddr != (
                    #[trigger] after[b]).vaddr by {
                        let oa = if a < i { a } else { a + 1 };
                        let ob = if b < i { b } else { b + 1 };
                        assert(after[a] == before[oa]);
                        assert(after[b] == before[ob]);
                    }
                    if self.spec_contains(vaddr) {
                        let m = self.spec_index(vaddr);
                        let om = if m < i { m } else { m + 1 };
                        assert(after[m] == before[om]);
                    }
                    assert forall|k: Vaddr| k != vaddr implies (#[trigger] self.spec_contains(k) == old(self).spec_contains(k)) by {
                        if old(self).spec_contains(k) {
                            let j = old(self).spec_index(k);
                            let nj = if j < i { j } else { j - 1 };
                            assert(after[nj] == before[j]);
                            let m = self.spec_index(k);
                            let om = if m < i { m } else { m + 1 };
                            assert(after[m] == before[om]);
                        }
                        if self.spec_contains(k) {
                            let m = self.spec_index(k);
                            let om = if m < i { m } else { m + 1 };
                            assert(after[m] == before[om]);
                        }
                    }
                    assert forall|k: Vaddr| k != vaddr && old(self).spec_contains(k) implies #[trigger] self.spec_page(
                        k,
                    ) == old(self).spec_page(k) by {
                        if old(self).spec_contains(k) {
                            let j = old(self).spec_index(k);
                            let nj = if j < i { j } else { j - 1 };
                            assert(after[nj] == before[j]);
                            let m = self.spec_index(k);
                            let om = if m < i { m } else { m + 1 };
                            assert(after[m] == before[om]);
                        }
                        if self.spec_contains(k) {
                            let m = self.spec_index(k);
                            let om = if m < i { m } else { m + 1 };
                            assert(after[m] == before[om]);
                        }
                    }
                }
                Some(removed.page)
            },
            None => None,
        }
    }

    /// Takes the last entry away and returns it.
    pub fn pop(&mut self) -> (r: Option<PageEntry>)
        requires
            old(self).wf(),
        ensures
            final(self).wf(),
            r is Some <==> old(self)@.len() > 0,
            r matches Some(e) ==> e == old(self)@.last() && final(self)@ == old(self)@.drop_last(),
            r is None ==> final(self)@ == old(self)@,
    {
        let r = self.entries.pop();
        proof {
            if old(self)@.len() > 0 {
                assert(self@ =~= old(self)@.drop_last());
                assert forall|a: int, b: int|
                    0 <= a < self@.len() && 0 <= b < self@.len() && a != b implies (#[trigger] self@[a]).vaddr != (
                #[trigger] self@[b]).vaddr by {
                    assert(self@[a] == old(self)@[a]);
                    assert(self@[b] == old(self)@[b]);
                }
            }
        }
        r
    }
}


/// A request to read `len` bytes from the file `file` at `file_off` and to
/// store them from the address `dest` on.
pub struct FileFill {
    pub file: u64,
    pub file_off: u64,
    pub dest: Vaddr,
    pub len: u64,
}

/// What a fault on a page of an area has brought about: the frame of the
/// page, what has to be read from the file into it, if anything, and whether
/// the instruction cache has to be flushed after that.
pub struct FaultFill {
    pub page: Page,
    pub fill: Option<FileFill>,
    pub flush_icache: bool,
}

/// A request to write `data` to the file `file` at `file_off`.
pub struct FileWriteBack {
    pub file: u64,
    pub file_off: u64,
    pub data: Vec<u8>,
}

/// A virtual memory area: the pages from `start_vaddr` up to `end_vaddr`.
pub struct VMA {
    pub start_vaddr: Vaddr,
    pub end_vaddr: Vaddr,
    pub vm_flags: VmFlags,
    /// The pages that have got a frame.
    pub pages_tree: PageTree,
    /// The handle of the file behind the area, if there is one.
    pub file: Option<u64>,
    /// Where in the file the part behind the area starts.
    pub file_off: u64,
    /// Where in the area the part that the file is behind starts.
    pub file_in_vma_off: u64,
    /// How many bytes of the area the file is behind.
    pub file_len: u64,
    pub phy_pgs_cnt: usize,
    /// Frames kept for an address space that shares the pages of this area
    /// since it was made as a copy.
    pub cow_write_reserve_pgs: Option<PageTree>,
}

impl ShowRdWrEx for VMA {
    open spec fn spec_readable(&self) -> bool {
        self.vm_flags.spec_contains(VM_READ)
    }

    open spec fn spec_writeable(&self) -> bool {
        self.vm_flags.spec_contains(VM_WRITE)
    }

    open spec fn spec_execable(&self) -> bool {
        self.vm_flags.spec_contains(VM_EXEC)
    }

    fn readable(&self) -> (r: bool) {
        self.vm_flags.contains(VM_READ)
    }

    fn writeable(&self) -> (r: bool) {
        self.vm_flags.contains(VM_WRITE)
    }

    fn execable(&self) -> (r: bool) {
        self.vm_flags.contains(VM_EXEC)
    }
}

/// Whether the entries of `tree` are pages of the area from `start` to `end`
/// with frames of their own, no frame twice.
pub open spec fn spec_tree_ok(tree: PageTree, start: Vaddr, end: Vaddr, pt: &PageTable, mem: &MemoryManager) -> bool {
    &&& tree.wf()
    &&& forall|i: int|
        0 <= i < tree@.len() ==> {
            &&& (#[trigger] tree@[i]).vaddr.0 % 4096 == 0
            &&& start.0 <= tree@[i].vaddr.0 < end.0
            &&& spec_frame_ok(tree@[i].page, pt, mem)
        }
    &&& forall|i: int, j: int|
        0 <= i < tree@.len() && 0 <= j < tree@.len() && i != j ==> (#[trigger] tree@[i]).page.vaddr != (
        #[trigger] tree@[j]).page.vaddr
}

/// Whether the frame at place `p` is held by an entry of `tree`.
pub open spec fn spec_tree_holds(tree: PageTree, mem: &MemoryManager, p: int) -> bool {
    exists|i: int| 0 <= i < tree@.len() && mem.spec_index((#[trigger] tree@[i]).page.vaddr.0 as int) == p
}

impl VMA {
    pub open spec fn spec_in_vma(&self, vaddr: Vaddr) -> bool {
        self.start_vaddr.0 <= vaddr.0 < self.end_vaddr.0
    }

    pub open spec fn spec_is_anon(&self) -> bool {
        self.vm_flags.spec_contains(VM_ANON)
    }

    /// Whether the area holds the frame at place `p`, for a page or in
    /// reserve.
    pub open spec fn spec_holds_frame(&self, mem: &MemoryManager, p: int) -> bool {
        spec_tree_holds(self.pages_tree, mem, p) || (self.cow_write_reserve_pgs matches Some(r) && spec_tree_holds(
            r,
            mem,
            p,
        ))
    }

    /// The invariant of an area in an address space with the page table
    /// `pt`: it is a range of whole pages that the page table manages; its
    /// pages and its reserve have frames of their own, no frame twice; and an
    /// area that is not anonymous has a file.
    pub open spec fn wf(&self, pt: &PageTable, mem: &MemoryManager) -> bool {
        &&& self.start_vaddr.0 % 4096 == 0
        &&& self.end_vaddr.0 % 4096 == 0
        &&& self.start_vaddr.0 < self.end_vaddr.0
        &&& self.end_vaddr.0 - self.start_vaddr.0 <= 0x80_0000_0000
        &&& forall|v: u64| self.start_vaddr.0 <= v < self.end_vaddr.0 ==> #[trigger] pt.spec_covers(v)
        &&& spec_tree_ok(self.pages_tree, self.start_vaddr, self.end_vaddr, pt, mem)
        &&& self.cow_write_reserve_pgs matches Some(r) ==> {
            &&& spec_tree_ok(r, self.start_vaddr, self.end_vaddr, pt, mem)
            &&& forall|i: int, j: int|
                0 <= i < r@.len() && 0 <= j < self.pages_tree@.len() ==> (#[trigger] r@[i]).page.vaddr != (
                #[trigger] self.pages_tree@[j]).page.vaddr
        }
        &&& !self.spec_is_anon() ==> self.file is Some
        &&& self.start_vaddr.0 + self.file_in_vma_off + self.file_len <= u64::MAX
    }

    /// Whether `other` is this area but for the pages that have got a frame.
    pub open spec fn spec_same_but_pages(&self, other: &VMA) -> bool {
        &&& other.start_vaddr == self.start_vaddr
        &&& other.end_vaddr == self.end_vaddr
        &&& other.vm_flags == self.vm_flags
        &&& other.file == self.file
        &&& other.file_off == self.file_off
        &&& other.file_in_vma_off == self.file_in_vma_off
        &&& other.file_len == self.file_len
        &&& other.phy_pgs_cnt == self.phy_pgs_cnt
        &&& other.cow_write_reserve_pgs == self.cow_write_reserve_pgs
    }

    /// An area stays well-formed through a step that gives none of its
    /// frames.
    pub proof fn lemma_vma_step(
        &self,
        pt0: PageTable,
        mem0: MemoryManager,
        pt1: PageTable,
        mem1: MemoryManager,
        touched: Set<u64>,
        given: Set<int>,
    )
        requires
            mem0.wf(),
            self.wf(&pt0, &mem0),
            spec_step(pt0, mem0, pt1, mem1, touched, given),
            forall|p: int| given.contains(p) ==> !self.spec_holds_frame(&mem0, p),
        ensures
            self.wf(&pt1, &mem1),
    {
        assert forall|v: u64| self.start_vaddr.0 <= v < self.end_vaddr.0 implies #[trigger] pt1.spec_covers(v) by {
            lemma_step(pt0, mem0, pt1, mem1, touched, given, v, 0);
            assert(pt0.spec_covers(v));
        }
        let tree = self.pages_tree;
        assert forall|i: int| 0 <= i < tree@.len() implies spec_frame_ok((#[trigger] tree@[i]).page, &pt1, &mem1) by {
            let p = mem0.spec_index(tree@[i].page.vaddr.0 as int);
            assert(spec_tree_holds(tree, &mem0, p));
            assert(self.spec_holds_frame(&mem0, p));
            lemma_frame_step(tree@[i].page, pt0, mem0, pt1, mem1, touched, given);
        }
        match self.cow_write_reserve_pgs {
            Some(r) => {
                assert forall|i: int| 0 <= i < r@.len() implies spec_frame_ok((#[trigger] r@[i]).page, &pt1, &mem1) by {
                    let p = mem0.spec_index(r@[i].page.vaddr.0 as int);
                    assert(spec_tree_holds(r, &mem0, p));
                    assert(self.spec_holds_frame(&mem0, p));
                    lemma_frame_step(r@[i].page, pt0, mem0, pt1, mem1, touched, given);
                }
            },
            None => {},
        }
    }

    /// An area without pages that have got a frame.
    pub fn empty(start_vaddr: Vaddr, end_vaddr: Vaddr) -> (vma: Self)
        ensures
            vma.start_vaddr == start_vaddr,
            vma.end_vaddr == end_vaddr,
            vma.vm_flags.bits == VM_NONE,
            vma.pages_tree@.len() == 0,
            vma.pages_tree.wf(),
            vma.file is None,
            vma.file_off == 0,
            vma.file_in_vma_off == 0,
            vma.file_len == 0,
            vma.phy_pgs_cnt == 0,
            vma.cow_write_reserve_pgs is None,
    {
        Self {
            start_vaddr,
            end_vaddr,
            vm_flags: VmFlags { bits: VM_NONE },
            pages_tree: PageTree::new(),
            file: None,
            file_off: 0,
            file_in_vma_off: 0,
            file_len: 0,
            phy_pgs_cnt: 0,
            cow_write_reserve_pgs: None,
        }
    }

    /// An area with the given flags and file. An area that is not anonymous
    /// must have a file. The part of the file behind the area starts at the
    /// start of the file.
    pub fn new(
        start_vaddr: Vaddr,
        end_vaddr: Vaddr,
        vm_flags: VmFlags,
        file: Option<u64>,
        file_off: u64,
        file_in_vma_off: u64,
        file_len: u64,
    ) -> (vma: Self)
        requires
            !vm_flags.spec_contains(VM_ANON) ==> file is Some,
        ensures
            vma.start_vaddr == start_vaddr,
            vma.end_vaddr == end_vaddr,
            vma.vm_flags == vm_flags,
            vma.pages_tree@.len() == 0,
            vma.pages_tree.wf(),
            vma.file == file,
            vma.file_off == 0,
            vma.file_in_vma_off == file_in_vma_off,
            vma.file_len == file_len,
            vma.phy_pgs_cnt == 0,
            vma.cow_write_reserve_pgs is None,
    {
        VMA {
            start_vaddr,
            end_vaddr,
            vm_flags,
            pages_tree: PageTree::new(),
            file,
            file_off: 0,
            file_in_vma_off,
            file_len,
            phy_pgs_cnt: 0,
            cow_write_reserve_pgs: None,
        }
    }

    /// An area without a file.
    pub fn new_anon(start_vaddr: Vaddr, end_vaddr: Vaddr, vm_flags: VmFlags) -> (vma: Self)
        requires
            vm_flags.spec_contains(VM_ANON),
        ensures
            vma.start_vaddr == start_vaddr,
            vma.end_vaddr == end_vaddr,
            vma.vm_flags == vm_flags,
            vma.pages_tree@.len() == 0,
            vma.pages_tree.wf(),
            vma.file is None,
            vma.file_off == 0,
            vma.file_in_vma_off == 0,
            vma.file_len == 0,
            vma.phy_pgs_cnt == 0,
            vma.cow_write_reserve_pgs is None,
    {
        Self::new(start_vaddr, end_vaddr, vm_flags, None, 0, 0, 0)
    }

    /// An area with the file `file` behind it.
    pub fn new_file(
        start_vaddr: Vaddr,
        end_vaddr: Vaddr,
        vm_flags: VmFlags,
        file: u64,
        file_off: u64,
        file_in_vma_off: u64,
        file_len: u64,
    ) -> (vma: Self)
        ensures
            vma.start_vaddr == start_vaddr,
            vma.end_vaddr == end_vaddr,
            vma.vm_flags == vm_flags,
            vma.pages_tree@.len() == 0,
            vma.pages_tree.wf(),
            vma.file == Some(file),
            vma.file_off == 0,
            vma.file_in_vma_off == file_in_vma_off,
            vma.file_len == file_len,
            vma.phy_pgs_cnt == 0,
            vma.cow_write_reserve_pgs is None,
    {
        Self::new(start_vaddr, end_vaddr, vm_flags, Some(file), 0, file_in_vma_off, file_len)
    }

    pub fn is_anon(&self) -> (b: bool)
        ensures
            b == self.spec_is_anon(),
    {
        self.vm_flags.contains(VM_ANON)
    }

    pub fn is_file(&self) -> (b: bool)
        ensures
            b == !self.spec_is_anon(),
    {
        !self.is_anon()
    }

    pub fn __is_dirty(&self) -> (b: bool)
        ensures
            b == self.vm_flags.spec_contains(VM_DIRTY),
    {
        self.vm_flags.contains(VM_DIRTY)
    }

    pub fn __clear_dirty(&mut self)
        ensures
            final(self).vm_flags.bits == old(self).vm_flags.bits & !64usize,
            !final(self).vm_flags.spec_contains(VM_DIRTY),
            old(self).spec_same_but_flags(final(self)),
    {
        proof {
            lemma_flag_bits(self.vm_flags.bits, 0);
        }
        self.vm_flags.set(VM_DIRTY, false);
    }

    pub fn __set_dirty(&mut self)
        ensures
            final(self).vm_flags.bits == old(self).vm_flags.bits | 64usize,
            final(self).vm_flags.spec_contains(VM_DIRTY),
            old(self).spec_same_but_flags(final(self)),
    {
        proof {
            lemma_flag_bits(self.vm_flags.bits, 0);
        }
        self.vm_flags.set(VM_DIRTY, true);
    }

    /// Whether `other` is this area but for its end.
    pub open spec fn spec_same_but_end(&self, other: &VMA) -> bool {
        &&& other.start_vaddr == self.start_vaddr
        &&& other.vm_flags == self.vm_flags
        &&& other.pages_tree == self.pages_tree
        &&& other.file == self.file
        &&& other.file_off == self.file_off
        &&& other.file_in_vma_off == self.file_in_vma_off
        &&& other.file_len == self.file_len
        &&& other.phy_pgs_cnt == self.phy_pgs_cnt
        &&& other.cow_write_reserve_pgs == self.cow_write_reserve_pgs
    }

    /// Whether `other` is this area but for its flags.
    pub open spec fn spec_same_but_flags(&self, other: &VMA) -> bool {
        &&& other.start_vaddr == self.start_vaddr
        &&& other.end_vaddr == self.end_vaddr
        &&& other.pages_tree == self.pages_tree
        &&& other.file == self.file
        &&& other.file_off == self.file_off
        &&& other.file_in_vma_off == self.file_in_vma_off
        &&& other.file_len == self.file_len
        &&& other.phy_pgs_cnt == self.phy_pgs_cnt
        &&& other.cow_write_reserve_pgs == self.cow_write_reserve_pgs
    }

    pub fn get_start_vaddr(&self) -> (v: Vaddr)
        ensures
            v == self.start_vaddr,
    {
        self.start_vaddr
    }

    pub fn get_end_vaddr(&self) -> (v: Vaddr)
        ensures
            v == self.end_vaddr,
    {
        self.end_vaddr
    }

    /// Moves the end of the area and returns where it was.
    pub fn __set_end_vaddr(&mut self, new: Vaddr) -> (before: Vaddr)
        ensures
            before == old(self).end_vaddr,
            final(self).end_vaddr == new,
            final(self).start_vaddr == old(self).start_vaddr,
            final(self).vm_flags == old(self).vm_flags,
            final(self).pages_tree == old(self).pages_tree,
            final(self).file == old(self).file,
            final(self).file_off == old(self).file_off,
            final(self).file_in_vma_off == old(self).file_in_vma_off,
            final(self).file_len == old(self).file_len,
            final(self).phy_pgs_cnt == old(self).phy_pgs_cnt,
            final(self).cow_write_reserve_pgs == old(self).cow_write_reserve_pgs,
    {
        let ret = self.end_vaddr;
        self.end_vaddr = new;
        ret
    }

    /// Whether `vaddr` lies in the area.
    pub fn in_vma(&self, vaddr: Vaddr) -> (b: bool)
        ensures
            b == self.spec_in_vma(vaddr),
    {
        vaddr.0 >= self.start_vaddr.0 && vaddr.0 < self.end_vaddr.0
    }

    pub fn get_flags(&self) -> (f: VmFlags)
        ensures
            f == self.vm_flags,
    {
        self.vm_flags
    }

    /// Whether the page at `vaddr` has got a frame.
    pub fn _vaddr_have_map(&self, vaddr: Vaddr) -> (b: bool)
        ensures
            b == self.pages_tree.spec_contains(vaddr),
    {
        self.pages_tree.contains_key(vaddr)
    }

    /// The handle of the file behind the area.
    pub fn get_file_inode(&self) -> (f: Option<u64>)
        ensures
            f == self.file,
    {
        self.file
    }

    /// The frame of the page at `vaddr`, if it has got one.
    pub fn _find_page(&self, vaddr: Vaddr) -> (r: Option<Page>)
        requires
            self.pages_tree.wf(),
        ensures
            r is Some <==> self.pages_tree.spec_contains(vaddr),
            r matches Some(page) ==> page@ == self.pages_tree.spec_page(vaddr)@ && page.inner.friends@
                == self.pages_tree.spec_page(vaddr).inner.friends@,
    {
        self.pages_tree.get(vaddr)
    }
}


/// A tree that has gained the entry of a fresh frame for the page `vaddr`
/// is well-formed again.
pub proof fn lemma_tree_insert(
    before: PageTree,
    after: PageTree,
    start: Vaddr,
    end: Vaddr,
    pt: &PageTable,
    mem: &MemoryManager,
    vaddr: Vaddr,
    page: Page,
)
    requires
        spec_tree_ok(before, start, end, pt, mem),
        after.wf(),
        !before.spec_contains(vaddr),
        after.spec_contains(vaddr),
        after.spec_page(vaddr) == page,
        forall|k: Vaddr| k != vaddr ==> (#[trigger] after.spec_contains(k) == before.spec_contains(k)),
        forall|k: Vaddr| k != vaddr && before.spec_contains(k) ==> #[trigger] after.spec_page(k) == before.spec_page(k),
        vaddr.0 % 4096 == 0,
        start.0 <= vaddr.0 < end.0,
        spec_frame_ok(page, pt, mem),
        forall|i: int| 0 <= i < before@.len() ==> (#[trigger] before@[i]).page.vaddr != page.vaddr,
    ensures
        spec_tree_ok(after, start, end, pt, mem),
        forall|p: int|
            spec_tree_holds(after, mem, p) <==> (spec_tree_holds(before, mem, p) || p == mem.spec_index(
                page.vaddr.0 as int,
            )),
{
    assert forall|i: int| 0 <= i < after@.len() implies {
        &&& (#[trigger] after@[i]).vaddr.0 % 4096 == 0
        &&& start.0 <= after@[i].vaddr.0 < end.0
        &&& spec_frame_ok(after@[i].page, pt, mem)
        &&& (after@[i].vaddr != vaddr ==> before.spec_contains(after@[i].vaddr) && before@[before.spec_index(
            after@[i].vaddr,
        )].page == after@[i].page)
        &&& (after@[i].vaddr == vaddr ==> after@[i].page == page)
    } by {
        after.lemma_index(i);
        let k = after@[i].vaddr;
        if k != vaddr {
            assert(before.spec_contains(k));
            before.lemma_contains(k);
        }
    }
    assert forall|i: int, j: int| 0 <= i < after@.len() && 0 <= j < after@.len() && i != j implies (
    #[trigger] after@[i]).page.vaddr != (#[trigger] after@[j]).page.vaddr by {
        after.lemma_index(i);
        after.lemma_index(j);
        let ki = after@[i].vaddr;
        let kj = after@[j].vaddr;
        if ki != vaddr {
            before.lemma_contains(ki);
        }
        if kj != vaddr {
            before.lemma_contains(kj);
        }
        if ki != vaddr && kj != vaddr {
            assert(before.spec_index(ki) != before.spec_index(kj));
        }
    }
    assert forall|p: int|
        spec_tree_holds(after, mem, p) <==> (spec_tree_holds(before, mem, p) || p == mem.spec_index(
            page.vaddr.0 as int,
        )) by {
        if spec_tree_holds(after, mem, p) {
            let i = choose|i: int|
                0 <= i < after@.len() && mem.spec_index((#[trigger] after@[i]).page.vaddr.0 as int) == p;
            after.lemma_index(i);
            if after@[i].vaddr != vaddr {
                before.lemma_contains(after@[i].vaddr);
                let j = before.spec_index(after@[i].vaddr);
                assert(mem.spec_index(before@[j].page.vaddr.0 as int) == p);
            }
        }
        if spec_tree_holds(before, mem, p) {
            let j = choose|j: int|
                0 <= j < before@.len() && mem.spec_index((#[trigger] before@[j]).page.vaddr.0 as int) == p;
            before.lemma_index(j);
            let k = before@[j].vaddr;
            assert(after.spec_contains(k));
            after.lemma_contains(k);
            let i = after.spec_index(k);
            assert(mem.spec_index(after@[i].page.vaddr.0 as int) == p);
        }
        if p == mem.spec_index(page.vaddr.0 as int) {
            after.lemma_contains(vaddr);
            let i = after.spec_index(vaddr);
            assert(mem.spec_index(after@[i].page.vaddr.0 as int) == p);
        }
    }
}

/// What it means that the page `vaddr` of an area has got the fresh frame
/// `page`: the frame was free and is held once now; it is full of zeros; the
/// page is mapped to it with the rights of the area; and the area has
/// entered it for the page, and is otherwise as it was.
pub open spec fn spec_got_frame(
    vma0: VMA,
    mem0: MemoryManager,
    vma1: VMA,
    pt1: PageTable,
    mem1: MemoryManager,
    vaddr: Vaddr,
    page: Page,
) -> bool {
    &&& mem0.spec_is_frame(page.vaddr.0 as int)
    &&& mem0.spec_frame_free(page.vaddr.0 as int)
    &&& spec_frame_ok(page, &pt1, &mem1)
    &&& forall|a: int| page.vaddr.0 <= a < page.vaddr.0 + 4096 ==> #[trigger] mem1.ram.spec_byte(a) == 0
    &&& pt1.spec_translate(&mem1, vaddr.0) == Some(
        PTE::spec_new((page.vaddr.0 - PHY_MEM_OFFSET) as u64, spec_vma_flags_2_pte_flags(vma0.vm_flags) | 1u8),
    )
    &&& vma0.spec_same_but_pages(&vma1)
    &&& vma1.pages_tree.spec_contains(vaddr)
    &&& vma1.pages_tree.spec_page(vaddr)@ == page@
    &&& forall|k: Vaddr| k != vaddr ==> (#[trigger] vma1.pages_tree.spec_contains(k) == vma0.pages_tree.spec_contains(k))
    &&& forall|k: Vaddr|
        k != vaddr && vma0.pages_tree.spec_contains(k) ==> #[trigger] vma1.pages_tree.spec_page(k)
            == vma0.pages_tree.spec_page(k)
}

/// What the allocation of a frame and the mapping of the page `vaddr` of an
/// area to it amount to: a step that touches that page only; the area is
/// still well-formed; the frame is held, is no table, is full of zeros, and
/// is none of the frames of the area.
pub proof fn lemma_frame_installed(
    vma0: VMA,
    pt0: PageTable,
    mem0: MemoryManager,
    mem1: MemoryManager,
    pt2: PageTable,
    mem2: MemoryManager,
    vaddr: Vaddr,
    page: Page,
    entry: PTE,
)
    requires
        vma0.wf(&pt0, &mem0),
        pt0.wf(&mem0),
        mem1.wf(),
        mem1.buddy@.start == mem0.buddy@.start,
        mem1.buddy@.pages == mem0.buddy@.pages,
        spec_allocated(&mem0, &mem1, 0, &page),
        spec_entry_set(pt0, mem1, pt2, mem2, vaddr.0, entry),
    ensures
        spec_step(pt0, mem0, pt2, mem2, set![spec_vpn(vaddr.0)], Set::empty()),
        vma0.wf(&pt2, &mem2),
        spec_frame_ok(page, &pt2, &mem2),
        mem0.spec_is_frame(page.vaddr.0 as int),
        mem0.spec_frame_free(page.vaddr.0 as int),
        forall|a: int| page.vaddr.0 <= a < page.vaddr.0 + 4096 ==> #[trigger] mem2.ram.spec_byte(a) == 0,
        forall|i: int|
            0 <= i < vma0.pages_tree@.len() ==> (#[trigger] vma0.pages_tree@[i]).page.vaddr != page.vaddr,
        vma0.cow_write_reserve_pgs matches Some(res) ==> forall|i: int|
            0 <= i < res@.len() ==> (#[trigger] res@[i]).page.vaddr != page.vaddr,
        !vma0.spec_holds_frame(&mem0, mem0.spec_index(page.vaddr.0 as int)),
{
    lemma_step_from_alloc(pt0, mem0, mem1, 0, page);
    mem0.buddy.lemma_wf();
    mem1.buddy.lemma_wf();
    crate::utils::lemma_order2pages_values();
    let fidx = mem0.spec_index(page.vaddr.0 as int);
    assert forall|p: int| spec_in_block(p, fidx, 0) <==> p == fidx by {
        assert(crate::mm::buddy_model::spec_ancestor(p, 0) == p);
        assert(crate::mm::buddy_model::spec_ancestor(fidx, 0) == fidx);
    }
    assert(spec_in_block(fidx, fidx, 0));
    assert(mem0.buddy@.page_free(fidx));
    assert(!pt0.spec_tables().contains(page.vaddr.0 as int)) by {
        if pt0.spec_tables().contains(page.vaddr.0 as int) {
            assert(!mem0.spec_frame_free(page.vaddr.0 as int));
        }
    }
    lemma_step_from_grown(pt0, mem1, pt2, mem2, set![spec_vpn(vaddr.0)]);
    lemma_step_trans(
        pt0,
        mem0,
        pt0,
        mem1,
        pt2,
        mem2,
        Set::empty(),
        Set::empty(),
        set![spec_vpn(vaddr.0)],
        Set::empty(),
    );
    assert(Set::<u64>::empty().union(set![spec_vpn(vaddr.0)]) =~= set![spec_vpn(vaddr.0)]);
    assert(Set::<int>::empty().union(Set::empty()) =~= Set::<int>::empty());
    vma0.lemma_vma_step(pt0, mem0, pt2, mem2, set![spec_vpn(vaddr.0)], Set::empty());
    assert(spec_frame_ok(page, &pt0, &mem1));
    lemma_frame_step(page, pt0, mem1, pt2, mem2, set![spec_vpn(vaddr.0)], Set::empty());
    assert forall|i: int| 0 <= i < vma0.pages_tree@.len() implies (#[trigger] vma0.pages_tree@[i]).page.vaddr
        != page.vaddr by {
        let e = vma0.pages_tree@[i];
        assert(spec_frame_ok(e.page, &pt0, &mem0));
        assert(mem0.pages@[mem0.spec_index(e.page.vaddr.0 as int)] is Some);
    }
    if vma0.cow_write_reserve_pgs is Some {
        let res = vma0.cow_write_reserve_pgs->0;
        assert forall|i: int| 0 <= i < res@.len() implies (#[trigger] res@[i]).page.vaddr != page.vaddr by {
            let e = res@[i];
            assert(spec_frame_ok(e.page, &pt0, &mem0));
            assert(mem0.pages@[mem0.spec_index(e.page.vaddr.0 as int)] is Some);
        }
    }
    assert(!vma0.spec_holds_frame(&mem0, fidx)) by {
        if spec_tree_holds(vma0.pages_tree, &mem0, fidx) {
            let i = choose|i: int|
                0 <= i < vma0.pages_tree@.len() && mem0.spec_index(
                    (#[trigger] vma0.pages_tree@[i]).page.vaddr.0 as int,
                ) == fidx;
            assert(spec_frame_ok(vma0.pages_tree@[i].page, &pt0, &mem0));
            assert(mem0.pages@[fidx] is Some);
        }
        if vma0.cow_write_reserve_pgs is Some {
            let res = vma0.cow_write_reserve_pgs->0;
            if spec_tree_holds(res, &mem0, fidx) {
                let i = choose|i: int|
                    0 <= i < res@.len() && mem0.spec_index((#[trigger] res@[i]).page.vaddr.0 as int) == fidx;
                assert(spec_frame_ok(res@[i].page, &pt0, &mem0));
                assert(mem0.pages@[fidx] is Some);
            }
        }
    }
}

/// An area that has entered a fresh frame for the page `vaddr` is
/// well-formed again.
pub proof fn lemma_vma_entered(vma0: VMA, vma1: VMA, pt: PageTable, mem: MemoryManager, vaddr: Vaddr, page: Page)
    requires
        vma0.wf(&pt, &mem),
        vma0.spec_same_but_pages(&vma1),
        vma1.pages_tree.wf(),
        !vma0.pages_tree.spec_contains(vaddr),
        vma1.pages_tree.spec_contains(vaddr),
        vma1.pages_tree.spec_page(vaddr) == page,
        forall|k: Vaddr| k != vaddr ==> (#[trigger] vma1.pages_tree.spec_contains(k) == vma0.pages_tree.spec_contains(k)),
        forall|k: Vaddr|
            k != vaddr && vma0.pages_tree.spec_contains(k) ==> #[trigger] vma1.pages_tree.spec_page(k)
                == vma0.pages_tree.spec_page(k),
        vaddr.0 % 4096 == 0,
        vma0.spec_in_vma(vaddr),
        spec_frame_ok(page, &pt, &mem),
        forall|i: int|
            0 <= i < vma0.pages_tree@.len() ==> (#[trigger] vma0.pages_tree@[i]).page.vaddr != page.vaddr,
        vma0.cow_write_reserve_pgs matches Some(res) ==> forall|i: int|
            0 <= i < res@.len() ==> (#[trigger] res@[i]).page.vaddr != page.vaddr,
    ensures
        vma1.wf(&pt, &mem),
{
    lemma_tree_insert(
        vma0.pages_tree,
        vma1.pages_tree,
        vma0.start_vaddr,
        vma0.end_vaddr,
        &pt,
        &mem,
        vaddr,
        page,
    );
    if vma1.cow_write_reserve_pgs is Some {
        let res = vma1.cow_write_reserve_pgs->0;
        assert forall|i: int, j: int| 0 <= i < res@.len() && 0 <= j < vma1.pages_tree@.len() implies (
        #[trigger] res@[i]).page.vaddr != (#[trigger] vma1.pages_tree@[j]).page.vaddr by {
            vma1.pages_tree.lemma_index(j);
            let k = vma1.pages_tree@[j].vaddr;
            if k != vaddr {
                vma0.pages_tree.lemma_contains(k);
            }
        }
    }
}

impl VMA {
    /// The frame of the page at `vaddr`. A page without a frame gets a
    /// fresh one, full of zeros, and is mapped to it with the rights of the
    /// area. That fails, changing nothing, where the page is mapped to
    /// something already, and where the free frames do not suffice for the
    /// frame and for the tables that are missing on the way of `vaddr`.
    pub fn __fast_alloc_one_page_and_get(&mut self, pt: &mut PageTable, mem: &mut MemoryManager, vaddr: Vaddr) -> (r:
        Option<Page>)
        requires
            old(self).wf(old(pt), old(mem)),
            old(pt).wf(old(mem)),
            vaddr.0 % 4096 == 0,
            old(self).spec_in_vma(vaddr),
        ensures
            final(self).wf(final(pt), final(mem)),
            spec_step(*old(pt), *old(mem), *final(pt), *final(mem), set![spec_vpn(vaddr.0)], Set::empty()),
            old(self).spec_same_but_pages(final(self)),
            old(self).pages_tree.spec_contains(vaddr) ==> {
                &&& r is Some
                &&& r->0@ == old(self).pages_tree.spec_page(vaddr)@
                &&& final(self).pages_tree == old(self).pages_tree
                &&& final(mem).ram == old(mem).ram
                &&& final(mem).buddy@ == old(mem).buddy@
                &&& final(mem).pages@ == old(mem).pages@
            },
            !old(self).pages_tree.spec_contains(vaddr) ==> {
                &&& (r is Some <==> old(pt).spec_translate(old(mem), vaddr.0) is None && old(mem).buddy@.free_pages_from(0) >= old(pt).spec_missing(old(mem), vaddr.0) + 1)
                &&& r is None ==> {
                    &&& final(self).pages_tree == old(self).pages_tree
                    &&& final(mem).ram == old(mem).ram
                    &&& final(mem).buddy@ == old(mem).buddy@
                    &&& final(mem).pages@ == old(mem).pages@
                }
                &&& r matches Some(page) ==> spec_got_frame(
                    *old(self),
                    *old(mem),
                    *final(self),
                    *final(pt),
                    *final(mem),
                    vaddr,
                    page,
                ) && final(mem).buddy@.free_pages_from(0) == old(mem).buddy@.free_pages_from(0) - old(pt).spec_missing(
                    old(mem),
                    vaddr.0,
                ) - 1
            },
    {
        proof {
            lemma_step_refl(*pt, *mem);
            lemma_step_more(
                *pt,
                *mem,
                *pt,
                *mem,
                Set::empty(),
                Set::empty(),
                set![spec_vpn(vaddr.0)],
                Set::empty(),
            );
            pt.lemma_walk(mem, vaddr.0);
        }
        if !self._vaddr_have_map(vaddr) {
            match pt.walk(mem, vaddr.0) {
                Some(r) => {
                    if r.get_pte(&mem.ram).vaild() {
                        return None;
                    }
                },
                None => {},
            }
            let missing = pt._missing_tables(mem, vaddr.0);
            if mem.buddy.get_free_pages_cnt() < missing + 1 {
                return None;
            }
            let ghost pt0 = *pt;
            let ghost mem0 = *mem;
            let got = alloc_one_page(mem);
            let pages = got.unwrap();
            let ghost mem1 = *mem;
            proof {
                lemma_step_from_alloc(pt0, mem0, mem1, 0, pages);
                lemma_kept(pt0, mem0, mem1);
                mem0.buddy.lemma_wf();
            }
            let flags = self.get_flags();
            let map_ret = pt.map_one_page(mem, vaddr, pages.get_paddr(), _vma_flags_2_pte_flags(flags));
            proof {
                assert(map_ret is Ok);
                lemma_pte_flags(spec_vma_flags_2_pte_flags(flags), 0);
                PTE::lemma_entry(
                    0,
                    PTE::spec_from(0),
                    (pages.vaddr.0 - PHY_MEM_OFFSET) as u64,
                    spec_vma_flags_2_pte_flags(flags) | 1u8,
                );
                lemma_frame_installed(
                    *old(self),
                    pt0,
                    mem0,
                    mem1,
                    *pt,
                    *mem,
                    vaddr,
                    pages,
                    PTE::spec_new((pages.vaddr.0 - PHY_MEM_OFFSET) as u64, spec_vma_flags_2_pte_flags(flags) | 1u8),
                );
            }
            let kept = pages.clone();
            self.pages_tree.insert(vaddr, kept);
            proof {
                assert(spec_frame_ok(kept, pt, mem));
                lemma_vma_entered(*old(self), *self, *pt, *mem, vaddr, kept);
            }
            return Some(pages);
        } else {
            self._find_page(vaddr)
        }
    }
}


/// Stores the bytes that were read for the request `fill` where the request
/// says.
pub fn fill_page(mem: &mut MemoryManager, fill: &FileFill, data: &Vec<u8>)
    requires
        old(mem).wf(),
        data@.len() == fill.len,
        old(mem).ram.spec_contains(fill.dest.0 as int, fill.len as int),
    ensures
        final(mem).wf(),
        final(mem).buddy@ == old(mem).buddy@,
        final(mem).pages@ == old(mem).pages@,
        old(mem).ram.same_but(&final(mem).ram, fill.dest.0 as int, fill.len as int),
        forall|i: int| 0 <= i < fill.len ==> #[trigger] final(mem).ram.spec_byte(fill.dest.0 + i) == data@[i],
{
    mem.ram.write_bytes(fill.dest, data);
    proof {
        assert forall|i: int| 0 <= i < fill.len implies #[trigger] mem.ram.spec_byte(fill.dest.0 + i) == data@[i] by {
        }
    }
}

/// A part of a page: where it starts in the page, how long it is, and where
/// in the file it lies.
pub struct FilePart {
    pub page_off: int,
    pub len: int,
    pub file_off: int,
}

pub open spec fn spec_max(a: int, b: int) -> int {
    if a > b {
        a
    } else {
        b
    }
}

impl VMA {
    /// The area as it is once a page of it has got a frame: marked as
    /// written to if it may be written to.
    pub open spec fn spec_marked_dirty(&self) -> VMA {
        if self.spec_writeable() {
            VMA { vm_flags: VmFlags { bits: self.vm_flags.bits | 64usize }, ..*self }
        } else {
            *self
        }
    }

    /// Where in the area the part that the file is behind starts.
    pub open spec fn spec_file_start(&self) -> int {
        self.start_vaddr.0 + self.file_in_vma_off
    }

    /// Where in the area the part that the file is behind ends.
    pub open spec fn spec_file_end(&self) -> int {
        self.start_vaddr.0 + self.file_in_vma_off + self.file_len
    }

    /// The part of the page at `vaddr` that the file is behind: where it
    /// starts in the page, how long it is, and where in the file it lies.
    /// There is none in an anonymous area, and none where the page lies before
    /// or behind the part of the area that the file is behind.
    pub open spec fn spec_file_part(&self, vaddr: Vaddr) -> Option<FilePart> {
        let lo = spec_max(vaddr.0 as int, self.spec_file_start());
        let hi = crate::pre::spec_min(vaddr.0 + 4096, self.spec_file_end());
        if !self.spec_is_anon() && lo < hi {
            Some(
                FilePart {
                    page_off: lo - vaddr.0,
                    len: hi - lo,
                    file_off: self.file_off + (lo - self.spec_file_start()),
                },
            )
        } else {
            None
        }
    }

    /// What has to be read from the file into the frame at `frame` for the
    /// page at `vaddr`.
    pub fn _file_fill_for(&self, vaddr: Vaddr, frame: Vaddr) -> (fill: Option<FileFill>)
        requires
            self.start_vaddr.0 + self.file_in_vma_off + self.file_len <= u64::MAX,
            self.file_off + self.file_len <= u64::MAX,
            !self.spec_is_anon() ==> self.file is Some,
            vaddr.0 + 4096 <= u64::MAX,
            frame.0 + 4096 <= u64::MAX,
        ensures
            fill is Some <==> self.spec_file_part(vaddr) is Some,
            fill matches Some(f) ==> {
                &&& Some(f.file) == self.file
                &&& f.dest.0 == frame.0 + self.spec_file_part(vaddr)->0.page_off
                &&& f.len == self.spec_file_part(vaddr)->0.len
                &&& f.file_off == self.spec_file_part(vaddr)->0.file_off
                &&& frame.0 <= f.dest.0
                &&& f.dest.0 + f.len <= frame.0 + 4096
            },
    {
        if self.is_anon() {
            return None;
        }
        let file_map_start_vaddr = self.start_vaddr.0 + self.file_in_vma_off;
        let file_map_end_vaddr = self.start_vaddr.0 + self.file_in_vma_off + self.file_len;
        let page_end = vaddr.0 + PAGE_SIZE as u64;
        let lo = if vaddr.0 < file_map_start_vaddr { file_map_start_vaddr } else { vaddr.0 };
        let hi = if page_end <= file_map_end_vaddr { page_end } else { file_map_end_vaddr };
        if lo < hi {
            let left_off = lo - vaddr.0;
            let need_read = hi - lo;
            let real_in_file_off = (lo - file_map_start_vaddr) + self.file_off;
            Some(
                FileFill {
                    file: self.file.unwrap(),
                    file_off: real_in_file_off,
                    dest: Vaddr(frame.0 + left_off),
                    len: need_read,
                },
            )
        } else {
            None
        }
    }

    /// An area stays well-formed when its flags change, as long as it has a
    /// file or becomes or stays anonymous.
    pub proof fn lemma_wf_flags(&self, other: VMA, pt: &PageTable, mem: &MemoryManager)
        requires
            self.wf(pt, mem),
            self.spec_same_but_flags(&other),
            !other.spec_is_anon() ==> other.file is Some,
        ensures
            other.wf(pt, mem),
    {
    }

    /// Gives the page at `vaddr` a frame, if it has none, and says what has
    /// to be read into the frame from the file behind the area. The area is
    /// marked as written to if it may be written to. Fails, changing nothing,
    /// where `vaddr` does not start a page of the area, and where the page
    /// cannot get a frame.
    #[verifier::rlimit(100)]
    #[verifier::spinoff_prover]
    pub fn _do_alloc_one_page(&mut self, pt: &mut PageTable, mem: &mut MemoryManager, vaddr: Vaddr) -> (r: Result<
        FaultFill,
        (),
    >)
        requires
            old(self).wf(old(pt), old(mem)),
            old(pt).wf(old(mem)),
            old(self).file_off + old(self).file_len <= u64::MAX,
        ensures
            final(self).wf(final(pt), final(mem)),
            spec_step(*old(pt), *old(mem), *final(pt), *final(mem), set![spec_vpn(vaddr.0)], Set::empty()),
            r is Err <==> (vaddr.0 % 4096 != 0 || !old(self).spec_in_vma(vaddr) || (!old(self).pages_tree.spec_contains(vaddr) && (old(pt).spec_translate(old(mem), vaddr.0) is Some || old(mem).buddy@.free_pages_from(0) < old(pt).spec_missing(old(mem), vaddr.0) + 1))),
            r is Err ==> {
                &&& *final(self) == *old(self)
                &&& final(mem).ram == old(mem).ram
                &&& final(mem).buddy@ == old(mem).buddy@
                &&& final(mem).pages@ == old(mem).pages@
            },
            r matches Ok(ff) ==> {
                &&& old(self).spec_marked_dirty().spec_same_but_pages(final(self))
                &&& ff.flush_icache == (!old(self).spec_is_anon() && old(self).spec_execable())
                &&& ff.fill is Some <==> old(self).spec_file_part(vaddr) is Some
                &&& ff.fill matches Some(fill) ==> {
                    &&& Some(fill.file) == old(self).file
                    &&& fill.dest.0 == ff.page.vaddr.0 + old(self).spec_file_part(vaddr)->0.page_off
                    &&& fill.len == old(self).spec_file_part(vaddr)->0.len
                    &&& fill.file_off == old(self).spec_file_part(vaddr)->0.file_off
                    &&& final(mem).ram.spec_contains(fill.dest.0 as int, fill.len as int)
                }
                &&& old(self).pages_tree.spec_contains(vaddr) ==> {
                    &&& ff.page@ == old(self).pages_tree.spec_page(vaddr)@
                    &&& final(self).pages_tree == old(self).pages_tree
                    &&& final(mem).ram == old(mem).ram
                    &&& final(mem).buddy@ == old(mem).buddy@
                    &&& final(mem).pages@ == old(mem).pages@
                }
                &&& !old(self).pages_tree.spec_contains(vaddr) ==> spec_got_frame(
                    old(self).spec_marked_dirty(),
                    *old(mem),
                    *final(self),
                    *final(pt),
                    *final(mem),
                    vaddr,
                    ff.page,
                ) && final(mem).buddy@.free_pages_from(0) == old(mem).buddy@.free_pages_from(0) - old(pt).spec_missing(
                    old(mem),
                    vaddr.0,
                ) - 1
            },
    {
        proof {
            lemma_step_refl(*pt, *mem);
            lemma_step_more(
                *pt,
                *mem,
                *pt,
                *mem,
                Set::empty(),
                Set::empty(),
                set![spec_vpn(vaddr.0)],
                Set::empty(),
            );
            lemma_flag_bits(self.vm_flags.bits, 0);
        }
        if !vaddr.is_align() || !self.in_vma(vaddr) {
            return Err(());
        }
        let got = self.__fast_alloc_one_page_and_get(pt, mem, vaddr);
        let pg = match got {
            Some(pg) => pg,
            None => {
                return Err(());
            },
        };
        proof {
            self.lemma_frame_in_ram(*old(self), *old(pt), *old(mem), *pt, *mem, vaddr, pg);
        }
        let fill = self._file_fill_for(vaddr, pg.vaddr);
        let mut flush_icache = false;
        if !self.is_anon() {
            // the frame may be executed later
            if self.execable() {
                flush_icache = true;
            }
        }
        let ghost mid = *self;
        if self.writeable() {
            // set dirty
            self.__set_dirty();
        }
        proof {
            mid.lemma_wf_flags(*self, pt, mem);
        }
        Ok(FaultFill { page: pg, fill, flush_icache })
    }

    /// The frame that a page of the area has got lies within the window of
    /// memory.
    proof fn lemma_frame_in_ram(
        &self,
        vma0: VMA,
        pt0: PageTable,
        mem0: MemoryManager,
        pt1: PageTable,
        mem1: MemoryManager,
        vaddr: Vaddr,
        pg: Page,
    )
        requires
            vma0.wf(&pt0, &mem0),
            pt0.wf(&mem0),
            spec_step(pt0, mem0, pt1, mem1, set![spec_vpn(vaddr.0)], Set::empty()),
            vma0.pages_tree.spec_contains(vaddr) ==> pg@ == vma0.pages_tree.spec_page(vaddr)@,
            !vma0.pages_tree.spec_contains(vaddr) ==> mem0.spec_is_frame(pg.vaddr.0 as int),
        ensures
            mem1.wf(),
            mem1.spec_is_frame(pg.vaddr.0 as int),
            mem1.ram.spec_contains(pg.vaddr.0 as int, 4096),
            pg.vaddr.0 + 4096 <= u64::MAX,
    {
        lemma_step(pt0, mem0, pt1, mem1, set![spec_vpn(vaddr.0)], Set::empty(), 0, 0);
        mem1.buddy.lemma_wf();
        mem0.buddy.lemma_wf();
        if vma0.pages_tree.spec_contains(vaddr) {
            vma0.pages_tree.lemma_contains(vaddr);
            let e = vma0.pages_tree@[vma0.pages_tree.spec_index(vaddr)];
            assert(spec_frame_ok(e.page, &pt0, &mem0));
            assert(mem0.pages.spec_holds(&e.page));
            assert(pg.vaddr == e.page.vaddr);
            assert(mem0.spec_is_frame(pg.vaddr.0 as int));
        }
    }

    /// Gives the page at `vaddr` a frame if it has none. Says whether the
    /// page has a frame afterwards.
    pub fn __fast_alloc_one_page(&mut self, pt: &mut PageTable, mem: &mut MemoryManager, vaddr: Vaddr) -> (b: bool)
        requires
            old(self).wf(old(pt), old(mem)),
            old(pt).wf(old(mem)),
            vaddr.0 % 4096 == 0,
            old(self).spec_in_vma(vaddr),
        ensures
            final(self).wf(final(pt), final(mem)),
            spec_step(*old(pt), *old(mem), *final(pt), *final(mem), set![spec_vpn(vaddr.0)], Set::empty()),
            old(self).spec_same_but_pages(final(self)),
            b == final(self).pages_tree.spec_contains(vaddr),
            b == (old(self).pages_tree.spec_contains(vaddr) || (old(pt).spec_translate(old(mem), vaddr.0) is None
                && old(mem).buddy@.free_pages_from(0) >= old(pt).spec_missing(old(mem), vaddr.0) + 1)),
    {
        self.__fast_alloc_one_page_and_get(pt, mem, vaddr).is_some()
    }
}


/// A tree that has lost the entry of the page `vaddr` is well-formed again,
/// and holds the frames that it held but the one of that page.
pub proof fn lemma_tree_remove(
    before: PageTree,
    after: PageTree,
    start: Vaddr,
    end: Vaddr,
    pt: &PageTable,
    mem: &MemoryManager,
    vaddr: Vaddr,
)
    requires
        mem.wf(),
        spec_tree_ok(before, start, end, pt, mem),
        after.wf(),
        before.spec_contains(vaddr),
        !after.spec_contains(vaddr),
        forall|k: Vaddr| k != vaddr ==> (#[trigger] after.spec_contains(k) == before.spec_contains(k)),
        forall|k: Vaddr| k != vaddr && before.spec_contains(k) ==> #[trigger] after.spec_page(k) == before.spec_page(k),
    ensures
        spec_tree_ok(after, start, end, pt, mem),
        spec_frame_ok(before.spec_page(vaddr), pt, mem),
        vaddr.0 % 4096 == 0,
        start.0 <= vaddr.0 < end.0,
        forall|p: int|
            spec_tree_holds(after, mem, p) <==> (spec_tree_holds(before, mem, p) && p != mem.spec_index(
                before.spec_page(vaddr).vaddr.0 as int,
            )),
        forall|i: int| 0 <= i < after@.len() ==> (#[trigger] after@[i]).page.vaddr != before.spec_page(vaddr).vaddr,
        forall|i: int|
            0 <= i < after@.len() ==> before.spec_contains((#[trigger] after@[i]).vaddr) && before.spec_page(
                after@[i].vaddr,
            ) == after@[i].page,
{
    before.lemma_contains(vaddr);
    let gone = before.spec_index(vaddr);
    let page = before.spec_page(vaddr);
    mem.buddy.lemma_wf();
    assert forall|i: int| 0 <= i < after@.len() implies {
        &&& (#[trigger] after@[i]).vaddr.0 % 4096 == 0
        &&& start.0 <= after@[i].vaddr.0 < end.0
        &&& spec_frame_ok(after@[i].page, pt, mem)
        &&& before.spec_contains(after@[i].vaddr)
        &&& before@[before.spec_index(after@[i].vaddr)].page == after@[i].page
        &&& before.spec_index(after@[i].vaddr) != gone
        &&& after@[i].page.vaddr != page.vaddr
    } by {
        after.lemma_index(i);
        let k = after@[i].vaddr;
        assert(k != vaddr);
        assert(before.spec_contains(k));
        before.lemma_contains(k);
    }
    assert forall|i: int, j: int| 0 <= i < after@.len() && 0 <= j < after@.len() && i != j implies (
    #[trigger] after@[i]).page.vaddr != (#[trigger] after@[j]).page.vaddr by {
        after.lemma_index(i);
        after.lemma_index(j);
        before.lemma_contains(after@[i].vaddr);
        before.lemma_contains(after@[j].vaddr);
        assert(before.spec_index(after@[i].vaddr) != before.spec_index(after@[j].vaddr));
    }
    assert forall|p: int|
        spec_tree_holds(after, mem, p) <==> (spec_tree_holds(before, mem, p) && p != mem.spec_index(
            page.vaddr.0 as int,
        )) by {
        if spec_tree_holds(after, mem, p) {
            let i = choose|i: int|
                0 <= i < after@.len() && mem.spec_index((#[trigger] after@[i]).page.vaddr.0 as int) == p;
            after.lemma_index(i);
            before.lemma_contains(after@[i].vaddr);
            let j = before.spec_index(after@[i].vaddr);
            assert(mem.spec_index(before@[j].page.vaddr.0 as int) == p);
            // frames of different entries lie at different places
            assert(spec_frame_ok(after@[i].page, pt, mem));
            assert(spec_frame_ok(page, pt, mem));
            assert(after@[i].page.vaddr != page.vaddr);
        }
        if spec_tree_holds(before, mem, p) && p != mem.spec_index(page.vaddr.0 as int) {
            let j = choose|j: int|
                0 <= j < before@.len() && mem.spec_index((#[trigger] before@[j]).page.vaddr.0 as int) == p;
            before.lemma_index(j);
            let k = before@[j].vaddr;
            assert(k != vaddr);
            assert(after.spec_contains(k));
            after.lemma_contains(k);
            let i = after.spec_index(k);
            assert(mem.spec_index(after@[i].page.vaddr.0 as int) == p);
        }
    }
}

/// What it means that the page `vaddr` of an area has given its frame
/// `page` up: the page is mapped to nothing; the frame is free; the area has
/// no frame for the page, and is otherwise as it was.
pub open spec fn spec_gave_frame(vma0: VMA, vma1: VMA, pt1: PageTable, mem1: MemoryManager, vaddr: Vaddr, page: Page) -> bool {
    &&& pt1.spec_translate(&mem1, vaddr.0) is None
    &&& mem1.spec_frame_free(page.vaddr.0 as int)
    &&& vma0.spec_same_but_pages(&vma1)
    &&& vma1.pages_tree@.len() == vma0.pages_tree@.len() - 1
    &&& !vma1.pages_tree.spec_contains(vaddr)
    &&& forall|k: Vaddr| k != vaddr ==> (#[trigger] vma1.pages_tree.spec_contains(k) == vma0.pages_tree.spec_contains(k))
    &&& forall|k: Vaddr|
        k != vaddr && vma0.pages_tree.spec_contains(k) ==> #[trigger] vma1.pages_tree.spec_page(k)
            == vma0.pages_tree.spec_page(k)
}

impl VMA {
    /// The bytes of the page at `vaddr` that go back to the file when the
    /// page gives its frame up: those of the part that the file is behind, if
    /// the area has a file and has been written to.
    pub open spec fn spec_write_back(&self, vaddr: Vaddr) -> Option<FilePart> {
        if self.vm_flags.spec_contains(VM_DIRTY) {
            self.spec_file_part(vaddr)
        } else {
            None
        }
    }

    /// Takes the frame of the page at `vaddr` away: the page is unmapped
    /// and the frame is let go of. Where the area has a file behind it and
    /// has been written to, the bytes of the page that the file is behind are
    /// returned, to be written to the file. A page without a frame is left
    /// alone.
    #[verifier::rlimit(100)]
    #[verifier::spinoff_prover]
    pub fn __release_one_page(&mut self, pt: &mut PageTable, mem: &mut MemoryManager, vaddr: Vaddr) -> (r: Option<
        FileWriteBack,
    >)
        requires
            old(self).wf(old(pt), old(mem)),
            old(pt).wf(old(mem)),
            old(self).file_off + old(self).file_len <= u64::MAX,
        ensures
            final(self).wf(final(pt), final(mem)),
            final(pt).wf(final(mem)),
            old(self).spec_same_but_pages(final(self)),
            !old(self).pages_tree.spec_contains(vaddr) ==> {
                &&& r is None
                &&& *final(self) == *old(self)
                &&& *final(pt) == *old(pt)
                &&& *final(mem) == *old(mem)
            },
            old(self).pages_tree.spec_contains(vaddr) ==> {
                &&& spec_step(
                    *old(pt),
                    *old(mem),
                    *final(pt),
                    *final(mem),
                    set![spec_vpn(vaddr.0)],
                    set![old(mem).spec_index(old(self).pages_tree.spec_page(vaddr).vaddr.0 as int)],
                )
                &&& spec_gave_frame(
                    *old(self),
                    *final(self),
                    *final(pt),
                    *final(mem),
                    vaddr,
                    old(self).pages_tree.spec_page(vaddr),
                )
                &&& forall|p: int|
                    0 <= p ==> (#[trigger] final(mem).buddy@.page_free(p) <==> old(mem).buddy@.page_free(p) || p == old(mem).spec_index(old(self).pages_tree.spec_page(vaddr).vaddr.0 as int))
                &&& r is Some <==> old(self).spec_write_back(vaddr) is Some
                &&& r matches Some(wb) ==> {
                    &&& Some(wb.file) == old(self).file
                    &&& wb.file_off == old(self).spec_write_back(vaddr)->0.file_off
                    &&& wb.data@.len() == old(self).spec_write_back(vaddr)->0.len
                    &&& forall|i: int|
                        0 <= i < wb.data@.len() ==> wb.data@[i] == old(mem).ram.spec_byte(
                            old(self).pages_tree.spec_page(vaddr).vaddr.0 + old(self).spec_write_back(
                                vaddr,
                            )->0.page_off + i,
                        )
                }
            },
    {
        if !self._vaddr_have_map(vaddr) {
            return None;
        }
        let ghost tree0 = self.pages_tree;
        let removed = self.pages_tree.remove(vaddr);
        let pg = removed.unwrap();
        let ghost pt0 = *pt;
        let ghost mem0 = *mem;
        let ghost idx = mem0.spec_index(pg.vaddr.0 as int);
        proof {
            lemma_tree_remove(tree0, self.pages_tree, self.start_vaddr, self.end_vaddr, &pt0, &mem0, vaddr);
            self.lemma_after_remove(*old(self), pt0, mem0, vaddr);
        }
        // unmap the page; where that fails, the page was not mapped
        let unmapped = pt._unmap_one_page(mem, vaddr);
        let ghost pt1 = *pt;
        let ghost mem1 = *mem;
        proof {
            assert(mem1.buddy@ == mem0.buddy@);
            self.lemma_release_unmapped(*old(self), pt0, mem0, pt1, mem1, vaddr, pg, unmapped is Ok);
        }
        let part = if self.__is_dirty() {
            self._file_fill_for(vaddr, pg.vaddr)
        } else {
            None
        };
        let wb = match part {
            Some(f) => {
                let data = mem.ram.read_bytes(f.dest, f.len as usize);
                proof {
                    assert forall|i: int| 0 <= i < data@.len() implies data@[i] == old(mem).ram.spec_byte(
                        pg.vaddr.0 + old(self).spec_write_back(vaddr)->0.page_off + i,
                    ) by {
                        assert(mem1.ram.spec_byte(f.dest.0 + i) == mem0.ram.spec_byte(f.dest.0 + i));
                    }
                }
                Some(FileWriteBack { file: f.file, file_off: f.file_off, data })
            },
            None => None,
        };
        free_pages(mem, pg);
        proof {
            assert(spec_freed(&mem1, mem, &pg));
            self.lemma_release_freed(*old(self), pt0, mem0, pt1, mem1, *mem, vaddr, pg);
        }
        wb
    }

    /// What the first half of a release has brought about.
    proof fn lemma_release_unmapped(
        &self,
        vma0: VMA,
        pt0: PageTable,
        mem0: MemoryManager,
        pt1: PageTable,
        mem1: MemoryManager,
        vaddr: Vaddr,
        pg: Page,
        ok: bool,
    )
        requires
            vma0.wf(&pt0, &mem0),
            pt0.wf(&mem0),
            self.wf(&pt0, &mem0),
            vma0.pages_tree.spec_contains(vaddr),
            pg == vma0.pages_tree.spec_page(vaddr),
            spec_frame_ok(pg, &pt0, &mem0),
            vaddr.0 % 4096 == 0,
            vma0.spec_in_vma(vaddr),
            !spec_tree_holds(self.pages_tree, &mem0, mem0.spec_index(pg.vaddr.0 as int)),
            vma0.cow_write_reserve_pgs == self.cow_write_reserve_pgs,
            pt1.wf(&mem1),
            ok ==> pt1.spec_translate(&mem1, vaddr.0) is None && spec_grown(
                pt0,
                mem0,
                pt1,
                mem1,
                set![spec_vpn(vaddr.0)],
            ),
            !ok ==> pt0.spec_translate(&mem0, vaddr.0) is None && spec_grown(pt0, mem0, pt1, mem1, Set::empty()),
        ensures
            spec_step(pt0, mem0, pt1, mem1, set![spec_vpn(vaddr.0)], Set::empty()),
            self.wf(&pt1, &mem1),
            spec_frame_ok(pg, &pt1, &mem1),
            pt1.spec_translate(&mem1, vaddr.0) is None,
            mem1.wf(),
            mem1.buddy@.start == mem0.buddy@.start,
            mem1.ram.spec_contains(pg.vaddr.0 as int, 4096),
            pg.vaddr.0 + 4096 <= u64::MAX,
            vaddr.0 + 4096 <= u64::MAX,
            forall|a: int|
                pg.vaddr.0 <= a < pg.vaddr.0 + 4096 ==> #[trigger] mem1.ram.spec_byte(a) == mem0.ram.spec_byte(a),
            !self.spec_holds_frame(&mem1, mem0.spec_index(pg.vaddr.0 as int)),
    {
        pt0.lemma_walk(&mem0, vaddr.0);
        mem0.buddy.lemma_wf();
        lemma_allocate_count(mem0.buddy@, 0);
        if !ok {
            crate::mm::pagetable::lemma_grown_more(pt0, mem0, pt1, mem1, Set::empty(), set![spec_vpn(vaddr.0)]);
            lemma_grown(pt0, mem0, pt1, mem1, Set::empty(), vaddr.0);
            assert(pt0.spec_covers(vaddr.0));
        }
        lemma_step_from_grown(pt0, mem0, pt1, mem1, set![spec_vpn(vaddr.0)]);
        self.lemma_vma_step(pt0, mem0, pt1, mem1, set![spec_vpn(vaddr.0)], Set::empty());
        lemma_frame_step(pg, pt0, mem0, pt1, mem1, set![spec_vpn(vaddr.0)], Set::empty());
        lemma_step(pt0, mem0, pt1, mem1, set![spec_vpn(vaddr.0)], Set::empty(), 0, 0);
        mem1.buddy.lemma_wf();
        let idx = mem0.spec_index(pg.vaddr.0 as int);
        if self.cow_write_reserve_pgs is Some {
            let res = self.cow_write_reserve_pgs->0;
            if spec_tree_holds(res, &mem0, idx) {
                let i = choose|i: int|
                    0 <= i < res@.len() && mem0.spec_index((#[trigger] res@[i]).page.vaddr.0 as int) == idx;
                vma0.pages_tree.lemma_contains(vaddr);
                let gone = vma0.pages_tree.spec_index(vaddr);
                assert(spec_frame_ok(res@[i].page, &pt0, &mem0));
                assert(res@[i].page.vaddr != vma0.pages_tree@[gone].page.vaddr);
                assert(false);
            }
        }
    }

    /// What the second half of a release has brought about.
    proof fn lemma_release_freed(
        &self,
        vma0: VMA,
        pt0: PageTable,
        mem0: MemoryManager,
        pt1: PageTable,
        mem1: MemoryManager,
        mem2: MemoryManager,
        vaddr: Vaddr,
        pg: Page,
    )
        requires
            mem0.wf(),
            vma0.spec_in_vma(vaddr),
            vma0.wf(&pt0, &mem0),
            spec_step(pt0, mem0, pt1, mem1, set![spec_vpn(vaddr.0)], Set::empty()),
            self.wf(&pt1, &mem1),
            spec_frame_ok(pg, &pt1, &mem1),
            pt1.spec_translate(&mem1, vaddr.0) is None,
            mem1.wf(),
            mem1.buddy@.start == mem0.buddy@.start,
            !self.spec_holds_frame(&mem1, mem0.spec_index(pg.vaddr.0 as int)),
            spec_freed(&mem1, &mem2, &pg),
        ensures
            spec_step(pt0, mem0, pt1, mem2, set![spec_vpn(vaddr.0)], set![mem0.spec_index(pg.vaddr.0 as int)]),
            self.wf(&pt1, &mem2),
            pt1.wf(&mem2),
            pt1.spec_translate(&mem2, vaddr.0) is None,
            mem2.spec_frame_free(pg.vaddr.0 as int),
    {
        let idx = mem0.spec_index(pg.vaddr.0 as int);
        lemma_step(pt0, mem0, pt1, mem1, set![spec_vpn(vaddr.0)], Set::empty(), vaddr.0, 0);
        lemma_step_from_free(pt1, mem1, mem2, pg);
        lemma_step_trans(
            pt0,
            mem0,
            pt1,
            mem1,
            pt1,
            mem2,
            set![spec_vpn(vaddr.0)],
            Set::empty(),
            Set::empty(),
            set![idx],
        );
        assert(set![spec_vpn(vaddr.0)].union(Set::empty()) =~= set![spec_vpn(vaddr.0)]);
        assert(Set::<int>::empty().union(set![idx]) =~= set![idx]);
        self.lemma_vma_step(pt1, mem1, pt1, mem2, Set::empty(), set![idx]);
        lemma_step(pt1, mem1, pt1, mem2, Set::empty(), set![idx], vaddr.0, 0);
        assert(pt1.spec_covers(vaddr.0)) by {
            assert(pt0.spec_covers(vaddr.0));
        }
    }

    /// An area that has lost the entry of the page `vaddr` is well-formed
    /// again.
    proof fn lemma_after_remove(&self, vma0: VMA, pt: PageTable, mem: MemoryManager, vaddr: Vaddr)
        requires
            vma0.wf(&pt, &mem),
            vma0.spec_same_but_pages(self),
            spec_tree_ok(self.pages_tree, vma0.start_vaddr, vma0.end_vaddr, &pt, &mem),
            forall|i: int|
                0 <= i < self.pages_tree@.len() ==> vma0.pages_tree.spec_contains(
                    (#[trigger] self.pages_tree@[i]).vaddr,
                ) && vma0.pages_tree.spec_page(self.pages_tree@[i].vaddr) == self.pages_tree@[i].page,
        ensures
            self.wf(&pt, &mem),
    {
        if self.cow_write_reserve_pgs is Some {
            let res = self.cow_write_reserve_pgs->0;
            assert forall|i: int, j: int| 0 <= i < res@.len() && 0 <= j < self.pages_tree@.len() implies (
            #[trigger] res@[i]).page.vaddr != (#[trigger] self.pages_tree@[j]).page.vaddr by {
                let k = self.pages_tree@[j].vaddr;
                vma0.pages_tree.lemma_contains(k);
            }
        }
    }
}


/// Different pages of one area have different numbers.
pub proof fn lemma_vma_vpn(start: u64, end: u64, a: u64, b: u64)
    requires
        start % 4096 == 0,
        end - start <= 0x80_0000_0000,
        start <= a < end,
        start <= b < end,
        a % 4096 == 0,
        b % 4096 == 0,
        a != b,
    ensures
        spec_vpn(a) != spec_vpn(b),
{
    let ja = ((a - start) / 4096) as u64;
    let jb = ((b - start) / 4096) as u64;
    assert(a == start + ja * 4096);
    assert(b == start + jb * 4096);
    if ja < jb {
        lemma_vpn_offset(start, ja, jb);
    } else {
        lemma_vpn_offset(start, jb, ja);
    }
}

impl VMA {
    /// The numbers of the pages of the area that have got a frame.
    pub open spec fn spec_page_vpns(&self) -> Set<u64> {
        Set::new(|p: u64| exists|k: Vaddr| #[trigger] self.pages_tree.spec_contains(k) && p == spec_vpn(k.0))
    }

    /// The places of the frames that the area holds.
    pub open spec fn spec_frames(&self, mem: &MemoryManager) -> Set<int> {
        Set::new(|p: int| self.spec_holds_frame(mem, p))
    }

    /// Takes the frames of all pages of the area away; the frames in
    /// reserve stay. Returns what has to be written back to the file behind
    /// the area.
    #[verifier::rlimit(100)]
    #[verifier::spinoff_prover]
    pub fn _release_all_page(&mut self, pt: &mut PageTable, mem: &mut MemoryManager) -> (r: Vec<FileWriteBack>)
        requires
            old(self).wf(old(pt), old(mem)),
            old(pt).wf(old(mem)),
            old(self).file_off + old(self).file_len <= u64::MAX,
        ensures
            final(self).wf(final(pt), final(mem)),
            final(pt).wf(final(mem)),
            old(self).spec_same_but_pages(final(self)),
            final(self).pages_tree@.len() == 0,
            spec_step(
                *old(pt),
                *old(mem),
                *final(pt),
                *final(mem),
                old(self).spec_page_vpns(),
                old(self).spec_frames(old(mem)),
            ),
            forall|k: Vaddr| #[trigger]
                old(self).pages_tree.spec_contains(k) ==> final(pt).spec_translate(final(mem), k.0) is None,
            forall|k: Vaddr| #[trigger]
                old(self).pages_tree.spec_contains(k) ==> final(mem).spec_frame_free(
                    old(self).pages_tree.spec_page(k).vaddr.0 as int,
                ),
            forall|p: int| 0 <= p && old(mem).buddy@.page_free(p) ==> #[trigger] final(mem).buddy@.page_free(p),
            forall|k: Vaddr| #[trigger]
                old(self).pages_tree.spec_contains(k) && old(self).spec_write_back(k) is Some ==> spec_has_write_back(
                    *old(self),
                    old(mem),
                    k,
                    r@,
                ),
            forall|i: int| 0 <= i < r@.len() ==> spec_from_page(*old(self), old(mem), #[trigger] r@[i]),
            forall|i: int|
                0 <= i < r@.len() ==> Some((#[trigger] r@[i]).file) == old(self).file && old(self).vm_flags.spec_contains(
                    VM_DIRTY,
                ),
            !old(self).vm_flags.spec_contains(VM_DIRTY) || old(self).spec_is_anon() ==> r@.len() == 0,
    {
        let mut ret: Vec<FileWriteBack> = Vec::new();
        let ghost touched = old(self).spec_page_vpns();
        let ghost given = old(self).spec_frames(old(mem));
        proof {
            lemma_step_refl(*pt, *mem);
            lemma_step_more(*pt, *mem, *pt, *mem, Set::empty(), Set::empty(), touched, given);
        }
        while self.pages_tree.len() > 0
            invariant
                old(self).wf(old(pt), old(mem)),
                old(pt).wf(old(mem)),
                self.wf(pt, mem),
                pt.wf(mem),
                old(self).spec_same_but_pages(self),
                self.file_off + self.file_len <= u64::MAX,
                touched == old(self).spec_page_vpns(),
                given == old(self).spec_frames(old(mem)),
                spec_step(*old(pt), *old(mem), *pt, *mem, touched, given),
                forall|k: Vaddr| #[trigger]
                    self.pages_tree.spec_contains(k) ==> old(self).pages_tree.spec_contains(k)
                        && self.pages_tree.spec_page(k) == old(self).pages_tree.spec_page(k),
                forall|k: Vaddr| #[trigger]
                    old(self).pages_tree.spec_contains(k) ==> self.pages_tree.spec_contains(k) || pt.spec_translate(
                        mem,
                        k.0,
                    ) is None,
                mem.buddy@.start == old(mem).buddy@.start,
                forall|k: Vaddr| #[trigger]
                    old(self).pages_tree.spec_contains(k) ==> self.pages_tree.spec_contains(k) || mem.spec_frame_free(
                        old(self).pages_tree.spec_page(k).vaddr.0 as int,
                    ),
                forall|p: int| 0 <= p && old(mem).buddy@.page_free(p) ==> #[trigger] mem.buddy@.page_free(p),
                forall|k: Vaddr| #[trigger]
                    old(self).pages_tree.spec_contains(k) ==> self.pages_tree.spec_contains(k) || old(self).spec_write_back(k) is None || spec_has_write_back(*old(self), old(mem), k, ret@),
                forall|i: int| 0 <= i < ret@.len() ==> spec_from_page(*old(self), old(mem), #[trigger] ret@[i]),
                forall|k: Vaddr| #[trigger]
                    self.pages_tree.spec_contains(k) ==> spec_same_frame(
                        old(mem),
                        mem,
                        self.pages_tree.spec_page(k).vaddr.0 as int,
                    ),
                forall|i: int|
                    0 <= i < ret@.len() ==> Some((#[trigger] ret@[i]).file) == old(self).file && old(self).vm_flags.spec_contains(VM_DIRTY),
                !old(self).vm_flags.spec_contains(VM_DIRTY) || old(self).spec_is_anon() ==> ret@.len() == 0,
            decreases self.pages_tree@.len(),
        {
            let n = self.pages_tree.len();
            let key = self.pages_tree.key_at(n - 1);
            let ghost vma1 = *self;
            let ghost pt1 = *pt;
            let ghost mem1 = *mem;
            proof {
                self.pages_tree.lemma_index(n - 1);
            }
            let wb = self.__release_one_page(pt, mem, key);
            proof {
                let page = vma1.pages_tree.spec_page(key);
                let idx = mem1.spec_index(page.vaddr.0 as int);
                old(self).lemma_teardown_step(
                    *old(pt),
                    *old(mem),
                    vma1,
                    pt1,
                    mem1,
                    *self,
                    *pt,
                    *mem,
                    key,
                );
                lemma_step(pt1, mem1, *pt, *mem, set![spec_vpn(key.0)], set![idx], 0, 0);
                assert forall|k: Vaddr| #[trigger] old(self).pages_tree.spec_contains(k) implies self.pages_tree.spec_contains(
                    k,
                ) || mem.spec_frame_free(old(self).pages_tree.spec_page(k).vaddr.0 as int) by {
                    if k != key && !vma1.pages_tree.spec_contains(k) {
                        let a = old(self).pages_tree.spec_page(k).vaddr.0 as int;
                        old(self).pages_tree.lemma_contains(k);
                        let n0 = old(self).pages_tree.spec_index(k);
                        assert(spec_frame_ok(old(self).pages_tree@[n0].page, old(pt), old(mem)));
                        assert(mem1.spec_frame_free(a));
                        assert(mem1.spec_index(a) >= 0);
                    }
                }
            }
            let ghost ret1 = ret@;
            let ghost got = wb;
            match wb {
                Some(w) => {
                    ret.push(w);
                },
                None => {},
            }
            proof {
                lemma_teardown_requests(*old(self), *old(mem), vma1, pt1, mem1, *self, *pt, *mem, key, got, ret1, ret@);
            }
        }
        proof {
            assert forall|k: Vaddr| #[trigger] old(self).pages_tree.spec_contains(k) implies pt.spec_translate(
                mem,
                k.0,
            ) is None by {
                if self.pages_tree.spec_contains(k) {
                    self.pages_tree.lemma_contains(k);
                }
            }
        }
        ret
    }

    /// One round of a teardown: the release of the page `key` goes with
    /// what the rounds before have done.
    proof fn lemma_teardown_step(
        &self,
        pt0: PageTable,
        mem0: MemoryManager,
        vma1: VMA,
        pt1: PageTable,
        mem1: MemoryManager,
        vma2: VMA,
        pt2: PageTable,
        mem2: MemoryManager,
        key: Vaddr,
    )
        requires
            self.wf(&pt0, &mem0),
            pt0.wf(&mem0),
            vma1.wf(&pt1, &mem1),
            self.spec_same_but_pages(&vma1),
            spec_step(pt0, mem0, pt1, mem1, self.spec_page_vpns(), self.spec_frames(&mem0)),
            forall|k: Vaddr| #[trigger]
                vma1.pages_tree.spec_contains(k) ==> self.pages_tree.spec_contains(k) && vma1.pages_tree.spec_page(k)
                    == self.pages_tree.spec_page(k),
            forall|k: Vaddr| #[trigger]
                self.pages_tree.spec_contains(k) ==> vma1.pages_tree.spec_contains(k) || pt1.spec_translate(
                    &mem1,
                    k.0,
                ) is None,
            vma1.pages_tree.spec_contains(key),
            spec_step(
                pt1,
                mem1,
                pt2,
                mem2,
                set![spec_vpn(key.0)],
                set![mem1.spec_index(vma1.pages_tree.spec_page(key).vaddr.0 as int)],
            ),
            spec_gave_frame(vma1, vma2, pt2, mem2, key, vma1.pages_tree.spec_page(key)),
        ensures
            spec_step(pt0, mem0, pt2, mem2, self.spec_page_vpns(), self.spec_frames(&mem0)),
            forall|k: Vaddr| #[trigger]
                vma2.pages_tree.spec_contains(k) ==> self.pages_tree.spec_contains(k) && vma2.pages_tree.spec_page(k)
                    == self.pages_tree.spec_page(k),
            forall|k: Vaddr| #[trigger]
                self.pages_tree.spec_contains(k) ==> vma2.pages_tree.spec_contains(k) || pt2.spec_translate(
                    &mem2,
                    k.0,
                ) is None,
    {
        let touched = self.spec_page_vpns();
        let given = self.spec_frames(&mem0);
        let page = vma1.pages_tree.spec_page(key);
        let idx = mem1.spec_index(page.vaddr.0 as int);
        lemma_step(pt0, mem0, pt1, mem1, touched, given, 0, 0);
        assert(self.pages_tree.spec_contains(key));
        assert(touched.contains(spec_vpn(key.0)));
        // the frame is one that the area held when the teardown began
        self.pages_tree.lemma_contains(key);
        let j = self.pages_tree.spec_index(key);
        assert(mem0.spec_index(self.pages_tree@[j].page.vaddr.0 as int) == idx);
        assert(spec_tree_holds(self.pages_tree, &mem0, idx));
        assert(given.contains(idx));
        lemma_step_more(pt1, mem1, pt2, mem2, set![spec_vpn(key.0)], set![idx], touched, given);
        lemma_step_trans(pt0, mem0, pt1, mem1, pt2, mem2, touched, given, touched, given);
        assert(touched.union(touched) =~= touched);
        assert(given.union(given) =~= given);
        assert forall|k: Vaddr| #[trigger] self.pages_tree.spec_contains(k) implies vma2.pages_tree.spec_contains(k)
            || pt2.spec_translate(&mem2, k.0) is None by {
            if k != key && !vma1.pages_tree.spec_contains(k) {
                // a page released earlier lies elsewhere and stays unmapped
                self.pages_tree.lemma_contains(k);
                let i = self.pages_tree.spec_index(k);
                assert(self.pages_tree@[i].vaddr == k);
                assert(self.pages_tree@[j].vaddr == key);
                lemma_vma_vpn(self.start_vaddr.0, self.end_vaddr.0, k.0, key.0);
                lemma_step(pt1, mem1, pt2, mem2, set![spec_vpn(key.0)], set![idx], k.0, 0);
                lemma_step(pt0, mem0, pt1, mem1, touched, given, k.0, 0);
                assert(pt0.spec_covers(k.0));
            }
        }
    }
}


/// What a tree holds does not depend on the memory, as long as the frames
/// are counted from the same start.
pub proof fn lemma_tree_holds_same(tree: PageTree, mem0: MemoryManager, mem1: MemoryManager)
    requires
        mem0.buddy@.start == mem1.buddy@.start,
    ensures
        forall|p: int| #[trigger] spec_tree_holds(tree, &mem1, p) == spec_tree_holds(tree, &mem0, p),
{
    assert forall|p: int| #[trigger] spec_tree_holds(tree, &mem1, p) == spec_tree_holds(tree, &mem0, p) by {
        if spec_tree_holds(tree, &mem1, p) {
            let i = choose|i: int| 0 <= i < tree@.len() && mem1.spec_index((#[trigger] tree@[i]).page.vaddr.0 as int) == p;
            assert(mem0.spec_index(tree@[i].page.vaddr.0 as int) == p);
        }
        if spec_tree_holds(tree, &mem0, p) {
            let i = choose|i: int| 0 <= i < tree@.len() && mem0.spec_index((#[trigger] tree@[i]).page.vaddr.0 as int) == p;
            assert(mem1.spec_index(tree@[i].page.vaddr.0 as int) == p);
        }
    }
}

/// A tree in which the page `vaddr` has been given the fresh frame `page`,
/// in place of the frame that it had if it had one, is well-formed again.
pub proof fn lemma_tree_put(
    before: PageTree,
    after: PageTree,
    start: Vaddr,
    end: Vaddr,
    pt: &PageTable,
    mem: &MemoryManager,
    vaddr: Vaddr,
    page: Page,
)
    requires
        mem.wf(),
        spec_tree_ok(before, start, end, pt, mem),
        after.wf(),
        after.spec_contains(vaddr),
        after.spec_page(vaddr) == page,
        forall|k: Vaddr| k != vaddr ==> (#[trigger] after.spec_contains(k) == before.spec_contains(k)),
        forall|k: Vaddr| k != vaddr && before.spec_contains(k) ==> #[trigger] after.spec_page(k) == before.spec_page(k),
        vaddr.0 % 4096 == 0,
        start.0 <= vaddr.0 < end.0,
        spec_frame_ok(page, pt, mem),
        forall|i: int| 0 <= i < before@.len() ==> (#[trigger] before@[i]).page.vaddr != page.vaddr,
    ensures
        spec_tree_ok(after, start, end, pt, mem),
        forall|p: int|
            spec_tree_holds(after, mem, p) <==> ((spec_tree_holds(before, mem, p) && !(before.spec_contains(vaddr)
                && p == mem.spec_index(before.spec_page(vaddr).vaddr.0 as int))) || p == mem.spec_index(
                page.vaddr.0 as int,
            )),
        forall|i: int|
            0 <= i < after@.len() && after@[i].vaddr != vaddr ==> before.spec_contains((#[trigger] after@[i]).vaddr)
                && before.spec_page(after@[i].vaddr) == after@[i].page,
{
    mem.buddy.lemma_wf();
    assert forall|i: int| 0 <= i < after@.len() implies {
        &&& (#[trigger] after@[i]).vaddr.0 % 4096 == 0
        &&& start.0 <= after@[i].vaddr.0 < end.0
        &&& spec_frame_ok(after@[i].page, pt, mem)
        &&& (after@[i].vaddr != vaddr ==> before.spec_contains(after@[i].vaddr) && before@[before.spec_index(
            after@[i].vaddr,
        )].page == after@[i].page)
        &&& (after@[i].vaddr == vaddr ==> after@[i].page == page)
    } by {
        after.lemma_index(i);
        let k = after@[i].vaddr;
        if k != vaddr {
            assert(before.spec_contains(k));
            before.lemma_contains(k);
        }
    }
    assert forall|i: int, j: int| 0 <= i < after@.len() && 0 <= j < after@.len() && i != j implies (
    #[trigger] after@[i]).page.vaddr != (#[trigger] after@[j]).page.vaddr by {
        after.lemma_index(i);
        after.lemma_index(j);
        let ki = after@[i].vaddr;
        let kj = after@[j].vaddr;
        if ki != vaddr {
            before.lemma_contains(ki);
        }
        if kj != vaddr {
            before.lemma_contains(kj);
        }
        if ki != vaddr && kj != vaddr {
            assert(before.spec_index(ki) != before.spec_index(kj));
        }
    }
    assert forall|p: int|
        spec_tree_holds(after, mem, p) <==> ((spec_tree_holds(before, mem, p) && !(before.spec_contains(vaddr) && p
            == mem.spec_index(before.spec_page(vaddr).vaddr.0 as int))) || p == mem.spec_index(
            page.vaddr.0 as int,
        )) by {
        if spec_tree_holds(after, mem, p) {
            let i = choose|i: int|
                0 <= i < after@.len() && mem.spec_index((#[trigger] after@[i]).page.vaddr.0 as int) == p;
            after.lemma_index(i);
            if after@[i].vaddr != vaddr {
                before.lemma_contains(after@[i].vaddr);
                let j = before.spec_index(after@[i].vaddr);
                assert(mem.spec_index(before@[j].page.vaddr.0 as int) == p);
                if before.spec_contains(vaddr) {
                    before.lemma_contains(vaddr);
                    let g = before.spec_index(vaddr);
                    assert(g != j);
                    assert(spec_frame_ok(before@[g].page, pt, mem));
                    assert(spec_frame_ok(before@[j].page, pt, mem));
                    assert(before@[g].page.vaddr != before@[j].page.vaddr);
                }
            }
        }
        if spec_tree_holds(before, mem, p) && !(before.spec_contains(vaddr) && p == mem.spec_index(
            before.spec_page(vaddr).vaddr.0 as int,
        )) {
            let j = choose|j: int|
                0 <= j < before@.len() && mem.spec_index((#[trigger] before@[j]).page.vaddr.0 as int) == p;
            before.lemma_index(j);
            let k = before@[j].vaddr;
            assert(k != vaddr);
            assert(after.spec_contains(k));
            after.lemma_contains(k);
            let i = after.spec_index(k);
            assert(mem.spec_index(after@[i].page.vaddr.0 as int) == p);
        }
        if p == mem.spec_index(page.vaddr.0 as int) {
            after.lemma_contains(vaddr);
            let i = after.spec_index(vaddr);
            assert(mem.spec_index(after@[i].page.vaddr.0 as int) == p);
        }
    }
}

/// What it means that the page `vaddr` of an area has got the fresh frame
/// `page` with a copy of the frame at `src`: the frame was free and is held
/// once now; it holds what the frame at `src` held; the page is mapped to
/// the new frame with the rights of the area; and the area has entered the
/// new frame for the page.
pub open spec fn spec_got_copy(
    vma0: VMA,
    mem0: MemoryManager,
    vma1: VMA,
    pt1: PageTable,
    mem1: MemoryManager,
    vaddr: Vaddr,
    page: Page,
    src: Vaddr,
) -> bool {
    &&& mem0.spec_is_frame(page.vaddr.0 as int)
    &&& mem0.spec_frame_free(page.vaddr.0 as int)
    &&& page.vaddr != src
    &&& spec_frame_ok(page, &pt1, &mem1)
    &&& forall|i: int| 0 <= i < 4096 ==> #[trigger] mem1.ram.spec_byte(page.vaddr.0 + i) == mem0.ram.spec_byte(src.0 + i)
    &&& pt1.spec_translate(&mem1, vaddr.0) == Some(
        PTE::spec_new((page.vaddr.0 - PHY_MEM_OFFSET) as u64, spec_vma_flags_2_pte_flags(vma0.vm_flags) | 1u8),
    )
    &&& vma1.pages_tree.spec_contains(vaddr)
    &&& vma1.pages_tree.spec_page(vaddr)@ == page@
    &&& forall|k: Vaddr| k != vaddr ==> (#[trigger] vma1.pages_tree.spec_contains(k) == vma0.pages_tree.spec_contains(k))
    &&& forall|k: Vaddr|
        k != vaddr && vma0.pages_tree.spec_contains(k) ==> #[trigger] vma1.pages_tree.spec_page(k)
            == vma0.pages_tree.spec_page(k)
}

/// What the allocation of a frame, the copy of the frame at `src` into it
/// and the mapping of the page `vaddr` of an area to it amount to: a step
/// that touches that page and gives the new frame only; the area is still
/// well-formed; the new frame is held, is no table, holds what the frame at
/// `src` held, and is none of the frames of the area.
pub proof fn lemma_copy_installed(
    vma0: VMA,
    pt0: PageTable,
    mem0: MemoryManager,
    mem1: MemoryManager,
    mem2: MemoryManager,
    pt3: PageTable,
    mem3: MemoryManager,
    vaddr: Vaddr,
    page: Page,
    src: Vaddr,
    entry: PTE,
)
    requires
        vma0.wf(&pt0, &mem0),
        pt0.wf(&mem0),
        mem1.wf(),
        mem1.buddy@.start == mem0.buddy@.start,
        mem1.buddy@.pages == mem0.buddy@.pages,
        spec_allocated(&mem0, &mem1, 0, &page),
        mem0.spec_is_frame(src.0 as int),
        !mem0.spec_frame_free(src.0 as int),
        mem2.wf(),
        mem2.buddy@ == mem1.buddy@,
        mem2.pages@ == mem1.pages@,
        mem1.ram.same_but(&mem2.ram, page.vaddr.0 as int, 4096),
        forall|i: int| 0 <= i < 4096 ==> #[trigger] mem2.ram.spec_byte(page.vaddr.0 + i) == mem1.ram.spec_byte(src.0 + i),
        spec_entry_set(pt0, mem2, pt3, mem3, vaddr.0, entry),
    ensures
        spec_step(
            pt0,
            mem0,
            pt3,
            mem3,
            set![spec_vpn(vaddr.0)],
            set![mem0.spec_index(page.vaddr.0 as int)],
        ),
        vma0.wf(&pt3, &mem3),
        spec_frame_ok(page, &pt3, &mem3),
        mem0.spec_is_frame(page.vaddr.0 as int),
        mem0.spec_frame_free(page.vaddr.0 as int),
        page.vaddr != src,
        forall|i: int| 0 <= i < 4096 ==> #[trigger] mem3.ram.spec_byte(page.vaddr.0 + i) == mem0.ram.spec_byte(src.0 + i),
        !pt0.spec_tables().contains(src.0 as int) ==> forall|i: int|
            0 <= i < 4096 ==> #[trigger] mem3.ram.spec_byte(src.0 + i) == mem0.ram.spec_byte(src.0 + i),
        forall|i: int|
            0 <= i < vma0.pages_tree@.len() ==> (#[trigger] vma0.pages_tree@[i]).page.vaddr != page.vaddr,
        vma0.cow_write_reserve_pgs matches Some(res) ==> forall|i: int|
            0 <= i < res@.len() ==> (#[trigger] res@[i]).page.vaddr != page.vaddr,
        !vma0.spec_holds_frame(&mem0, mem0.spec_index(page.vaddr.0 as int)),
{
    lemma_step_from_alloc(pt0, mem0, mem1, 0, page);
    mem0.buddy.lemma_wf();
    mem1.buddy.lemma_wf();
    mem2.buddy.lemma_wf();
    crate::utils::lemma_order2pages_values();
    let fidx = mem0.spec_index(page.vaddr.0 as int);
    let sidx = mem0.spec_index(src.0 as int);
    let touched = set![spec_vpn(vaddr.0)];
    let given = set![fidx];
    assert forall|p: int| spec_in_block(p, fidx, 0) <==> p == fidx by {
        assert(crate::mm::buddy_model::spec_ancestor(p, 0) == p);
        assert(crate::mm::buddy_model::spec_ancestor(fidx, 0) == fidx);
    }
    assert(spec_in_block(fidx, fidx, 0));
    assert(mem0.buddy@.page_free(fidx));
    assert(fidx != sidx);
    assert(page.vaddr != src);
    assert(!pt0.spec_tables().contains(page.vaddr.0 as int)) by {
        if pt0.spec_tables().contains(page.vaddr.0 as int) {
            assert(!mem0.spec_frame_free(page.vaddr.0 as int));
        }
    }
    assert(spec_frame_ok(page, &pt0, &mem1));
    lemma_step_from_write(pt0, mem1, mem2, page, page.vaddr.0 as int, 4096);
    lemma_step_from_grown(pt0, mem2, pt3, mem3, touched);
    lemma_step_trans(pt0, mem0, pt0, mem1, pt0, mem2, Set::empty(), Set::empty(), Set::empty(), given);
    assert(Set::<u64>::empty().union(Set::empty()) =~= Set::<u64>::empty());
    assert(Set::<int>::empty().union(given) =~= given);
    lemma_step_trans(pt0, mem0, pt0, mem2, pt3, mem3, Set::empty(), given, touched, Set::empty());
    assert(Set::<u64>::empty().union(touched) =~= touched);
    assert(given.union(Set::empty()) =~= given);
    assert forall|i: int| 0 <= i < vma0.pages_tree@.len() implies (#[trigger] vma0.pages_tree@[i]).page.vaddr
        != page.vaddr by {
        let e = vma0.pages_tree@[i];
        assert(spec_frame_ok(e.page, &pt0, &mem0));
        assert(mem0.pages@[mem0.spec_index(e.page.vaddr.0 as int)] is Some);
    }
    if vma0.cow_write_reserve_pgs is Some {
        let res = vma0.cow_write_reserve_pgs->0;
        assert forall|i: int| 0 <= i < res@.len() implies (#[trigger] res@[i]).page.vaddr != page.vaddr by {
            let e = res@[i];
            assert(spec_frame_ok(e.page, &pt0, &mem0));
            assert(mem0.pages@[mem0.spec_index(e.page.vaddr.0 as int)] is Some);
        }
    }
    assert(!vma0.spec_holds_frame(&mem0, fidx)) by {
        if spec_tree_holds(vma0.pages_tree, &mem0, fidx) {
            let i = choose|i: int|
                0 <= i < vma0.pages_tree@.len() && mem0.spec_index(
                    (#[trigger] vma0.pages_tree@[i]).page.vaddr.0 as int,
                ) == fidx;
            assert(spec_frame_ok(vma0.pages_tree@[i].page, &pt0, &mem0));
            assert(mem0.pages@[fidx] is Some);
        }
        if vma0.cow_write_reserve_pgs is Some {
            let res = vma0.cow_write_reserve_pgs->0;
            if spec_tree_holds(res, &mem0, fidx) {
                let i = choose|i: int|
                    0 <= i < res@.len() && mem0.spec_index((#[trigger] res@[i]).page.vaddr.0 as int) == fidx;
                assert(spec_frame_ok(res@[i].page, &pt0, &mem0));
                assert(mem0.pages@[fidx] is Some);
            }
        }
    }
    vma0.lemma_vma_step(pt0, mem0, pt3, mem3, touched, given);
    lemma_frame_step(page, pt0, mem2, pt3, mem3, touched, Set::empty());
    // the bytes of the two frames
    assert(page.vaddr.0 % 4096 == 0 && src.0 % 4096 == 0);
    assert forall|i: int| 0 <= i < 4096 implies #[trigger] mem1.ram.spec_byte(src.0 + i) == mem0.ram.spec_byte(
        src.0 + i,
    ) by {
        let a = src.0 + i;
        assert(mem0.ram.spec_contains(a, 1));
        assert(!(page.vaddr.0 <= a < page.vaddr.0 + 4096));
    }
    if !pt0.spec_tables().contains(src.0 as int) {
        assert forall|i: int| 0 <= i < 4096 implies #[trigger] mem3.ram.spec_byte(src.0 + i) == mem0.ram.spec_byte(
            src.0 + i,
        ) by {
            reveal(spec_step);
            let a = src.0 + i;
            assert(mem0.ram.spec_contains(a, 1));
            crate::mm::step::lemma_in_frame(mem0.buddy@.start, src.0 as int, a);
            assert(mem0.spec_index(a) == sidx);
            assert(spec_frame_of(a) == src.0);
            assert(!pt3.spec_tables().contains(src.0 as int));
        }

    }
}

/// After the allocation of the frame `page`, the frame at `src`, which was
/// in use, is another frame, and both lie in the memory; the page table is
/// as it was.
pub proof fn lemma_copy_ready(
    pt0: PageTable,
    mem0: MemoryManager,
    mem1: MemoryManager,
    page: Page,
    src: Vaddr,
    vaddr: Vaddr,
)
    requires
        pt0.wf(&mem0),
        pt0.spec_covers(vaddr.0),
        mem1.wf(),
        mem1.buddy@.start == mem0.buddy@.start,
        mem1.buddy@.pages == mem0.buddy@.pages,
        spec_allocated(&mem0, &mem1, 0, &page),
        mem0.spec_is_frame(src.0 as int),
        !mem0.spec_frame_free(src.0 as int),
    ensures
        pt0.wf(&mem1),
        mem1.ram.spec_contains(page.vaddr.0 as int, 4096),
        mem1.ram.spec_contains(src.0 as int, 4096),
        page.vaddr.0 + 4096 <= src.0 || src.0 + 4096 <= page.vaddr.0,
{
    lemma_step_from_alloc(pt0, mem0, mem1, 0, page);
    let fidx = mem0.spec_index(page.vaddr.0 as int);
    assert(crate::mm::buddy_model::spec_ancestor(fidx, 0) == fidx);
    assert(spec_in_block(fidx, fidx, 0));
    assert(mem0.buddy@.page_free(fidx));
    assert(mem0.spec_index(src.0 as int) != fidx);
    assert(page.vaddr.0 != src.0);
    assert(page.vaddr.0 % 4096 == 0 && src.0 % 4096 == 0);
    assert(mem1.ram@.len() == mem1.buddy@.pages * 4096);
}

/// After the copy of the frame at `src` into the fresh frame `page`, the
/// page table is as it was, and as many tables are missing on the way of
/// `vaddr` as were.
pub proof fn lemma_copy_made(
    pt0: PageTable,
    mem0: MemoryManager,
    mem1: MemoryManager,
    mem2: MemoryManager,
    page: Page,
    src: Vaddr,
    vaddr: Vaddr,
)
    requires
        pt0.wf(&mem0),
        pt0.spec_covers(vaddr.0),
        mem1.wf(),
        mem1.buddy@.start == mem0.buddy@.start,
        mem1.buddy@.pages == mem0.buddy@.pages,
        spec_allocated(&mem0, &mem1, 0, &page),
        mem2.wf(),
        mem2.buddy@ == mem1.buddy@,
        mem2.pages@ == mem1.pages@,
        mem1.ram.same_but(&mem2.ram, page.vaddr.0 as int, 4096),
    ensures
        pt0.wf(&mem2),
        pt0.spec_missing(&mem2, vaddr.0) == pt0.spec_missing(&mem0, vaddr.0),
{
    lemma_step_from_alloc(pt0, mem0, mem1, 0, page);
    lemma_kept(pt0, mem0, mem1);
    mem0.buddy.lemma_wf();
    mem1.buddy.lemma_wf();
    crate::utils::lemma_order2pages_values();
    let fidx = mem0.spec_index(page.vaddr.0 as int);
    assert forall|p: int| spec_in_block(p, fidx, 0) <==> p == fidx by {
        assert(crate::mm::buddy_model::spec_ancestor(p, 0) == p);
        assert(crate::mm::buddy_model::spec_ancestor(fidx, 0) == fidx);
    }
    assert(spec_in_block(fidx, fidx, 0));
    assert(mem0.buddy@.page_free(fidx));
    assert(!pt0.spec_tables().contains(page.vaddr.0 as int)) by {
        if pt0.spec_tables().contains(page.vaddr.0 as int) {
            assert(!mem0.spec_frame_free(page.vaddr.0 as int));
        }
    }
    lemma_step_from_write(pt0, mem1, mem2, page, page.vaddr.0 as int, 4096);
    lemma_kept(pt0, mem1, mem2);
}

/// What the installation of a copy has brought about.
pub open spec fn spec_copy_result(
    vma0: VMA,
    pt0: PageTable,
    mem0: MemoryManager,
    vma1: VMA,
    pt1: PageTable,
    mem1: MemoryManager,
    vaddr: Vaddr,
    page: Page,
    src: Vaddr,
) -> bool {
    &&& pt1.wf(&mem1)
    &&& vma1.wf(&pt1, &mem1)
    &&& vma0.spec_same_but_pages(&vma1)
    &&& mem1.buddy@.free_pages_from(0) == mem0.buddy@.free_pages_from(0) - pt0.spec_missing(&mem0, vaddr.0) - 1
    &&& pt0.spec_missing(&mem0, vaddr.0) == 0 ==> mem1.pages@ == crate::mm::page::spec_take_block(
        mem0.pages@,
        mem0.spec_index(page.vaddr.0 as int),
        0,
    ) && crate::mm::page::spec_live_count(mem1.pages@) == crate::mm::page::spec_live_count(mem0.pages@) + 1
    &&& spec_step(pt0, mem0, pt1, mem1, set![spec_vpn(vaddr.0)], set![mem0.spec_index(page.vaddr.0 as int)])
    &&& spec_got_copy(vma0, mem0, vma1, pt1, mem1, vaddr, page, src)
    &&& vma0.pages_tree.spec_contains(vaddr) ==> spec_frame_ok(vma0.pages_tree.spec_page(vaddr), &pt1, &mem1)
    &&& forall|p: int|
        spec_tree_holds(vma1.pages_tree, &mem1, p) <==> ((spec_tree_holds(vma0.pages_tree, &mem0, p) && !(
        vma0.pages_tree.spec_contains(vaddr) && p == mem0.spec_index(
            vma0.pages_tree.spec_page(vaddr).vaddr.0 as int,
        ))) || p == mem0.spec_index(page.vaddr.0 as int))
}

/// The installation of a copy, from its steps.
pub proof fn lemma_copy_done(
    vma0: VMA,
    pt0: PageTable,
    mem0: MemoryManager,
    mem1: MemoryManager,
    mem2: MemoryManager,
    vma3: VMA,
    pt3: PageTable,
    mem3: MemoryManager,
    vaddr: Vaddr,
    page: Page,
    kept: Page,
    src: Vaddr,
)
    requires
        vma0.wf(&pt0, &mem0),
        pt0.wf(&mem0),
        vaddr.0 % 4096 == 0,
        vma0.spec_in_vma(vaddr),
        mem1.wf(),
        mem1.buddy@.start == mem0.buddy@.start,
        mem1.buddy@.pages == mem0.buddy@.pages,
        spec_allocated(&mem0, &mem1, 0, &page),
        mem1.buddy@.free_pages_from(0) == mem0.buddy@.free_pages_from(0) - 1,
        pt0.spec_missing(&mem2, vaddr.0) == pt0.spec_missing(&mem0, vaddr.0),
        pt0.spec_missing(&mem2, vaddr.0) == 0 ==> mem3.pages@ == mem2.pages@,
        mem0.spec_is_frame(src.0 as int),
        !mem0.spec_frame_free(src.0 as int),
        mem2.wf(),
        mem2.buddy@ == mem1.buddy@,
        mem2.pages@ == mem1.pages@,
        mem1.ram.same_but(&mem2.ram, page.vaddr.0 as int, 4096),
        forall|i: int| 0 <= i < 4096 ==> #[trigger] mem2.ram.spec_byte(page.vaddr.0 + i) == mem1.ram.spec_byte(src.0 + i),
        spec_entry_set(
            pt0,
            mem2,
            pt3,
            mem3,
            vaddr.0,
            PTE::spec_new((page.vaddr.0 - PHY_MEM_OFFSET) as u64, spec_vma_flags_2_pte_flags(vma0.vm_flags) | 1u8),
        ),
        kept@ == page@,
        kept.inner.friends@ == page.inner.friends@,
        vma0.spec_same_but_pages(&vma3),
        vma3.pages_tree.wf(),
        vma3.pages_tree.spec_contains(vaddr),
        vma3.pages_tree.spec_page(vaddr) == kept,
        forall|k: Vaddr| k != vaddr ==> (#[trigger] vma3.pages_tree.spec_contains(k) == vma0.pages_tree.spec_contains(k)),
        forall|k: Vaddr|
            k != vaddr && vma0.pages_tree.spec_contains(k) ==> #[trigger] vma3.pages_tree.spec_page(k)
                == vma0.pages_tree.spec_page(k),
    ensures
        spec_copy_result(vma0, pt0, mem0, vma3, pt3, mem3, vaddr, page, src),
{
    if pt0.spec_missing(&mem0, vaddr.0) == 0 {
        let idx = mem0.spec_index(page.vaddr.0 as int);
        mem0.buddy.lemma_wf();
        assert(spec_in_block(idx, idx, 0)) by {
            assert(crate::mm::buddy_model::spec_ancestor(idx, 0) == idx);
        }
        assert(mem0.pages@[idx] is None);
        assert(0 <= idx < mem0.pages@.len());
        crate::mm::page::lemma_take_one(mem0.pages@, idx);
    }
    lemma_pte_flags(spec_vma_flags_2_pte_flags(vma0.vm_flags), 0);
    PTE::lemma_entry(
        0,
        PTE::spec_from(0),
        (page.vaddr.0 - PHY_MEM_OFFSET) as u64,
        spec_vma_flags_2_pte_flags(vma0.vm_flags) | 1u8,
    );
    lemma_copy_installed(
        vma0,
        pt0,
        mem0,
        mem1,
        mem2,
        pt3,
        mem3,
        vaddr,
        page,
        src,
        PTE::spec_new((page.vaddr.0 - PHY_MEM_OFFSET) as u64, spec_vma_flags_2_pte_flags(vma0.vm_flags) | 1u8),
    );
    assert(spec_frame_ok(kept, &pt3, &mem3));
    lemma_tree_put(vma0.pages_tree, vma3.pages_tree, vma3.start_vaddr, vma3.end_vaddr, &pt3, &mem3, vaddr, kept);
    vma0.lemma_put_wf(vma3, &pt3, &mem3, vaddr, kept);
    lemma_step(pt0, mem0, pt3, mem3, set![spec_vpn(vaddr.0)], set![mem0.spec_index(page.vaddr.0 as int)], 0, 0);
    lemma_tree_holds_same(vma0.pages_tree, mem0, mem3);
    if vma0.pages_tree.spec_contains(vaddr) {
        vma0.pages_tree.lemma_contains(vaddr);
    }
}

impl VMA {
    /// An area whose page `vaddr` has got a fresh frame in place of the one
    /// it had is well-formed, given that its tree of pages is.
    pub proof fn lemma_put_wf(&self, after: VMA, pt: &PageTable, mem: &MemoryManager, vaddr: Vaddr, page: Page)
        requires
            self.wf(pt, mem),
            self.spec_same_but_pages(&after),
            spec_tree_ok(after.pages_tree, after.start_vaddr, after.end_vaddr, pt, mem),
            after.pages_tree.spec_page(vaddr) == page,
            forall|i: int|
                0 <= i < after.pages_tree@.len() && after.pages_tree@[i].vaddr != vaddr
                    ==> self.pages_tree.spec_contains((#[trigger] after.pages_tree@[i]).vaddr)
                    && self.pages_tree.spec_page(after.pages_tree@[i].vaddr) == after.pages_tree@[i].page,
            self.cow_write_reserve_pgs matches Some(res) ==> forall|i: int|
                0 <= i < res@.len() ==> (#[trigger] res@[i]).page.vaddr != page.vaddr,
        ensures
            after.wf(pt, mem),
    {
        if after.cow_write_reserve_pgs is Some {
            let res = after.cow_write_reserve_pgs->0;
            assert forall|i: int, j: int| 0 <= i < res@.len() && 0 <= j < after.pages_tree@.len() implies (
            #[trigger] res@[i]).page.vaddr != (#[trigger] after.pages_tree@[j]).page.vaddr by {
                after.pages_tree.lemma_index(j);
                let k = after.pages_tree@[j].vaddr;
                if k != vaddr {
                    self.pages_tree.lemma_contains(k);
                }
            }
        }
    }

    /// Gives the page at `vaddr` a fresh frame of its own that holds a copy
    /// of the frame at `src`, and maps the page to it with the rights of the
    /// area, whatever it was mapped to. Returns the new frame and, if the
    /// page had a frame, that one, which the area holds no longer. Fails,
    /// changing nothing, where the free frames do not suffice for the frame
    /// and for the tables that are missing on the way of `vaddr`.
    #[verifier::rlimit(100)]
    #[verifier::spinoff_prover]
    pub fn _install_copy(&mut self, pt: &mut PageTable, mem: &mut MemoryManager, vaddr: Vaddr, src: Vaddr) -> (r:
        Option<(Page, Option<Page>)>)
        requires
            old(self).wf(old(pt), old(mem)),
            old(pt).wf(old(mem)),
            vaddr.0 % 4096 == 0,
            old(self).spec_in_vma(vaddr),
            old(mem).spec_is_frame(src.0 as int),
            !old(mem).spec_frame_free(src.0 as int),
        ensures
            final(pt).wf(final(mem)),
            final(self).wf(final(pt), final(mem)),
            r is Some <==> old(mem).buddy@.free_pages_from(0) >= old(pt).spec_missing(old(mem), vaddr.0) + 1,
            r is None ==> *final(self) == *old(self) && *final(pt) == *old(pt) && *final(mem) == *old(mem),
            r matches Some((page, replaced)) ==> {
                &&& spec_copy_result(
                    *old(self),
                    *old(pt),
                    *old(mem),
                    *final(self),
                    *final(pt),
                    *final(mem),
                    vaddr,
                    page,
                    src,
                )
                &&& replaced is Some <==> old(self).pages_tree.spec_contains(vaddr)
                &&& replaced matches Some(before) ==> before == old(self).pages_tree.spec_page(vaddr)
            },
    {
        proof {
            pt.lemma_walk(mem, vaddr.0);
        }
        let missing = pt._missing_tables(mem, vaddr.0);
        if mem.buddy.get_free_pages_cnt() < missing + 1 {
            return None;
        }
        let ghost pt0 = *pt;
        let ghost mem0 = *mem;
        let got = alloc_one_page(mem);
        let new_pg = got.unwrap();
        let ghost mem1 = *mem;
        proof {
            lemma_copy_ready(pt0, mem0, mem1, new_pg, src, vaddr);
        }
        mem.ram.copy_page(new_pg.vaddr, src);
        let ghost mem2 = *mem;
        proof {
            lemma_copy_made(pt0, mem0, mem1, mem2, new_pg, src, vaddr);
        }
        let flags = _vma_flags_2_pte_flags(self.vm_flags);
        pt._force_map_one(mem, vaddr.0, new_pg.get_paddr().0, flags | PTE_V);
        let kept = new_pg.clone();
        let replaced = self.pages_tree.insert(vaddr, kept);
        proof {
            lemma_pte_flags(spec_vma_flags_2_pte_flags(self.vm_flags), 0);
            lemma_copy_done(*old(self), pt0, mem0, mem1, mem2, *self, *pt, *mem, vaddr, new_pg, kept, src);
        }
        Some((new_pg, replaced))
    }
}


impl VMA {
    /// Whether `other` is this area but for the frames that it holds, for
    /// pages and in reserve.
    pub open spec fn spec_same_but_frames(&self, other: &VMA) -> bool {
        &&& other.start_vaddr == self.start_vaddr
        &&& other.end_vaddr == self.end_vaddr
        &&& other.vm_flags == self.vm_flags
        &&& other.file == self.file
        &&& other.file_off == self.file_off
        &&& other.file_in_vma_off == self.file_in_vma_off
        &&& other.file_len == self.file_len
        &&& other.phy_pgs_cnt == self.phy_pgs_cnt
        &&& other.cow_write_reserve_pgs is Some == self.cow_write_reserve_pgs is Some
    }

    /// Whether `other` is this area but for the pages with a frame and for
    /// the reserve.
    pub open spec fn spec_same_but_trees(&self, other: &VMA) -> bool {
        &&& other.start_vaddr == self.start_vaddr
        &&& other.end_vaddr == self.end_vaddr
        &&& other.vm_flags == self.vm_flags
        &&& other.file == self.file
        &&& other.file_off == self.file_off
        &&& other.file_in_vma_off == self.file_in_vma_off
        &&& other.file_len == self.file_len
        &&& other.phy_pgs_cnt == self.phy_pgs_cnt
    }

    /// Whether the page `vaddr` has a frame that another address space may
    /// share: the area keeps a reserve, as it does once a copy of its address
    /// space has been made.
    pub open spec fn spec_shared(&self, vaddr: Vaddr) -> bool {
        &&& self.pages_tree.spec_contains(vaddr)
        &&& self.cow_write_reserve_pgs is Some
    }

    /// Whether the reserve has room for the frame of the page `vaddr`: the
    /// area keeps a reserve, and nothing is in it for the page.
    pub open spec fn spec_reserve_open(&self, vaddr: Vaddr) -> bool {
        self.cow_write_reserve_pgs matches Some(res) && !res.spec_contains(vaddr)
    }

    /// Gives the page at `vaddr`, which has no frame of its own in this
    /// area, a fresh frame with a copy of the frame `data_pg`, and maps the
    /// page to it with the rights of the area, whatever it was mapped to.
    /// Fails, changing nothing, where the page has a frame already, and
    /// where the free frames do not suffice for the frame and for the tables
    /// that are missing on the way of `vaddr`.
    pub fn _cow_remap_one_page(&mut self, pt: &mut PageTable, mem: &mut MemoryManager, vaddr: Vaddr, data_pg: &Page) -> (r:
        Result<(), ()>)
        requires
            old(self).wf(old(pt), old(mem)),
            old(pt).wf(old(mem)),
            vaddr.0 % 4096 == 0,
            old(self).spec_in_vma(vaddr),
            old(mem).spec_is_frame(data_pg.vaddr.0 as int),
            !old(mem).spec_frame_free(data_pg.vaddr.0 as int),
        ensures
            final(pt).wf(final(mem)),
            final(self).wf(final(pt), final(mem)),
            r is Ok <==> !old(self).pages_tree.spec_contains(vaddr) && old(mem).buddy@.free_pages_from(0) >= old(pt).spec_missing(old(mem), vaddr.0) + 1,
            r is Err ==> *final(self) == *old(self) && *final(pt) == *old(pt) && *final(mem) == *old(mem),
            r is Ok ==> {
                let page = final(self).pages_tree.spec_page(vaddr);
                &&& old(self).spec_same_but_pages(final(self))
                &&& spec_step(
                    *old(pt),
                    *old(mem),
                    *final(pt),
                    *final(mem),
                    set![spec_vpn(vaddr.0)],
                    set![old(mem).spec_index(page.vaddr.0 as int)],
                )
                &&& spec_got_copy(
                    *old(self),
                    *old(mem),
                    *final(self),
                    *final(pt),
                    *final(mem),
                    vaddr,
                    page,
                    data_pg.vaddr,
                )
                &&& forall|p: int|
                    final(self).spec_holds_frame(final(mem), p) <==> (old(self).spec_holds_frame(old(mem), p) || p
                        == old(mem).spec_index(page.vaddr.0 as int))
            },
    {
        if self._vaddr_have_map(vaddr) {
            return Err(());
        }
        let ghost mem0 = *mem;
        match self._install_copy(pt, mem, vaddr, data_pg.get_vaddr()) {
            Some(_) => {
                proof {
                    let page = self.pages_tree.spec_page(vaddr);
                    lemma_step(*old(pt), mem0, *pt, *mem, set![spec_vpn(vaddr.0)], set![mem0.spec_index(page.vaddr.0 as int)], 0, 0);
                    lemma_tree_holds_same(old(self).pages_tree, mem0, *mem);
                    if self.cow_write_reserve_pgs is Some {
                        lemma_tree_holds_same(self.cow_write_reserve_pgs->0, mem0, *mem);
                    }
                }
                Ok(())
            },
            None => Err(()),
        }
    }

    /// Parts the page at `vaddr` from those that share its frame: the page
    /// gets a fresh frame with a copy, to which it is mapped with the rights
    /// of the area. The frame that it had holds what it held and stays in
    /// use for those that share it: it goes to the reserve, unless the
    /// reserve has a frame for the page from an earlier copy, in which case
    /// the area lets go of it without making it free. Returns the new frame.
    /// Fails, changing nothing, where the page is not shared, and where the
    /// free frames do not suffice for the frame and for the tables that are
    /// missing on the way of `vaddr`.
    pub fn _cow_reserve_one_page(&mut self, pt: &mut PageTable, mem: &mut MemoryManager, vaddr: Vaddr) -> (r: Result<
        Page,
        (),
    >)
        requires
            old(self).wf(old(pt), old(mem)),
            old(pt).wf(old(mem)),
            vaddr.0 % 4096 == 0,
            old(self).spec_in_vma(vaddr),
        ensures
            final(pt).wf(final(mem)),
            final(self).wf(final(pt), final(mem)),
            r is Ok <==> old(self).spec_shared(vaddr) && old(mem).buddy@.free_pages_from(0) >= old(pt).spec_missing(
                old(mem),
                vaddr.0,
            ) + 1,
            r is Err ==> *final(self) == *old(self) && *final(pt) == *old(pt) && *final(mem) == *old(mem),
            r matches Ok(page) ==> {
                let kept = old(self).pages_tree.spec_page(vaddr);
                &&& old(self).spec_same_but_frames(final(self))
                &&& spec_step(
                    *old(pt),
                    *old(mem),
                    *final(pt),
                    *final(mem),
                    set![spec_vpn(vaddr.0)],
                    set![old(mem).spec_index(page.vaddr.0 as int)],
                )
                &&& spec_got_copy(*old(self), *old(mem), *final(self), *final(pt), *final(mem), vaddr, page, kept.vaddr)
                &&& final(self).cow_write_reserve_pgs matches Some(res) && res.spec_contains(vaddr) && (old(self).spec_reserve_open(vaddr) ==> res.spec_page(vaddr) == kept)
                &&& !old(self).spec_reserve_open(vaddr) ==> final(self).cow_write_reserve_pgs == old(self).cow_write_reserve_pgs
                &&& forall|p: int|
                    final(self).spec_holds_frame(final(mem), p) ==> (old(self).spec_holds_frame(old(mem), p) || p
                        == old(mem).spec_index(page.vaddr.0 as int))
                &&& final(self).spec_holds_frame(final(mem), old(mem).spec_index(page.vaddr.0 as int))
                &&& spec_frame_ok(kept, final(pt), final(mem))
                &&& final(mem).buddy@.free_pages_from(0) == old(mem).buddy@.free_pages_from(0) - old(pt).spec_missing(
                    old(mem),
                    vaddr.0,
                ) - 1
                &&& old(pt).spec_missing(old(mem), vaddr.0) == 0 ==> crate::mm::page::spec_live_count(final(mem).pages@)
                    == crate::mm::page::spec_live_count(old(mem).pages@) + 1
            },
    {
        let (shared, open) = match &self.cow_write_reserve_pgs {
            Some(res) => (true, !res.contains_key(vaddr)),
            None => (false, false),
        };
        let kept = match self._find_page(vaddr) {
            Some(pg) => pg,
            None => {
                return Err(());
            },
        };
        if !shared {
            return Err(());
        }
        let ghost mem0 = *mem;
        let ghost pt0 = *pt;
        proof {
            old(self).pages_tree.lemma_contains(vaddr);
            let i = old(self).pages_tree.spec_index(vaddr);
            assert(spec_frame_ok(old(self).pages_tree@[i].page, &pt0, &mem0));
            mem0.buddy.lemma_wf();
        }
        match self._install_copy(pt, mem, vaddr, kept.get_vaddr()) {
            Some((page, replaced)) => {
                let ghost mid = *self;
                let before = replaced.unwrap();
                proof {
                    lemma_step(pt0, mem0, *pt, *mem, set![spec_vpn(vaddr.0)], set![mem0.spec_index(page.vaddr.0 as int)], 0, 0);
                    self.pages_tree.lemma_contains(vaddr);
                    let n = self.pages_tree.spec_index(vaddr);
                    assert(mem.spec_index(self.pages_tree@[n].page.vaddr.0 as int) == mem0.spec_index(
                        page.vaddr.0 as int,
                    ));
                    assert(spec_tree_holds(self.pages_tree, mem, mem0.spec_index(page.vaddr.0 as int)));
                    lemma_tree_holds_same(old(self).pages_tree, mem0, *mem);
                    if self.cow_write_reserve_pgs is Some {
                        lemma_tree_holds_same(self.cow_write_reserve_pgs->0, mem0, *mem);
                    }
                }
                if open {
                    let mut reserve = self.cow_write_reserve_pgs.take().unwrap();
                    reserve.insert(vaddr, before);
                    self.cow_write_reserve_pgs = Some(reserve);
                    proof {
                        old(self).lemma_reserved(mid, *self, pt0, mem0, pt, mem, vaddr, page, before);
                    }
                }
                Ok(page)
            },
            None => Err(()),
        }
    }

    /// An area is well-formed after the frame that the page `vaddr` had has
    /// gone to the reserve, and holds what it held and the new frame of the
    /// page.
    proof fn lemma_reserved(
        &self,
        mid: VMA,
        after: VMA,
        pt0: PageTable,
        mem0: MemoryManager,
        pt: &PageTable,
        mem: &MemoryManager,
        vaddr: Vaddr,
        page: Page,
        before: Page,
    )
        requires
            mem.wf(),
            mem.buddy@.start == mem0.buddy@.start,
            self.wf(&pt0, &mem0),
            self.spec_shared(vaddr),
            self.spec_reserve_open(vaddr),
            vaddr.0 % 4096 == 0,
            self.spec_in_vma(vaddr),
            mid.wf(pt, mem),
            self.spec_same_but_pages(&mid),
            before == self.pages_tree.spec_page(vaddr),
            spec_frame_ok(before, pt, mem),
            mid.pages_tree.spec_contains(vaddr),
            mid.pages_tree.spec_page(vaddr)@ == page@,
            page.vaddr != before.vaddr,
            forall|p: int|
                spec_tree_holds(mid.pages_tree, mem, p) <==> ((spec_tree_holds(self.pages_tree, &mem0, p) && !(
                self.pages_tree.spec_contains(vaddr) && p == mem0.spec_index(
                    self.pages_tree.spec_page(vaddr).vaddr.0 as int,
                ))) || p == mem0.spec_index(page.vaddr.0 as int)),
            forall|k: Vaddr|
                k != vaddr && self.pages_tree.spec_contains(k) ==> mid.pages_tree.spec_contains(k)
                    && #[trigger] mid.pages_tree.spec_page(k) == self.pages_tree.spec_page(k),
            forall|k: Vaddr| k != vaddr ==> (#[trigger] mid.pages_tree.spec_contains(k) == self.pages_tree.spec_contains(k)),
            after.pages_tree == mid.pages_tree,
            self.spec_same_but_frames(&after),
            after.cow_write_reserve_pgs is Some,
            ({
                let r0 = self.cow_write_reserve_pgs->0;
                let r1 = after.cow_write_reserve_pgs->0;
                &&& r1.wf()
                &&& r1.spec_contains(vaddr)
                &&& r1.spec_page(vaddr) == before
                &&& forall|k: Vaddr| k != vaddr ==> (#[trigger] r1.spec_contains(k) == r0.spec_contains(k))
                &&& forall|k: Vaddr| k != vaddr && r0.spec_contains(k) ==> #[trigger] r1.spec_page(k) == r0.spec_page(k)
            }),
        ensures
            after.wf(pt, mem),
            forall|p: int|
                after.spec_holds_frame(mem, p) <==> (self.spec_holds_frame(&mem0, p) || p == mem0.spec_index(
                    page.vaddr.0 as int,
                )),
    {
        let r0 = self.cow_write_reserve_pgs->0;
        let r1 = after.cow_write_reserve_pgs->0;
        let t0 = self.pages_tree;
        let t1 = after.pages_tree;
        self.pages_tree.lemma_contains(vaddr);
        let bi = t0.spec_index(vaddr);
        assert(t0@[bi].page == before);
        assert(mid.cow_write_reserve_pgs == Some(r0));
        assert forall|i: int| 0 <= i < r0@.len() implies (#[trigger] r0@[i]).page.vaddr != before.vaddr by {
            assert(r0@[i].page.vaddr != t0@[bi].page.vaddr);
        }
        lemma_tree_insert(r0, r1, after.start_vaddr, after.end_vaddr, pt, mem, vaddr, before);
        assert forall|i: int, j: int| 0 <= i < r1@.len() && 0 <= j < t1@.len() implies (#[trigger] r1@[i]).page.vaddr
            != (#[trigger] t1@[j]).page.vaddr by {
            r1.lemma_index(i);
            t1.lemma_index(j);
            let ki = r1@[i].vaddr;
            let kj = t1@[j].vaddr;
            if ki != vaddr {
                r0.lemma_contains(ki);
                let i0 = r0.spec_index(ki);
                assert(r0@[i0].page == r1@[i].page);
                assert(r0@[i0].page.vaddr != t1@[j].page.vaddr);
            } else {
                assert(r1@[i].page == before);
                if kj != vaddr {
                    t0.lemma_contains(kj);
                    let j0 = t0.spec_index(kj);
                    assert(t0@[j0].page == t1@[j].page);
                    assert(j0 != bi);
                } else {
                    assert(t1@[j].page@ == page@);
                }
            }
        }
        lemma_tree_holds_same(r0, mem0, *mem);
        assert forall|p: int|
            after.spec_holds_frame(mem, p) <==> (self.spec_holds_frame(&mem0, p) || p == mem0.spec_index(
                page.vaddr.0 as int,
            )) by {
            let bp = mem0.spec_index(before.vaddr.0 as int);
            assert(mem0.spec_index(t0@[bi].page.vaddr.0 as int) == bp);
            assert(spec_tree_holds(t0, &mem0, bp));
        }
    }
}


/// The address of a frame of its own is that of its place, which is a place
/// of the memory, in use; and the frame is no table.
pub proof fn lemma_frame_place(pt: &PageTable, mem: &MemoryManager, page: Page)
    requires
        mem.wf(),
        spec_frame_ok(page, pt, mem),
    ensures
        0 <= mem.spec_index(page.vaddr.0 as int) < mem.pages@.len(),
        page.vaddr.0 == mem.buddy@.start + mem.spec_index(page.vaddr.0 as int) * 4096,
        mem.pages@[mem.spec_index(page.vaddr.0 as int)] is Some,
        !mem.buddy@.page_free(mem.spec_index(page.vaddr.0 as int)),
        !pt.spec_tables().contains(mem.buddy@.start + mem.spec_index(page.vaddr.0 as int) * 4096),
{
    let start = mem.buddy@.start;
    let a = page.vaddr.0 as int;
    assert(mem.pages.spec_holds(&page));
    assert(page.wf());
    assert(a % 4096 == 0);
    assert(start == mem.pages.spec_start());
    mem.buddy.lemma_wf();
    assert(start % 4096 == 0);
    assert(a >= start);
    lemma_aligned_place(start, a);
    assert(mem.spec_index(a) == mem.pages.spec_index(a));
}

/// An address that starts a page is that of its place.
pub proof fn lemma_aligned_place(start: int, a: int)
    requires
        start % 4096 == 0,
        a % 4096 == 0,
        start <= a,
    ensures
        a == start + ((a - start) / 4096) * 4096,
        0 <= (a - start) / 4096,
{
}

impl VMA {
    /// A frame that an area holds is in use, and is no table.
    pub proof fn lemma_held(&self, pt: &PageTable, mem: &MemoryManager, p: int)
        requires
            mem.wf(),
            self.wf(pt, mem),
            self.spec_holds_frame(mem, p),
        ensures
            0 <= p < mem.pages@.len(),
            mem.pages@[p] is Some,
            !mem.buddy@.page_free(p),
            !pt.spec_tables().contains(mem.buddy@.start + p * 4096),
    {
        let page = if spec_tree_holds(self.pages_tree, mem, p) {
            let i = choose|i: int|
                0 <= i < self.pages_tree@.len() && mem.spec_index((#[trigger] self.pages_tree@[i]).page.vaddr.0 as int)
                    == p;
            self.pages_tree@[i].page
        } else {
            let res = self.cow_write_reserve_pgs->0;
            let i = choose|i: int| 0 <= i < res@.len() && mem.spec_index((#[trigger] res@[i]).page.vaddr.0 as int) == p;
            res@[i].page
        };
        assert(spec_frame_ok(page, pt, mem));
        lemma_frame_place(pt, mem, page);
    }

    /// What an area holds does not depend on the memory, as long as the
    /// frames are counted from the same start.
    pub proof fn lemma_holds_same(&self, mem0: MemoryManager, mem1: MemoryManager)
        requires
            mem0.buddy@.start == mem1.buddy@.start,
        ensures
            forall|p: int| #[trigger] self.spec_holds_frame(&mem1, p) == self.spec_holds_frame(&mem0, p),
    {
        lemma_tree_holds_same(self.pages_tree, mem0, mem1);
        if self.cow_write_reserve_pgs is Some {
            lemma_tree_holds_same(self.cow_write_reserve_pgs->0, mem0, mem1);
        }
    }
}


impl VMA {
    /// Whether the page `vaddr` has a frame that another address space may
    /// still share.
    pub fn _is_shared(&self, vaddr: Vaddr) -> (b: bool)
        requires
            self.pages_tree.wf(),
            self.cow_write_reserve_pgs matches Some(res) ==> res.wf(),
        ensures
            b == self.spec_shared(vaddr),
    {
        if !self.pages_tree.contains_key(vaddr) {
            return false;
        }
        self.cow_write_reserve_pgs.is_some()
    }
}


/// An area whose page `vaddr` has got its first frame holds that frame and
/// what it held, and nothing else.
pub proof fn lemma_got_frame_holds(
    vma0: VMA,
    mem0: MemoryManager,
    vma1: VMA,
    pt1: PageTable,
    mem1: MemoryManager,
    vaddr: Vaddr,
    page: Page,
)
    requires
        spec_got_frame(vma0, mem0, vma1, pt1, mem1, vaddr, page),
        vma0.pages_tree.wf(),
        vma1.pages_tree.wf(),
        !vma0.pages_tree.spec_contains(vaddr),
        mem0.buddy@.start == mem1.buddy@.start,
    ensures
        forall|p: int|
            vma1.spec_holds_frame(&mem1, p) ==> vma0.spec_holds_frame(&mem0, p) || p == mem0.spec_index(
                page.vaddr.0 as int,
            ),
{
    let t0 = vma0.pages_tree;
    let t1 = vma1.pages_tree;
    vma0.lemma_holds_same(mem0, mem1);
    assert forall|p: int| vma1.spec_holds_frame(&mem1, p) implies vma0.spec_holds_frame(&mem0, p) || p
        == mem0.spec_index(page.vaddr.0 as int) by {
        if spec_tree_holds(t1, &mem1, p) {
            let i = choose|i: int| 0 <= i < t1@.len() && mem1.spec_index((#[trigger] t1@[i]).page.vaddr.0 as int) == p;
            t1.lemma_index(i);
            let k = t1@[i].vaddr;
            if k != vaddr {
                assert(t0.spec_contains(k));
                t0.lemma_contains(k);
                let j = t0.spec_index(k);
                assert(mem0.spec_index(t0@[j].page.vaddr.0 as int) == p);
            } else {
                assert(t1@[i].page@ == page@);
            }
        } else {
            let res = vma1.cow_write_reserve_pgs->0;
            assert(vma0.cow_write_reserve_pgs == Some(res));
            lemma_tree_holds_same(res, mem0, mem1);
        }
    }
}




impl PageTree {
    /// Takes the pages from `vaddr` on out of the tree and returns them
    /// with their frames; the pages below `vaddr` stay.
    pub fn split_off(&mut self, vaddr: Vaddr) -> (upper: PageTree)
        requires
            old(self).wf(),
        ensures
            final(self).wf(),
            upper.wf(),
            final(self)@.len() + upper@.len() == old(self)@.len(),
            forall|i: int|
                0 <= i < final(self)@.len() ==> (#[trigger] final(self)@[i]).vaddr.0 < vaddr.0 && old(self).spec_contains(
                    final(self)@[i].vaddr,
                ) && old(self).spec_page(final(self)@[i].vaddr) == final(self)@[i].page,
            forall|i: int|
                0 <= i < upper@.len() ==> (#[trigger] upper@[i]).vaddr.0 >= vaddr.0 && old(self).spec_contains(
                    upper@[i].vaddr,
                ) && old(self).spec_page(upper@[i].vaddr) == upper@[i].page,
            forall|i: int|
                0 <= i < old(self)@.len() ==> if (#[trigger] old(self)@[i]).vaddr.0 < vaddr.0 {
                    final(self).spec_contains(old(self)@[i].vaddr)
                } else {
                    upper.spec_contains(old(self)@[i].vaddr)
                },
    {
        let mut low: Vec<PageEntry> = Vec::new();
        let mut high: Vec<PageEntry> = Vec::new();
        let ghost all = self.entries@;
        let ghost mut low_from: Seq<int> = Seq::empty();
        let ghost mut high_from: Seq<int> = Seq::empty();
        while self.entries.len() > 0
            invariant
                all == old(self)@,
                old(self).wf(),
                self.entries@.len() <= all.len(),
                self.entries@ == all.subrange(0, self.entries@.len() as int),
                low_from.len() == low@.len(),
                high_from.len() == high@.len(),
                low@.len() + high@.len() + self.entries@.len() == all.len(),
                forall|j: int|
                    0 <= j < low@.len() ==> self.entries@.len() <= #[trigger] low_from[j] < all.len() && low@[j]
                        == all[low_from[j]] && low@[j].vaddr.0 < vaddr.0,
                forall|j: int|
                    0 <= j < high@.len() ==> self.entries@.len() <= #[trigger] high_from[j] < all.len() && high@[j]
                        == all[high_from[j]] && high@[j].vaddr.0 >= vaddr.0,
                forall|a: int, b: int| 0 <= a < b < low@.len() ==> #[trigger] low_from[a] > #[trigger] low_from[b],
                forall|a: int, b: int| 0 <= a < b < high@.len() ==> #[trigger] high_from[a] > #[trigger] high_from[b],
                forall|i: int|
                    self.entries@.len() <= i < all.len() ==> if (#[trigger] all[i]).vaddr.0 < vaddr.0 {
                        exists|j: int| 0 <= j < low@.len() && #[trigger] low_from[j] == i
                    } else {
                        exists|j: int| 0 <= j < high@.len() && #[trigger] high_from[j] == i
                    },
            decreases self.entries@.len(),
        {
            let ghost n = self.entries@.len() - 1;
            let ghost low0 = low_from;
            let ghost high0 = high_from;
            let e = self.entries.pop().unwrap();
            proof {
                assert(e == all[n]);
                assert(self.entries@ =~= all.subrange(0, n));
            }
            if e.vaddr.0 < vaddr.0 {
                low.push(e);
                proof {
                    low_from = low_from.push(n);
                }
            } else {
                high.push(e);
                proof {
                    high_from = high_from.push(n);
                }
            }
            proof {
                assert forall|i: int| self.entries@.len() <= i < all.len() implies if (#[trigger] all[i]).vaddr.0
                    < vaddr.0 {
                    exists|j: int| 0 <= j < low@.len() && #[trigger] low_from[j] == i
                } else {
                    exists|j: int| 0 <= j < high@.len() && #[trigger] high_from[j] == i
                } by {
                    if i == n {
                        if all[i].vaddr.0 < vaddr.0 {
                            assert(low_from[low@.len() - 1] == i);
                        } else {
                            assert(high_from[high@.len() - 1] == i);
                        }
                    } else {
                        if all[i].vaddr.0 < vaddr.0 {
                            let j = choose|j: int| 0 <= j < low0.len() && #[trigger] low0[j] == i;
                            assert(low_from[j] == i);
                        } else {
                            let j = choose|j: int| 0 <= j < high0.len() && #[trigger] high0[j] == i;
                            assert(high_from[j] == i);
                        }
                    }
                }
            }
        }
        self.entries = low;
        let upper = PageTree { entries: high };
        proof {
            let keep = self@;
            assert forall|i: int| 0 <= i < keep.len() implies (#[trigger] keep[i]).vaddr.0 < vaddr.0 && old(self).spec_contains(keep[i].vaddr) && old(self).spec_page(keep[i].vaddr) == keep[i].page by {
                old(self).lemma_index(low_from[i]);
            }
            assert forall|i: int| 0 <= i < upper@.len() implies (#[trigger] upper@[i]).vaddr.0 >= vaddr.0 && old(self).spec_contains(upper@[i].vaddr) && old(self).spec_page(upper@[i].vaddr) == upper@[i].page by {
                old(self).lemma_index(high_from[i]);
            }
            assert forall|a: int, b: int| 0 <= a < keep.len() && 0 <= b < keep.len() && a != b implies (
            #[trigger] keep[a]).vaddr != (#[trigger] keep[b]).vaddr by {
                assert(low_from[a] != low_from[b]) by {
                    if a < b {
                        assert(low_from[a] > low_from[b]);
                    } else {
                        assert(low_from[b] > low_from[a]);
                    }
                }
            }
            assert forall|a: int, b: int| 0 <= a < upper@.len() && 0 <= b < upper@.len() && a != b implies (
            #[trigger] upper@[a]).vaddr != (#[trigger] upper@[b]).vaddr by {
                assert(high_from[a] != high_from[b]) by {
                    if a < b {
                        assert(high_from[a] > high_from[b]);
                    } else {
                        assert(high_from[b] > high_from[a]);
                    }
                }
            }
            assert forall|i: int| 0 <= i < all.len() implies if (#[trigger] all[i]).vaddr.0 < vaddr.0 {
                self.spec_contains(all[i].vaddr)
            } else {
                upper.spec_contains(all[i].vaddr)
            } by {
                if all[i].vaddr.0 < vaddr.0 {
                    let j = choose|j: int| 0 <= j < keep.len() && #[trigger] low_from[j] == i;
                    assert(keep[j].vaddr == all[i].vaddr);
                } else {
                    let j = choose|j: int| 0 <= j < upper@.len() && #[trigger] high_from[j] == i;
                    assert(upper@[j].vaddr == all[i].vaddr);
                }
            }
        }
        upper
    }
}


/// Whether `lower` and `upper` are the two parts of the tree `tree` split at
/// `vaddr`: each has the pages that lie in it, with their frames.
pub open spec fn spec_tree_split(tree: PageTree, vaddr: Vaddr, lower: PageTree, upper: PageTree) -> bool {
    &&& lower.wf()
    &&& upper.wf()
    &&& lower@.len() + upper@.len() == tree@.len()
    &&& forall|i: int|
        0 <= i < lower@.len() ==> (#[trigger] lower@[i]).vaddr.0 < vaddr.0 && tree.spec_contains(lower@[i].vaddr)
            && tree.spec_page(lower@[i].vaddr) == lower@[i].page
    &&& forall|i: int|
        0 <= i < upper@.len() ==> (#[trigger] upper@[i]).vaddr.0 >= vaddr.0 && tree.spec_contains(upper@[i].vaddr)
            && tree.spec_page(upper@[i].vaddr) == upper@[i].page
    &&& forall|i: int|
        0 <= i < tree@.len() ==> if (#[trigger] tree@[i]).vaddr.0 < vaddr.0 {
            lower.spec_contains(tree@[i].vaddr)
        } else {
            upper.spec_contains(tree@[i].vaddr)
        }
}

/// The two parts of a tree of pages with frames of their own are such
/// trees, and hold between them what the tree held, no frame twice.
pub proof fn lemma_tree_split(
    t: PageTree,
    vaddr: Vaddr,
    tl: PageTree,
    tu: PageTree,
    start: Vaddr,
    end: Vaddr,
    pt: &PageTable,
    mem: &MemoryManager,
)
    requires
        spec_tree_ok(t, start, end, pt, mem),
        spec_tree_split(t, vaddr, tl, tu),
        start.0 <= vaddr.0 <= end.0,
    ensures
        spec_tree_ok(tl, start, vaddr, pt, mem),
        spec_tree_ok(tu, vaddr, end, pt, mem),
        forall|p: int| spec_tree_holds(t, mem, p) <==> (spec_tree_holds(tl, mem, p) || spec_tree_holds(tu, mem, p)),
        forall|p: int| !(spec_tree_holds(tl, mem, p) && spec_tree_holds(tu, mem, p)),
{
    assert forall|i: int| 0 <= i < tl@.len() implies {
        &&& (#[trigger] tl@[i]).vaddr.0 % 4096 == 0
        &&& start.0 <= tl@[i].vaddr.0 < vaddr.0
        &&& spec_frame_ok(tl@[i].page, pt, mem)
    } by {
        t.lemma_contains(tl@[i].vaddr);
    }
    assert forall|i: int| 0 <= i < tu@.len() implies {
        &&& (#[trigger] tu@[i]).vaddr.0 % 4096 == 0
        &&& vaddr.0 <= tu@[i].vaddr.0 < end.0
        &&& spec_frame_ok(tu@[i].page, pt, mem)
    } by {
        t.lemma_contains(tu@[i].vaddr);
    }
    assert forall|i: int, j: int| 0 <= i < tl@.len() && 0 <= j < tl@.len() && i != j implies (#[trigger] tl@[i]).page.vaddr
        != (#[trigger] tl@[j]).page.vaddr by {
        t.lemma_contains(tl@[i].vaddr);
        t.lemma_contains(tl@[j].vaddr);
        assert(t.spec_index(tl@[i].vaddr) != t.spec_index(tl@[j].vaddr));
    }
    assert forall|i: int, j: int| 0 <= i < tu@.len() && 0 <= j < tu@.len() && i != j implies (#[trigger] tu@[i]).page.vaddr
        != (#[trigger] tu@[j]).page.vaddr by {
        t.lemma_contains(tu@[i].vaddr);
        t.lemma_contains(tu@[j].vaddr);
        assert(t.spec_index(tu@[i].vaddr) != t.spec_index(tu@[j].vaddr));
    }
    assert forall|p: int| spec_tree_holds(t, mem, p) <==> (spec_tree_holds(tl, mem, p) || spec_tree_holds(tu, mem, p)) by {
        if spec_tree_holds(t, mem, p) {
            let i = choose|i: int| 0 <= i < t@.len() && mem.spec_index((#[trigger] t@[i]).page.vaddr.0 as int) == p;
            t.lemma_index(i);
            if t@[i].vaddr.0 < vaddr.0 {
                tl.lemma_contains(t@[i].vaddr);
                let j = tl.spec_index(t@[i].vaddr);
                assert(mem.spec_index(tl@[j].page.vaddr.0 as int) == p);
            } else {
                tu.lemma_contains(t@[i].vaddr);
                let j = tu.spec_index(t@[i].vaddr);
                assert(mem.spec_index(tu@[j].page.vaddr.0 as int) == p);
            }
        }
        if spec_tree_holds(tl, mem, p) {
            let j = choose|j: int| 0 <= j < tl@.len() && mem.spec_index((#[trigger] tl@[j]).page.vaddr.0 as int) == p;
            t.lemma_contains(tl@[j].vaddr);
            let i = t.spec_index(tl@[j].vaddr);
            assert(mem.spec_index(t@[i].page.vaddr.0 as int) == p);
        }
        if spec_tree_holds(tu, mem, p) {
            let j = choose|j: int| 0 <= j < tu@.len() && mem.spec_index((#[trigger] tu@[j]).page.vaddr.0 as int) == p;
            t.lemma_contains(tu@[j].vaddr);
            let i = t.spec_index(tu@[j].vaddr);
            assert(mem.spec_index(t@[i].page.vaddr.0 as int) == p);
        }
    }
    assert forall|p: int| !(spec_tree_holds(tl, mem, p) && spec_tree_holds(tu, mem, p)) by {
        if spec_tree_holds(tl, mem, p) && spec_tree_holds(tu, mem, p) {
            let a = choose|a: int| 0 <= a < tl@.len() && mem.spec_index((#[trigger] tl@[a]).page.vaddr.0 as int) == p;
            let b = choose|b: int| 0 <= b < tu@.len() && mem.spec_index((#[trigger] tu@[b]).page.vaddr.0 as int) == p;
            t.lemma_contains(tl@[a].vaddr);
            t.lemma_contains(tu@[b].vaddr);
            let ia = t.spec_index(tl@[a].vaddr);
            let ib = t.spec_index(tu@[b].vaddr);
            assert(ia != ib);
            assert(spec_frame_ok(t@[ia].page, pt, mem));
            assert(spec_frame_ok(t@[ib].page, pt, mem));
            assert(t@[ia].page.vaddr != t@[ib].page.vaddr);
        }
    }
}

impl VMA {
    /// Whether the area can be split at `vaddr`: it is anonymous, and
    /// `vaddr` starts a page within it other than the first.
    pub open spec fn spec_can_split(&self, vaddr: Vaddr) -> bool {
        &&& self.spec_is_anon()
        &&& vaddr.0 % 4096 == 0
        &&& self.start_vaddr.0 < vaddr.0 < self.end_vaddr.0
    }

    /// Whether `lower` and `upper` are the two parts of this area split at
    /// `vaddr`: each has the pages with a frame that lie in it, and of the
    /// reserve, if the area keeps one, the frames of the pages that lie in
    /// it.
    pub open spec fn spec_split(&self, vaddr: Vaddr, lower: &VMA, upper: &VMA) -> bool {
        &&& lower.start_vaddr == self.start_vaddr
        &&& lower.end_vaddr == vaddr
        &&& upper.start_vaddr == vaddr
        &&& upper.end_vaddr == self.end_vaddr
        &&& lower.vm_flags == self.vm_flags
        &&& upper.vm_flags == self.vm_flags
        &&& lower.file == self.file
        &&& lower.file_off == self.file_off
        &&& lower.file_in_vma_off == self.file_in_vma_off
        &&& lower.file_len == self.file_len
        &&& lower.phy_pgs_cnt == self.phy_pgs_cnt
        &&& upper.file is None
        &&& upper.file_off == 0
        &&& upper.file_in_vma_off == 0
        &&& upper.file_len == 0
        &&& upper.phy_pgs_cnt == 0
        &&& spec_tree_split(self.pages_tree, vaddr, lower.pages_tree, upper.pages_tree)
        &&& lower.cow_write_reserve_pgs is Some == self.cow_write_reserve_pgs is Some
        &&& upper.cow_write_reserve_pgs is Some == self.cow_write_reserve_pgs is Some
        &&& self.cow_write_reserve_pgs matches Some(res) ==> spec_tree_split(
            res,
            vaddr,
            lower.cow_write_reserve_pgs->0,
            upper.cow_write_reserve_pgs->0,
        )
    }

    /// Splits the area at `vaddr`: the area keeps the pages below `vaddr`,
    /// and the pages from `vaddr` on are returned as an area of their own;
    /// the frames in reserve go with their pages. Fails, changing nothing,
    /// where the area cannot be split at `vaddr`.
    pub fn split(&mut self, vaddr: Vaddr) -> (r: Option<VMA>)
        requires
            old(self).pages_tree.wf(),
            old(self).cow_write_reserve_pgs matches Some(res) ==> res.wf(),
        ensures
            r is Some <==> old(self).spec_can_split(vaddr),
            r is None ==> *final(self) == *old(self),
            r matches Some(upper) ==> old(self).spec_split(vaddr, final(self), &upper),
    {
        if !self.is_anon() || !vaddr.is_align() {
            return None;
        }
        if vaddr.0 <= self.start_vaddr.0 || vaddr.0 >= self.end_vaddr.0 {
            return None;
        }
        let end = self.end_vaddr;
        self.end_vaddr = vaddr;
        let new_anon = self.pages_tree.split_off(vaddr);
        let mut new = VMA::new_anon(vaddr, end, self.vm_flags);
        new.pages_tree = new_anon;
        if self.cow_write_reserve_pgs.is_some() {
            let mut reserve = self.cow_write_reserve_pgs.take().unwrap();
            let upper_reserve = reserve.split_off(vaddr);
            self.cow_write_reserve_pgs = Some(reserve);
            new.cow_write_reserve_pgs = Some(upper_reserve);
        }
        Some(new)
    }

    /// The two parts of a well-formed area are well-formed, and hold
    /// between them what the area held, no frame twice.
    #[verifier::rlimit(100)]
    #[verifier::spinoff_prover]
    pub proof fn lemma_split(&self, vaddr: Vaddr, lower: VMA, upper: VMA, pt: &PageTable, mem: &MemoryManager)
        requires
            mem.wf(),
            self.wf(pt, mem),
            self.spec_can_split(vaddr),
            self.spec_split(vaddr, &lower, &upper),
        ensures
            lower.wf(pt, mem),
            upper.wf(pt, mem),
            forall|p: int|
                self.spec_holds_frame(mem, p) <==> (lower.spec_holds_frame(mem, p) || upper.spec_holds_frame(mem, p)),
            forall|p: int| !(lower.spec_holds_frame(mem, p) && upper.spec_holds_frame(mem, p)),
    {
        let t = self.pages_tree;
        let tl = lower.pages_tree;
        let tu = upper.pages_tree;
        lemma_tree_split(t, vaddr, tl, tu, self.start_vaddr, self.end_vaddr, pt, mem);
        assert forall|v: u64| lower.start_vaddr.0 <= v < lower.end_vaddr.0 implies #[trigger] pt.spec_covers(v) by {}
        assert forall|v: u64| upper.start_vaddr.0 <= v < upper.end_vaddr.0 implies #[trigger] pt.spec_covers(v) by {}
        if self.cow_write_reserve_pgs is Some {
            let r = self.cow_write_reserve_pgs->0;
            let rl = lower.cow_write_reserve_pgs->0;
            let ru = upper.cow_write_reserve_pgs->0;
            lemma_tree_split(r, vaddr, rl, ru, self.start_vaddr, self.end_vaddr, pt, mem);
            lemma_trees_apart(r, t, rl, tl);
            lemma_trees_apart(r, t, ru, tu);
            lemma_trees_apart(r, t, rl, tu);
            lemma_trees_apart(r, t, ru, tl);
            lemma_trees_hold_apart(rl, tu, mem, pt);
            lemma_trees_hold_apart(ru, tl, mem, pt);
            assert(lower.wf(pt, mem));
            assert(upper.wf(pt, mem));
            assert forall|p: int|
                self.spec_holds_frame(mem, p) <==> (lower.spec_holds_frame(mem, p) || upper.spec_holds_frame(mem, p)) by {
                assert(spec_tree_holds(t, mem, p) <==> (spec_tree_holds(tl, mem, p) || spec_tree_holds(tu, mem, p)));
                assert(spec_tree_holds(r, mem, p) <==> (spec_tree_holds(rl, mem, p) || spec_tree_holds(ru, mem, p)));
            }
            assert forall|p: int| !(lower.spec_holds_frame(mem, p) && upper.spec_holds_frame(mem, p)) by {
                assert(!(spec_tree_holds(tl, mem, p) && spec_tree_holds(tu, mem, p)));
                assert(!(spec_tree_holds(rl, mem, p) && spec_tree_holds(ru, mem, p)));
                assert(!(spec_tree_holds(rl, mem, p) && spec_tree_holds(tu, mem, p)));
                assert(!(spec_tree_holds(ru, mem, p) && spec_tree_holds(tl, mem, p)));
            }
        } else {
            assert(lower.wf(pt, mem));
            assert(upper.wf(pt, mem));
        }
    }
}

/// Parts of two trees that share no frame share no frame.
pub proof fn lemma_trees_apart(r: PageTree, t: PageTree, rp: PageTree, tp: PageTree)
    requires
        forall|i: int, j: int|
            0 <= i < r@.len() && 0 <= j < t@.len() ==> (#[trigger] r@[i]).page.vaddr != (#[trigger] t@[j]).page.vaddr,
        forall|i: int|
            0 <= i < rp@.len() ==> r.spec_contains((#[trigger] rp@[i]).vaddr) && r.spec_page(rp@[i].vaddr) == rp@[i].page,
        forall|i: int|
            0 <= i < tp@.len() ==> t.spec_contains((#[trigger] tp@[i]).vaddr) && t.spec_page(tp@[i].vaddr) == tp@[i].page,
    ensures
        forall|i: int, j: int|
            0 <= i < rp@.len() && 0 <= j < tp@.len() ==> (#[trigger] rp@[i]).page.vaddr != (#[trigger] tp@[j]).page.vaddr,
{
    assert forall|i: int, j: int| 0 <= i < rp@.len() && 0 <= j < tp@.len() implies (#[trigger] rp@[i]).page.vaddr != (
    #[trigger] tp@[j]).page.vaddr by {
        r.lemma_contains(rp@[i].vaddr);
        t.lemma_contains(tp@[j].vaddr);
    }
}

/// Two trees of frames of their own that share no frame hold no frame in
/// common.
pub proof fn lemma_trees_hold_apart(a: PageTree, b: PageTree, mem: &MemoryManager, pt: &PageTable)
    requires
        mem.wf(),
        forall|i: int| 0 <= i < a@.len() ==> spec_frame_ok((#[trigger] a@[i]).page, pt, mem),
        forall|i: int| 0 <= i < b@.len() ==> spec_frame_ok((#[trigger] b@[i]).page, pt, mem),
        forall|i: int, j: int|
            0 <= i < a@.len() && 0 <= j < b@.len() ==> (#[trigger] a@[i]).page.vaddr != (#[trigger] b@[j]).page.vaddr,
    ensures
        forall|p: int| !(spec_tree_holds(a, mem, p) && spec_tree_holds(b, mem, p)),
{
    assert forall|p: int| !(spec_tree_holds(a, mem, p) && spec_tree_holds(b, mem, p)) by {
        if spec_tree_holds(a, mem, p) && spec_tree_holds(b, mem, p) {
            let i = choose|i: int| 0 <= i < a@.len() && mem.spec_index((#[trigger] a@[i]).page.vaddr.0 as int) == p;
            let j = choose|j: int| 0 <= j < b@.len() && mem.spec_index((#[trigger] b@[j]).page.vaddr.0 as int) == p;
            lemma_frame_place(pt, mem, a@[i].page);
            lemma_frame_place(pt, mem, b@[j].page);
            assert(a@[i].page.vaddr != b@[j].page.vaddr);
        }
    }
}

impl VMA {
    /// Whether `other` is this area but for the pages with a frame and
    /// their number.
    pub open spec fn spec_same_but_count(&self, other: &VMA) -> bool {
        &&& other.start_vaddr == self.start_vaddr
        &&& other.end_vaddr == self.end_vaddr
        &&& other.vm_flags == self.vm_flags
        &&& other.file == self.file
        &&& other.file_off == self.file_off
        &&& other.file_in_vma_off == self.file_in_vma_off
        &&& other.file_len == self.file_len
        &&& other.cow_write_reserve_pgs == self.cow_write_reserve_pgs
    }

    /// Gives the page at `vaddr` of this anonymous area the frame `page`,
    /// which the caller has got for it, and maps the page to it with the
    /// rights of the area. Fails, changing nothing, where `page` is a block
    /// of more than one frame, where the page has a frame or is mapped
    /// already, where fewer frames are free than tables are missing on the
    /// way of `vaddr`, and where the count of frames is at its limit.
    pub fn _anon_map_one_page(&mut self, pt: &mut PageTable, mem: &mut MemoryManager, page: Page, vaddr: Vaddr) -> (r:
        Result<(), ()>)
        requires
            old(self).wf(old(pt), old(mem)),
            old(pt).wf(old(mem)),
            old(self).spec_is_anon(),
            vaddr.0 % 4096 == 0,
            old(self).spec_in_vma(vaddr),
            page.inner.order == 0 ==> spec_frame_ok(page, old(pt), old(mem)) && !old(self).spec_holds_frame(
                old(mem),
                old(mem).spec_index(page.vaddr.0 as int),
            ),
        ensures
            final(self).wf(final(pt), final(mem)),
            final(pt).wf(final(mem)),
            r is Ok <==> page.inner.order == 0 && !old(self).pages_tree.spec_contains(vaddr) && old(pt).spec_translate(
                old(mem),
                vaddr.0,
            ) is None && old(mem).buddy@.free_pages_from(0) >= old(pt).spec_missing(old(mem), vaddr.0) && old(self).phy_pgs_cnt < usize::MAX,
            r is Err ==> *final(self) == *old(self) && *final(pt) == *old(pt) && *final(mem) == *old(mem),
            r is Ok ==> {
                &&& old(self).spec_same_but_count(final(self))
                &&& final(self).phy_pgs_cnt == old(self).phy_pgs_cnt + 1
                &&& spec_step(*old(pt), *old(mem), *final(pt), *final(mem), set![spec_vpn(vaddr.0)], Set::empty())
                &&& final(pt).spec_translate(final(mem), vaddr.0) == Some(
                    PTE::spec_new(
                        (page.vaddr.0 - PHY_MEM_OFFSET) as u64,
                        spec_vma_flags_2_pte_flags(old(self).vm_flags) | 1u8,
                    ),
                )
                &&& spec_frame_ok(page, final(pt), final(mem))
                &&& final(self).pages_tree.spec_contains(vaddr)
                &&& final(self).pages_tree.spec_page(vaddr) == page
                &&& forall|k: Vaddr|
                    k != vaddr ==> (#[trigger] final(self).pages_tree.spec_contains(k) == old(self).pages_tree.spec_contains(k))
                &&& forall|k: Vaddr|
                    k != vaddr && old(self).pages_tree.spec_contains(k) ==> #[trigger] final(self).pages_tree.spec_page(k)
                        == old(self).pages_tree.spec_page(k)
            },
    {
        if page.get_order() != 0 {
            return Err(());
        }
        if self.get_end_vaddr().0 - vaddr.0 < PAGE_SIZE as u64 {
            return Err(());
        }
        // map in the page table, with the rights of the area
        let pte_flags = _vma_flags_2_pte_flags(self.get_flags());
        if self._vaddr_have_map(vaddr) || self.phy_pgs_cnt == usize::MAX {
            return Err(());
        }
        proof {
            pt.lemma_walk(mem, vaddr.0);
        }
        match pt.walk(mem, vaddr.0) {
            Some(r) => {
                if r.get_pte(&mem.ram).vaild() {
                    return Err(());
                }
            },
            None => {},
        }
        if mem.buddy.get_free_pages_cnt() < pt._missing_tables(mem, vaddr.0) {
            return Err(());
        }
        let ghost pt0 = *pt;
        let ghost mem0 = *mem;
        let mapped = pt.map_one_page(mem, vaddr, page.get_paddr(), pte_flags);
        proof {
            assert(mapped is Ok);
            let touched = set![spec_vpn(vaddr.0)];
            lemma_step_from_grown(pt0, mem0, *pt, *mem, touched);
            old(self).lemma_vma_step(pt0, mem0, *pt, *mem, touched, Set::empty());
            lemma_frame_step(page, pt0, mem0, *pt, *mem, touched, Set::empty());
            lemma_pte_flags(spec_vma_flags_2_pte_flags(self.vm_flags), 0);
            PTE::lemma_entry(
                0,
                PTE::spec_from(0),
                (page.vaddr.0 - PHY_MEM_OFFSET) as u64,
                spec_vma_flags_2_pte_flags(self.vm_flags) | 1u8,
            );
            old(self).lemma_not_held(&mem0, page);
        }
        self.phy_pgs_cnt += 1;
        let ghost counted = *self;
        self.pages_tree.insert(vaddr, page);
        proof {
            assert(counted.wf(pt, mem));
            lemma_vma_entered(counted, *self, *pt, *mem, vaddr, page);
        }
        Ok(())
    }

    /// A frame that the area does not hold is none of the frames of its
    /// pages nor of its reserve.
    pub proof fn lemma_not_held(&self, mem: &MemoryManager, page: Page)
        requires
            !self.spec_holds_frame(mem, mem.spec_index(page.vaddr.0 as int)),
        ensures
            forall|i: int| 0 <= i < self.pages_tree@.len() ==> (#[trigger] self.pages_tree@[i]).page.vaddr != page.vaddr,
            self.cow_write_reserve_pgs matches Some(res) ==> forall|i: int|
                0 <= i < res@.len() ==> (#[trigger] res@[i]).page.vaddr != page.vaddr,
    {
        let p = mem.spec_index(page.vaddr.0 as int);
        assert forall|i: int| 0 <= i < self.pages_tree@.len() implies (#[trigger] self.pages_tree@[i]).page.vaddr
            != page.vaddr by {
            if self.pages_tree@[i].page.vaddr == page.vaddr {
                assert(mem.spec_index(self.pages_tree@[i].page.vaddr.0 as int) == p);
                assert(spec_tree_holds(self.pages_tree, mem, p));
            }
        }
        if self.cow_write_reserve_pgs is Some {
            let res = self.cow_write_reserve_pgs->0;
            assert forall|i: int| 0 <= i < res@.len() implies (#[trigger] res@[i]).page.vaddr != page.vaddr by {
                if res@[i].page.vaddr == page.vaddr {
                    assert(mem.spec_index(res@[i].page.vaddr.0 as int) == p);
                    assert(spec_tree_holds(res, mem, p));
                }
            }
        }
    }

    /// Takes the frame of the page at `vaddr` out of the area and unmaps
    /// the page. The frame is returned, and stays in use. A page without a
    /// frame is left alone.
    pub fn _anon_unmap_pages(&mut self, pt: &mut PageTable, mem: &mut MemoryManager, vaddr: Vaddr) -> (r: Option<Page>)
        requires
            old(self).wf(old(pt), old(mem)),
            old(pt).wf(old(mem)),
        ensures
            final(self).wf(final(pt), final(mem)),
            final(pt).wf(final(mem)),
            old(self).spec_same_but_pages(final(self)),
            r is Some <==> old(self).pages_tree.spec_contains(vaddr),
            r is None ==> *final(self) == *old(self) && *final(pt) == *old(pt) && *final(mem) == *old(mem),
            r matches Some(pg) ==> {
                &&& pg == old(self).pages_tree.spec_page(vaddr)
                &&& spec_step(*old(pt), *old(mem), *final(pt), *final(mem), set![spec_vpn(vaddr.0)], Set::empty())
                &&& final(pt).spec_translate(final(mem), vaddr.0) is None
                &&& spec_frame_ok(pg, final(pt), final(mem))
                &&& !final(self).spec_holds_frame(final(mem), old(mem).spec_index(pg.vaddr.0 as int))
                &&& forall|a: int|
                    pg.vaddr.0 <= a < pg.vaddr.0 + 4096 ==> #[trigger] final(mem).ram.spec_byte(a) == old(mem).ram.spec_byte(a)
                &&& !final(self).pages_tree.spec_contains(vaddr)
                &&& forall|k: Vaddr|
                    k != vaddr ==> (#[trigger] final(self).pages_tree.spec_contains(k) == old(self).pages_tree.spec_contains(k))
                &&& forall|k: Vaddr|
                    k != vaddr && old(self).pages_tree.spec_contains(k) ==> #[trigger] final(self).pages_tree.spec_page(k)
                        == old(self).pages_tree.spec_page(k)
            },
    {
        if !self._vaddr_have_map(vaddr) {
            return None;
        }
        let ghost tree0 = self.pages_tree;
        // take the frame out of the tree
        let removed = self.pages_tree.remove(vaddr);
        let pg = removed.unwrap();
        let ghost pt0 = *pt;
        let ghost mem0 = *mem;
        proof {
            lemma_tree_remove(tree0, self.pages_tree, self.start_vaddr, self.end_vaddr, &pt0, &mem0, vaddr);
            self.lemma_after_remove(*old(self), pt0, mem0, vaddr);
        }
        let unmapped = pt._unmap_one_page(mem, vaddr);
        proof {
            self.lemma_release_unmapped(*old(self), pt0, mem0, *pt, *mem, vaddr, pg, unmapped is Ok);
        }
        Some(pg)
    }
}


/// Whether `wb` is the request to write back what the frame of the page `k`
/// of the area `vma` holds over `mem` for the file behind the area.
pub open spec fn spec_is_write_back(vma: VMA, mem: &MemoryManager, k: Vaddr, wb: FileWriteBack) -> bool {
    &&& vma.pages_tree.spec_contains(k)
    &&& vma.spec_write_back(k) is Some
    &&& Some(wb.file) == vma.file
    &&& wb.file_off == vma.spec_write_back(k)->0.file_off
    &&& wb.data@.len() == vma.spec_write_back(k)->0.len
    &&& forall|i: int|
        0 <= i < wb.data@.len() ==> wb.data@[i] == mem.ram.spec_byte(
            vma.pages_tree.spec_page(k).vaddr.0 + vma.spec_write_back(k)->0.page_off + i,
        )
}

/// Whether `r` holds the request to write back the page `k` of `vma`.
pub open spec fn spec_has_write_back(vma: VMA, mem: &MemoryManager, k: Vaddr, r: Seq<FileWriteBack>) -> bool {
    exists|i: int| 0 <= i < r.len() && spec_is_write_back(vma, mem, k, #[trigger] r[i])
}

/// Whether `wb` is the request to write back a page of `vma`.
pub open spec fn spec_from_page(vma: VMA, mem: &MemoryManager, wb: FileWriteBack) -> bool {
    exists|k: Vaddr| #[trigger] spec_is_write_back(vma, mem, k, wb)
}

/// Whether the frame at `addr` holds over `mem1` what it held over `mem0`.
pub open spec fn spec_same_frame(mem0: &MemoryManager, mem1: &MemoryManager, addr: int) -> bool {
    forall|j: int| 0 <= j < 4096 ==> #[trigger] mem1.ram.spec_byte(addr + j) == mem0.ram.spec_byte(addr + j)
}

/// One round of a teardown, for the requests to write back: the request of
/// the page `key`, if there is one, joins those of the rounds before, and
/// the frames of the pages that are left hold what they held.
pub proof fn lemma_teardown_requests(
    vma0: VMA,
    mem0: MemoryManager,
    vma1: VMA,
    pt1: PageTable,
    mem1: MemoryManager,
    vma2: VMA,
    pt2: PageTable,
    mem2: MemoryManager,
    key: Vaddr,
    wb: Option<FileWriteBack>,
    ret1: Seq<FileWriteBack>,
    ret2: Seq<FileWriteBack>,
)
    requires
        mem1.wf(),
        vma1.wf(&pt1, &mem1),
        vma0.spec_same_but_pages(&vma1),
        vma1.pages_tree.spec_contains(key),
        forall|k: Vaddr| #[trigger]
            vma1.pages_tree.spec_contains(k) ==> vma0.pages_tree.spec_contains(k) && vma1.pages_tree.spec_page(k)
                == vma0.pages_tree.spec_page(k),
        forall|k: Vaddr| #[trigger]
            vma0.pages_tree.spec_contains(k) ==> vma1.pages_tree.spec_contains(k) || vma0.spec_write_back(k) is None
                || spec_has_write_back(vma0, &mem0, k, ret1),
        forall|i: int| 0 <= i < ret1.len() ==> spec_from_page(vma0, &mem0, #[trigger] ret1[i]),
        forall|k: Vaddr| #[trigger]
            vma1.pages_tree.spec_contains(k) ==> spec_same_frame(&mem0, &mem1, vma1.pages_tree.spec_page(k).vaddr.0 as int),
        // what the release of the page has done
        spec_step(
            pt1,
            mem1,
            pt2,
            mem2,
            set![spec_vpn(key.0)],
            set![mem1.spec_index(vma1.pages_tree.spec_page(key).vaddr.0 as int)],
        ),
        !vma2.pages_tree.spec_contains(key),
        forall|k: Vaddr| k != key ==> (#[trigger] vma2.pages_tree.spec_contains(k) == vma1.pages_tree.spec_contains(k)),
        forall|k: Vaddr|
            k != key && vma1.pages_tree.spec_contains(k) ==> #[trigger] vma2.pages_tree.spec_page(k)
                == vma1.pages_tree.spec_page(k),
        wb is Some <==> vma1.spec_write_back(key) is Some,
        wb matches Some(w) ==> {
            &&& Some(w.file) == vma1.file
            &&& w.file_off == vma1.spec_write_back(key)->0.file_off
            &&& w.data@.len() == vma1.spec_write_back(key)->0.len
            &&& forall|i: int|
                0 <= i < w.data@.len() ==> w.data@[i] == mem1.ram.spec_byte(
                    vma1.pages_tree.spec_page(key).vaddr.0 + vma1.spec_write_back(key)->0.page_off + i,
                )
        },
        ret2 == (match wb {
            Some(w) => ret1.push(w),
            None => ret1,
        }),
    ensures
        forall|k: Vaddr| #[trigger]
            vma0.pages_tree.spec_contains(k) ==> vma2.pages_tree.spec_contains(k) || vma0.spec_write_back(k) is None
                || spec_has_write_back(vma0, &mem0, k, ret2),
        forall|i: int| 0 <= i < ret2.len() ==> spec_from_page(vma0, &mem0, #[trigger] ret2[i]),
        forall|k: Vaddr| #[trigger]
            vma2.pages_tree.spec_contains(k) ==> spec_same_frame(&mem0, &mem2, vma2.pages_tree.spec_page(k).vaddr.0 as int),
{
    let page = vma1.pages_tree.spec_page(key);
    let idx = mem1.spec_index(page.vaddr.0 as int);
    assert(vma1.spec_write_back(key) == vma0.spec_write_back(key));
    assert(vma1.file == vma0.file);
    if wb is Some {
        let w = wb->0;
        let part = vma0.spec_write_back(key)->0;
        assert(spec_same_frame(&mem0, &mem1, page.vaddr.0 as int));
        assert(0 <= part.page_off && part.page_off + part.len <= 4096);
        assert forall|i: int| 0 <= i < w.data@.len() implies w.data@[i] == mem0.ram.spec_byte(
            vma0.pages_tree.spec_page(key).vaddr.0 + part.page_off + i,
        ) by {
            let j = part.page_off + i;
            assert(mem1.ram.spec_byte(page.vaddr.0 + j) == mem0.ram.spec_byte(page.vaddr.0 + j));
        }
        assert(spec_is_write_back(vma0, &mem0, key, w));
        assert(ret2[ret1.len() as int] == w);
    }
    assert forall|k: Vaddr| #[trigger] vma0.pages_tree.spec_contains(k) implies vma2.pages_tree.spec_contains(k)
        || vma0.spec_write_back(k) is None || spec_has_write_back(vma0, &mem0, k, ret2) by {
        if k == key {
            if vma0.spec_write_back(k) is Some {
                assert(spec_is_write_back(vma0, &mem0, k, ret2[ret1.len() as int]));
            }
        } else if !vma1.pages_tree.spec_contains(k) {
            if vma0.spec_write_back(k) is Some {
                let i = choose|i: int| 0 <= i < ret1.len() && spec_is_write_back(vma0, &mem0, k, #[trigger] ret1[i]);
                assert(ret2[i] == ret1[i]);
            }
        }
    }
    assert forall|i: int| 0 <= i < ret2.len() implies spec_from_page(vma0, &mem0, #[trigger] ret2[i]) by {
        if i < ret1.len() {
            assert(ret2[i] == ret1[i]);
            assert(spec_from_page(vma0, &mem0, ret1[i]));
        } else {
            assert(spec_is_write_back(vma0, &mem0, key, ret2[i]));
        }
    }
    assert forall|k: Vaddr| #[trigger] vma2.pages_tree.spec_contains(k) implies spec_same_frame(
        &mem0,
        &mem2,
        vma2.pages_tree.spec_page(k).vaddr.0 as int,
    ) by {
        assert(k != key);
        assert(vma1.pages_tree.spec_contains(k));
        let pk = vma1.pages_tree.spec_page(k);
        vma1.pages_tree.lemma_contains(k);
        vma1.pages_tree.lemma_contains(key);
        let nk = vma1.pages_tree.spec_index(k);
        let nkey = vma1.pages_tree.spec_index(key);
        assert(nk != nkey);
        assert(spec_frame_ok(pk, &pt1, &mem1));
        assert(pk.vaddr != page.vaddr);
        lemma_frame_place(&pt1, &mem1, pk);
        lemma_frame_place(&pt1, &mem1, page);
        assert(mem1.spec_index(pk.vaddr.0 as int) != idx);
        lemma_frame_step(pk, pt1, mem1, pt2, mem2, set![spec_vpn(key.0)], set![idx]);
        assert(spec_same_frame(&mem0, &mem1, pk.vaddr.0 as int));
        assert forall|j: int| 0 <= j < 4096 implies #[trigger] mem2.ram.spec_byte(pk.vaddr.0 + j) == mem0.ram.spec_byte(
            pk.vaddr.0 + j,
        ) by {
            assert(mem1.ram.spec_byte(pk.vaddr.0 + j) == mem0.ram.spec_byte(pk.vaddr.0 + j));
        }
    }
}

} // verus!
