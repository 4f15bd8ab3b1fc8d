//! The three-level page table.
//!
//! A table is one frame of 512 entries. The root table is indexed by the
//! bits 30 to 38 of a virtual address, the tables of the middle level by the
//! bits 21 to 29, and those of the last level by the bits 12 to 20. A page
//! table manages the part of its root that lies between two indices; the
//! rest of the root may hold entries that it shares with other page tables
//! and never follows.
use vstd::prelude::*;
use crate::consts::{MAX_ORDER, PAGE_SIZE, PHY_MEM_OFFSET};
use crate::mm::{alloc_pages, spec_allocated, MemoryManager};
use crate::mm::addr::{Paddr, PageAlign, Vaddr};
use crate::mm::buddy_model::lemma_allocate_count;
use crate::mm::page::{lemma_block_pages, spec_in_block, Page};
use crate::mm::phys::PhysMemory;
use crate::mm::pte::{lemma_pte_flags, PTE, PTE_R, PTE_V, PTE_W, PTE_X};
use crate::utils::{
    addr_get_ppn0, addr_get_ppn1, addr_get_ppn2, lemma_order2pages_monotone, lemma_order2pages_values, order2pages,
    spec_order2pages, spec_ppn0, spec_ppn1, spec_ppn2,
};

verus! {

pub const WALK_RET_LEVEL_ROOT: usize = 0;

pub const WALK_RET_LEVEL_MIDDLE: usize = 1;

pub const WALK_RET_LEVEL_LEAF: usize = 2;

/// Where a walk ended: the level of the table and the address of the entry.
#[derive(Clone, Copy, PartialEq, Eq, Structural)]
pub struct WalkRet {
    pub level: usize,
    pub pte_addr: u64,
}

impl WalkRet {
    /// Reads the entry at which the walk ended.
    pub fn get_pte(&self, ram: &PhysMemory) -> (pte: PTE)
        requires
            ram.spec_contains(self.pte_addr as int, 8),
        ensures
            pte == PTE::spec_from(ram.spec_word(self.pte_addr as int)),
            pte.wf(),
    {
        let entry = ram.read_u64(Vaddr(self.pte_addr));
        let pte = PTE::from(entry);
        pte
    }

    pub fn get_level(&self) -> (level: usize)
        ensures
            level == self.level,
    {
        self.level
    }
}

/// The index of `vaddr` into a table of the given level.
pub open spec fn spec_level_index(vaddr: u64, level: int) -> int {
    if level <= 0 {
        spec_ppn2(vaddr) as int
    } else if level == 1 {
        spec_ppn1(vaddr) as int
    } else {
        spec_ppn0(vaddr) as int
    }
}

/// The entry at `index` of the table at `table`.
pub open spec fn spec_entry(ram: PhysMemory, table: int, index: int) -> PTE {
    PTE::spec_from(ram.spec_word(table + index * 8))
}

/// Whether the entry points to a table of the next level.
pub open spec fn spec_is_link(pte: PTE) -> bool {
    pte.spec_valid() && !pte.spec_is_leaf()
}

/// The address in the direct map of the frame that the entry points to.
pub open spec fn spec_child(pte: PTE) -> int {
    pte.spec_point_paddr() + PHY_MEM_OFFSET
}

/// The walk for `vaddr` from the table `table` of level `level` on: it ends
/// at an entry that maps a page, or at the entry of the last level, and fails
/// at an entry that is not in use.
pub open spec fn spec_walk_from(ram: PhysMemory, table: int, level: int, vaddr: u64) -> Option<WalkRet>
    decreases 3 - level,
{
    let addr = table + spec_level_index(vaddr, level) * 8;
    let pte = PTE::spec_from(ram.spec_word(addr));
    if pte.spec_is_leaf() || level >= 2 {
        Some(WalkRet { level: level as usize, pte_addr: addr as u64 })
    } else if pte.spec_valid() {
        spec_walk_from(ram, spec_child(pte), level + 1, vaddr)
    } else {
        None
    }
}

/// Number of tables that are missing on the way of `vaddr` to the last level.
pub open spec fn spec_missing_from(ram: PhysMemory, table: int, level: int, vaddr: u64) -> int
    decreases 3 - level,
{
    let addr = table + spec_level_index(vaddr, level) * 8;
    let pte = PTE::spec_from(ram.spec_word(addr));
    if pte.spec_is_leaf() || level >= 2 {
        0
    } else if pte.spec_valid() {
        spec_missing_from(ram, spec_child(pte), level + 1, vaddr)
    } else {
        2 - level
    }
}

/// The table of level `level` on the way of `vaddr`, if the walk gets there.
pub open spec fn spec_table_at(ram: PhysMemory, root: int, level: int, vaddr: u64) -> Option<int>
    decreases level,
{
    if level <= 0 {
        Some(root)
    } else {
        match spec_table_at(ram, root, level - 1, vaddr) {
            Some(t) => {
                let pte = spec_entry(ram, t, spec_level_index(vaddr, level - 1));
                if spec_is_link(pte) {
                    Some(spec_child(pte))
                } else {
                    None
                }
            },
            None => None,
        }
    }
}

/// A page table: the frames of its own tables, the root first.
pub struct PageTable {
    private_pgs: Vec<Page>,
    /// The part of the root that the page table manages starts at this index
    first_index: u64,
    /// and ends before this index.
    end_index: u64,
    /// The level of each table of the page table.
    levels: Ghost<Map<int, int>>,
    /// For each table but the root, the table and the index of the one entry
    /// that points to it.
    parents: Ghost<Map<int, (int, int)>>,
}

impl PageTable {
    /// The address of the root table.
    pub closed spec fn spec_root(&self) -> int {
        self.private_pgs@[0].vaddr.0 as int
    }

    /// The addresses of the tables of the page table.
    pub closed spec fn spec_tables(&self) -> Set<int> {
        self.levels@.dom()
    }

    /// The level of the table at `table`.
    pub closed spec fn spec_level(&self, table: int) -> int {
        self.levels@[table]
    }

    /// The table and the index of the entry that points to the table at
    /// `table`.
    pub closed spec fn spec_parent(&self, table: int) -> (int, int) {
        self.parents@[table]
    }

    pub closed spec fn spec_first_index(&self) -> int {
        self.first_index as int
    }

    pub closed spec fn spec_end_index(&self) -> int {
        self.end_index as int
    }

    /// Number of frames that the page table owns.
    pub closed spec fn spec_private_len(&self) -> int {
        self.private_pgs@.len() as int
    }

    /// Whether `vaddr` lies in the part of the address space that the page
    /// table manages.
    pub open spec fn spec_covers(&self, vaddr: u64) -> bool {
        self.spec_first_index() <= spec_ppn2(vaddr) < self.spec_end_index()
    }

    /// Whether the entry `index` of the table `table` belongs to the page
    /// table and stands above the last level.
    pub open spec fn spec_inner_entry(&self, table: int, index: int) -> bool {
        &&& self.spec_tables().contains(table)
        &&& 0 <= index < 512
        &&& self.spec_level(table) < 2
        &&& self.spec_level(table) == 0 ==> self.spec_first_index() <= index < self.spec_end_index()
    }

    /// The invariant. Every table is a frame of managed memory that is not
    /// free, and only the root has level 0. Above the last level, an entry of
    /// the managed part maps no page, and if it is in use it points to a
    /// table of the next level, of which it is the one parent.
    pub open spec fn wf(&self, mem: &MemoryManager) -> bool {
        &&& mem.wf()
        &&& self.spec_private_len() >= 1
        &&& self.spec_first_index() <= self.spec_end_index() <= 512
        &&& self.spec_tables().contains(self.spec_root())
        &&& self.spec_level(self.spec_root()) == 0
        &&& forall|t: int| #[trigger]
            self.spec_tables().contains(t) ==> {
                &&& 0 <= self.spec_level(t) <= 2
                &&& mem.spec_is_frame(t)
                &&& !mem.spec_frame_free(t)
                &&& self.spec_level(t) == 0 ==> t == self.spec_root()
            }
        &&& forall|t: int, i: int|
            self.spec_inner_entry(t, i) ==> {
                let pte = #[trigger] spec_entry(mem.ram, t, i);
                &&& !pte.spec_is_leaf()
                &&& pte.spec_valid() ==> {
                    &&& self.spec_tables().contains(spec_child(pte))
                    &&& self.spec_level(spec_child(pte)) == self.spec_level(t) + 1
                    &&& self.spec_parent(spec_child(pte)) == (t, i)
                }
            }
    }

    /// The walk for `vaddr` through this page table.
    pub open spec fn spec_walk(&self, mem: &MemoryManager, vaddr: u64) -> Option<WalkRet> {
        spec_walk_from(mem.ram, self.spec_root(), 0, vaddr)
    }

    /// Number of tables missing on the way of `vaddr` to the last level.
    pub open spec fn spec_missing(&self, mem: &MemoryManager, vaddr: u64) -> int {
        spec_missing_from(mem.ram, self.spec_root(), 0, vaddr)
    }

    /// What `vaddr` is mapped to: the entry of the last level, if the walk
    /// gets there and the entry is in use.
    pub open spec fn spec_translate(&self, mem: &MemoryManager, vaddr: u64) -> Option<PTE> {
        match self.spec_walk(mem, vaddr) {
            Some(r) => {
                let pte = PTE::spec_from(mem.ram.spec_word(r.pte_addr as int));
                if pte.spec_valid() {
                    Some(pte)
                } else {
                    None
                }
            },
            None => None,
        }
    }

    /// A table of the page table lies within the window of memory.
    pub proof fn lemma_table_in_ram(&self, mem: &MemoryManager, t: int, i: int)
        requires
            self.wf(mem),
            self.spec_tables().contains(t),
            0 <= i < 512,
        ensures
            mem.ram.spec_contains(t + i * 8, 8),
            mem.ram.spec_contains(t, 4096),
            0 <= t + i * 8 <= u64::MAX,
            PHY_MEM_OFFSET <= t,
            t % 4096 == 0,
    {
        mem.buddy.lemma_wf();
    }

    /// The way of a covered address through a well-formed page table: the
    /// tables that it reaches belong to the page table, level by level, and
    /// the walk from any of them is the walk from the root.
    pub proof fn lemma_table_at(&self, mem: &MemoryManager, vaddr: u64, level: int)
        requires
            self.wf(mem),
            self.spec_covers(vaddr),
            0 <= level <= 2,
        ensures
            spec_table_at(mem.ram, self.spec_root(), level, vaddr) matches Some(t) ==> {
                &&& self.spec_tables().contains(t)
                &&& self.spec_level(t) == level
                &&& spec_walk_from(mem.ram, t, level, vaddr) == self.spec_walk(mem, vaddr)
                &&& spec_missing_from(mem.ram, t, level, vaddr) == self.spec_missing(mem, vaddr)
            },
            spec_table_at(mem.ram, self.spec_root(), level, vaddr) is None ==> self.spec_walk(mem, vaddr) is None
                && self.spec_missing(mem, vaddr) > 2 - level,
        decreases level,
    {
        lemma_index_bounds(vaddr);
        if level > 0 {
            self.lemma_table_at(mem, vaddr, level - 1);
            match spec_table_at(mem.ram, self.spec_root(), level - 1, vaddr) {
                Some(t) => {
                    let i = spec_level_index(vaddr, level - 1);
                    assert(self.spec_inner_entry(t, i));
                    let pte = spec_entry(mem.ram, t, i);
                    assert(!pte.spec_is_leaf());
                },
                None => {},
            }
        }
    }

    /// Walks the page table for `vaddr` without changing anything. Fails
    /// where a table on the way is missing.
    pub fn walk(&self, mem: &MemoryManager, vaddr: u64) -> (r: Option<WalkRet>)
        requires
            self.wf(mem),
            self.spec_covers(vaddr),
        ensures
            r == self.spec_walk(mem, vaddr),
            r matches Some(ret) ==> ret.level == 2 && mem.ram.spec_contains(ret.pte_addr as int, 8),
    {
        let mut pg_vaddr = self._get_root_page_vaddr().0;
        let mut i: usize = 0;
        proof {
            lemma_index_bounds(vaddr);
            self.lemma_table_at(mem, vaddr, 0);
        }
        while i < 3
            invariant
                i <= 2,
                self.wf(mem),
                self.spec_covers(vaddr),
                spec_table_at(mem.ram, self.spec_root(), i as int, vaddr) == Some(pg_vaddr as int),
            decreases 3 - i,
        {
            proof {
                lemma_index_bounds(vaddr);
                self.lemma_table_at(mem, vaddr, i as int);
                self.lemma_table_in_ram(mem, pg_vaddr as int, spec_level_index(vaddr, i as int));
                if i < 2 {
                    assert(self.spec_inner_entry(pg_vaddr as int, spec_level_index(vaddr, i as int)));
                    self.lemma_table_at(mem, vaddr, i + 1);
                }
            }
            let index = if i == 0 {
                addr_get_ppn2(vaddr)
            } else if i == 1 {
                addr_get_ppn1(vaddr)
            } else {
                addr_get_ppn0(vaddr)
            };
            let entry_addr = pg_vaddr + index * 8;
            let entry = mem.ram.read_u64(Vaddr(entry_addr));
            let pte = PTE::from(entry);
            // a leaf ends the walk whether it is in use or not
            if pte.is_leaf() {
                return Some(WalkRet { level: i, pte_addr: entry_addr });
            }
            if i == 2 {
                return Some(WalkRet { level: 2, pte_addr: entry_addr });
            }
            if pte.vaild() {
                proof {
                    self.lemma_table_in_ram(mem, spec_child(pte), 0);
                }
                let v: Vaddr = Paddr(pte.get_point_paddr()).into();
                pg_vaddr = v.0;
                i += 1;
                continue ;
            } else {
                return None;
            }
        }
        return None;
    }

    /// The address of the root table.
    pub fn _get_root_page_vaddr(&self) -> (root: Vaddr)
        requires
            self.spec_private_len() >= 1,
        ensures
            root.0 == self.spec_root(),
    {
        self.private_pgs[0].get_vaddr()
    }

    /// Whether `vaddr` lies in the part of the address space that the page
    /// table manages.
    pub fn covers(&self, vaddr: u64) -> (b: bool)
        ensures
            b == self.spec_covers(vaddr),
    {
        let i = addr_get_ppn2(vaddr);
        self.first_index <= i && i < self.end_index
    }
}

/// The number of the page of `vaddr`: the three indices in one number.
pub open spec fn spec_vpn(vaddr: u64) -> u64 {
    (vaddr >> 12) & 0x7FF_FFFF
}

/// Two addresses lie on the same page if and only if their three indices
/// agree; below `2^39`, different starts of pages are different pages; and an
/// address lies on the page that starts where its offset is taken off.
pub proof fn lemma_vpn(v: u64, w: u64)
    by (bit_vector)
    ensures
        (v >> 12) & 0x7FF_FFFF == (w >> 12) & 0x7FF_FFFF <==> ((v >> 30) & 0x1FF == (w >> 30) & 0x1FF && (v >> 21)
            & 0x1FF == (w >> 21) & 0x1FF && (v >> 12) & 0x1FF == (w >> 12) & 0x1FF),
        v < 0x80_0000_0000 && w < 0x80_0000_0000 && v & 0xfff == 0 && w & 0xfff == 0 && v != w ==> (v >> 12)
            & 0x7FF_FFFF != (w >> 12) & 0x7FF_FFFF,
        (v & 0xfff == 0) == (v % 4096 == 0),
        (v >> 12) & 0x7FF_FFFF == ((v - (v % 4096)) as u64 >> 12) & 0x7FF_FFFF,
        (v >> 30) & 0x1FF == ((v - (v % 4096)) as u64 >> 30) & 0x1FF,
        v < 0x1000_0000 ==> (v >> 30) & 0x1FF == 0,
{
}

/// The address of the frame that holds `addr`.
pub open spec fn spec_frame_of(addr: int) -> int {
    addr / 4096 * 4096
}

/// The word that links an entry to the table at `table`: in use, no page.
pub open spec fn spec_link_word(table: int) -> u64 {
    PTE::spec_new((table - PHY_MEM_OFFSET) as u64, 1u8).spec_into()
}

/// Facts about the word that links to a table in the direct map.
pub proof fn lemma_link_word(table: int)
    requires
        PHY_MEM_OFFSET <= table <= u64::MAX,
        table % 4096 == 0,
    ensures
        spec_is_link(PTE::spec_from(spec_link_word(table))),
        spec_child(PTE::spec_from(spec_link_word(table))) == table,
{
    let paddr = (table - PHY_MEM_OFFSET) as u64;
    let e = PTE::spec_new(paddr, 1u8);
    PTE::lemma_entry(0, e, paddr, 1u8);
    lemma_pte_flags(0, 0);
}

/// How a page table and the memory may have changed while tables were added
/// to the page table: the page table is still well-formed and manages the
/// same part of the same root; it has kept its tables; what it has gained
/// were free frames before; no frame has become free, and but for the new
/// tables the same frames are free; the registry has changed for the new
/// tables only; memory has changed in tables only; every address walks as
/// before, where it walked; and every address is mapped as before, but for
/// those on the pages `touched`.
#[verifier::opaque]
pub open spec fn spec_grown(
    pt0: PageTable,
    mem0: MemoryManager,
    pt1: PageTable,
    mem1: MemoryManager,
    touched: Set<u64>,
) -> bool {
    &&& pt1.wf(&mem1)
    &&& pt1.spec_root() == pt0.spec_root()
    &&& pt1.spec_first_index() == pt0.spec_first_index()
    &&& pt1.spec_end_index() == pt0.spec_end_index()
    &&& mem1.buddy@.start == mem0.buddy@.start
    &&& mem1.buddy@.pages == mem0.buddy@.pages
    &&& forall|t: int| #[trigger]
        pt0.spec_tables().contains(t) ==> pt1.spec_tables().contains(t) && pt1.spec_level(t) == pt0.spec_level(t)
    &&& forall|t: int| #[trigger]
        pt1.spec_tables().contains(t) && !pt0.spec_tables().contains(t) ==> mem0.spec_is_frame(t)
            && mem0.spec_frame_free(t)
    &&& forall|p: int| 0 <= p && #[trigger] mem1.buddy@.page_free(p) ==> mem0.buddy@.page_free(p)
    &&& forall|p: int|
        0 <= p && #[trigger] mem0.buddy@.page_free(p) && !pt1.spec_tables().contains(mem0.buddy@.start + p * 4096)
            ==> mem1.buddy@.page_free(p)
    &&& forall|p: int|
        0 <= p < mem0.pages@.len() && (pt0.spec_tables().contains(mem0.buddy@.start + p * 4096)
            || !pt1.spec_tables().contains(mem0.buddy@.start + p * 4096)) ==> #[trigger] mem1.pages@[p]
            == mem0.pages@[p]
    &&& forall|a: int|
        mem0.ram.spec_contains(a, 1) && !pt1.spec_tables().contains(spec_frame_of(a)) ==> #[trigger] mem1.ram.spec_byte(
            a,
        ) == mem0.ram.spec_byte(a)
    &&& forall|v: u64|
        pt0.spec_covers(v) && !touched.contains(spec_vpn(v)) ==> #[trigger] pt1.spec_translate(&mem1, v)
            == pt0.spec_translate(&mem0, v)
    &&& forall|v: u64|
        pt0.spec_covers(v) && pt0.spec_walk(&mem0, v) is Some ==> #[trigger] pt1.spec_walk(&mem1, v) == pt0.spec_walk(
            &mem0,
            v,
        )
}

/// Nothing changed is a change of this kind.
pub proof fn lemma_grown_refl(pt0: PageTable, mem0: MemoryManager)
    requires
        pt0.wf(&mem0),
    ensures
        spec_grown(pt0, mem0, pt0, mem0, Set::empty()),
{
    reveal(spec_grown);
}

/// Two such changes in a row are one.
pub proof fn lemma_grown_trans(
    pt0: PageTable,
    mem0: MemoryManager,
    pt1: PageTable,
    mem1: MemoryManager,
    pt2: PageTable,
    mem2: MemoryManager,
    first: Set<u64>,
    second: Set<u64>,
)
    requires
        pt0.wf(&mem0),
        spec_grown(pt0, mem0, pt1, mem1, first),
        spec_grown(pt1, mem1, pt2, mem2, second),
    ensures
        spec_grown(pt0, mem0, pt2, mem2, first.union(second)),
{
    reveal(spec_grown);
    mem0.buddy.lemma_wf();
    mem1.buddy.lemma_wf();
    assert forall|t: int| #[trigger] pt2.spec_tables().contains(t) && !pt0.spec_tables().contains(t) implies 
        mem0.spec_is_frame(t) && mem0.spec_frame_free(t) by {
        if !pt1.spec_tables().contains(t) {
            assert(mem1.spec_is_frame(t) && mem1.spec_frame_free(t));
            assert(mem1.buddy@.page_free(mem1.spec_index(t)));
        }
    }
    assert forall|p: int|
        0 <= p && #[trigger] mem0.buddy@.page_free(p) && !pt2.spec_tables().contains(
            mem0.buddy@.start + p * 4096,
        ) implies mem2.buddy@.page_free(p) by {
        assert(!pt1.spec_tables().contains(mem0.buddy@.start + p * 4096));
        assert(mem1.buddy@.page_free(p));
    }
    assert forall|p: int|
        0 <= p < mem0.pages@.len() && (pt0.spec_tables().contains(mem0.buddy@.start + p * 4096)
            || !pt2.spec_tables().contains(mem0.buddy@.start + p * 4096)) implies #[trigger] mem2.pages@[p]
        == mem0.pages@[p] by {
        assert(mem1.pages@[p] == mem0.pages@[p]);
    }
    assert forall|a: int|
        mem0.ram.spec_contains(a, 1) && !pt2.spec_tables().contains(spec_frame_of(a)) implies #[trigger] mem2.ram.spec_byte(
        a,
    ) == mem0.ram.spec_byte(a) by {
        assert(!pt1.spec_tables().contains(spec_frame_of(a)));
        assert(mem1.ram.spec_byte(a) == mem0.ram.spec_byte(a));
    }
    assert forall|v: u64|
        pt0.spec_covers(v) && !first.union(second).contains(spec_vpn(v)) implies #[trigger] pt2.spec_translate(
        &mem2,
        v,
    ) == pt0.spec_translate(&mem0, v) by {
        assert(pt1.spec_translate(&mem1, v) == pt0.spec_translate(&mem0, v));
    }
    assert forall|v: u64| pt0.spec_covers(v) && pt0.spec_walk(&mem0, v) is Some implies #[trigger] pt2.spec_walk(
        &mem2,
        v,
    ) == pt0.spec_walk(&mem0, v) by {
        assert(pt1.spec_walk(&mem1, v) == pt0.spec_walk(&mem0, v));
    }
}

/// One step of growth: a frame that was free, now in use and full of
/// zeros, has become the table that the entry `index` of the table `table`,
/// which was not in use, points to.
#[verifier::opaque]
pub open spec fn spec_link_step(
    pt0: PageTable,
    mem0: MemoryManager,
    pt1: PageTable,
    mem1: MemoryManager,
    table: int,
    index: int,
    fresh: int,
) -> bool {
    &&& pt0.wf(&mem0)
    &&& mem1.wf()
    &&& pt0.spec_inner_entry(table, index)
    &&& !spec_entry(mem0.ram, table, index).spec_valid()
    &&& mem0.spec_is_frame(fresh)
    &&& mem0.spec_frame_free(fresh)
    &&& !mem1.spec_frame_free(fresh)
    &&& mem1.buddy@.start == mem0.buddy@.start
    &&& mem1.buddy@.pages == mem0.buddy@.pages
    &&& mem1.ram.spec_start() == mem0.ram.spec_start()
    &&& forall|p: int|
        0 <= p ==> (#[trigger] mem1.buddy@.page_free(p) <==> mem0.buddy@.page_free(p) && p != mem0.spec_index(fresh))
    &&& forall|p: int| 0 <= p < mem0.pages@.len() && p != mem0.spec_index(fresh) ==> #[trigger] mem1.pages@[p]
        == mem0.pages@[p]
    &&& forall|a: int| fresh <= a < fresh + 4096 ==> #[trigger] mem1.ram.spec_byte(a) == 0
    &&& mem1.ram.spec_word(table + index * 8) == spec_link_word(fresh)
    &&& forall|a: int|
        mem0.ram.spec_contains(a, 1) && !(fresh <= a < fresh + 4096) && !(table + index * 8 <= a < table + index * 8
            + 8) ==> #[trigger] mem1.ram.spec_byte(a) == mem0.ram.spec_byte(a)
    &&& pt1.spec_root() == pt0.spec_root()
    &&& pt1.spec_first_index() == pt0.spec_first_index()
    &&& pt1.spec_end_index() == pt0.spec_end_index()
    &&& pt1.spec_private_len() >= 1
    &&& pt1.spec_tables() == pt0.spec_tables().insert(fresh)
    &&& pt1.spec_level(fresh) == pt0.spec_level(table) + 1
    &&& pt1.spec_parent(fresh) == (table, index)
    &&& forall|t: int| #[trigger]
        pt0.spec_tables().contains(t) ==> pt1.spec_level(t) == pt0.spec_level(t) && pt1.spec_parent(t)
            == pt0.spec_parent(t)
}

/// After a step of growth the entries of the old tables are as they were,
/// but for the one that was linked, and the entries of the new table are
/// empty.
pub proof fn lemma_link_step_entries(
    pt0: PageTable,
    mem0: MemoryManager,
    pt1: PageTable,
    mem1: MemoryManager,
    table: int,
    index: int,
    fresh: int,
)
    requires
        spec_link_step(pt0, mem0, pt1, mem1, table, index, fresh),
    ensures
        !pt0.spec_tables().contains(fresh),
        fresh % 4096 == 0,
        PHY_MEM_OFFSET <= fresh <= u64::MAX,
        forall|t: int, i: int|
            pt0.spec_tables().contains(t) && 0 <= i < 512 && !(t == table && i == index) ==> #[trigger] spec_entry(
                mem1.ram,
                t,
                i,
            ) == spec_entry(mem0.ram, t, i),
        forall|i: int| 0 <= i < 512 ==> #[trigger] spec_entry(mem1.ram, fresh, i) == PTE::spec_from(0),
        spec_is_link(spec_entry(mem1.ram, table, index)),
        spec_child(spec_entry(mem1.ram, table, index)) == fresh,
{
    reveal(spec_link_step);
    mem0.buddy.lemma_wf();
    mem1.buddy.lemma_wf();
    lemma_link_word(fresh);
    assert forall|t: int, i: int|
        pt0.spec_tables().contains(t) && 0 <= i < 512 && !(t == table && i == index) implies #[trigger] spec_entry(
        mem1.ram,
        t,
        i,
    ) == spec_entry(mem0.ram, t, i) by {
        pt0.lemma_table_in_ram(&mem0, t, i);
        pt0.lemma_table_in_ram(&mem0, table, index);
        let addr = t + i * 8;
        assert forall|a: int| addr <= a < addr + 8 implies #[trigger] mem0.ram.spec_byte(a) == mem1.ram.spec_byte(
            a,
        ) by {
            assert(mem0.ram.spec_contains(a, 1));
        }
        mem0.ram.lemma_word_same(&mem1.ram, addr);
    }
    assert forall|i: int| 0 <= i < 512 implies #[trigger] spec_entry(mem1.ram, fresh, i) == PTE::spec_from(0) by {
        mem1.ram.lemma_zero_word(fresh + i * 8);
    }
}

/// A step of growth is growth.
pub proof fn lemma_link_step(
    pt0: PageTable,
    mem0: MemoryManager,
    pt1: PageTable,
    mem1: MemoryManager,
    table: int,
    index: int,
    fresh: int,
)
    requires
        spec_link_step(pt0, mem0, pt1, mem1, table, index, fresh),
    ensures
        spec_grown(pt0, mem0, pt1, mem1, Set::empty()),
        pt1.wf(&mem1),
{
    reveal(spec_grown);
    reveal(spec_link_step);
    lemma_link_step_entries(pt0, mem0, pt1, mem1, table, index, fresh);
    mem0.buddy.lemma_wf();
    mem1.buddy.lemma_wf();
    PTE::lemma_entry(0, PTE::spec_from(0), 0, 0);
    let zero = PTE::spec_from(0);
    // the page table is well-formed again
    assert forall|t: int| #[trigger] pt1.spec_tables().contains(t) implies {
        &&& 0 <= pt1.spec_level(t) <= 2
        &&& mem1.spec_is_frame(t)
        &&& !mem1.spec_frame_free(t)
        &&& pt1.spec_level(t) == 0 ==> t == pt1.spec_root()
    } by {
        if t != fresh {
            assert(pt0.spec_tables().contains(t));
        }
    }
    assert forall|t: int, i: int| pt1.spec_inner_entry(t, i) implies {
        let pte = #[trigger] spec_entry(mem1.ram, t, i);
        &&& !pte.spec_is_leaf()
        &&& pte.spec_valid() ==> {
            &&& pt1.spec_tables().contains(spec_child(pte))
            &&& pt1.spec_level(spec_child(pte)) == pt1.spec_level(t) + 1
            &&& pt1.spec_parent(spec_child(pte)) == (t, i)
        }
    } by {
        if t == fresh {
            assert(spec_entry(mem1.ram, fresh, i) == zero);
        } else if t == table && i == index {
        } else {
            assert(pt0.spec_tables().contains(t));
            assert(pt0.spec_inner_entry(t, i));
            assert(spec_entry(mem1.ram, t, i) == spec_entry(mem0.ram, t, i));
            let pte = spec_entry(mem0.ram, t, i);
            if pte.spec_valid() {
                assert(pt0.spec_tables().contains(spec_child(pte)));
            }
        }
    }
    assert(pt1.wf(&mem1));
    assert forall|p: int|
        0 <= p && #[trigger] mem0.buddy@.page_free(p) && !pt1.spec_tables().contains(
            mem0.buddy@.start + p * 4096,
        ) implies mem1.buddy@.page_free(p) by {
        assert(pt1.spec_tables().contains(fresh));
    }
    assert forall|p: int|
        0 <= p < mem0.pages@.len() && (pt0.spec_tables().contains(mem0.buddy@.start + p * 4096)
            || !pt1.spec_tables().contains(mem0.buddy@.start + p * 4096)) implies #[trigger] mem1.pages@[p]
        == mem0.pages@[p] by {
        assert(pt1.spec_tables().contains(fresh));
    }
    assert forall|a: int|
        mem0.ram.spec_contains(a, 1) && !pt1.spec_tables().contains(spec_frame_of(a)) implies #[trigger] mem1.ram.spec_byte(
        a,
    ) == mem0.ram.spec_byte(a) by {
        assert(pt1.spec_tables().contains(fresh));
        assert(pt1.spec_tables().contains(table));
        pt0.lemma_table_in_ram(&mem0, table, index);
    }
    // every address walks and is mapped as before
    assert forall|v: u64| pt0.spec_covers(v) implies #[trigger] pt1.spec_translate(&mem1, v) == pt0.spec_translate(
        &mem0,
        v,
    ) by {
        lemma_link_step_addr(pt0, mem0, pt1, mem1, table, index, fresh, v);
    }
    assert forall|v: u64| pt0.spec_covers(v) && pt0.spec_walk(&mem0, v) is Some implies #[trigger] pt1.spec_walk(
        &mem1,
        v,
    ) == pt0.spec_walk(&mem0, v) by {
        lemma_link_step_addr(pt0, mem0, pt1, mem1, table, index, fresh, v);
    }
}

/// After a step of growth an address walks, where it walked, and is mapped
/// as before.
proof fn lemma_link_step_addr(
    pt0: PageTable,
    mem0: MemoryManager,
    pt1: PageTable,
    mem1: MemoryManager,
    table: int,
    index: int,
    fresh: int,
    v: u64,
)
    requires
        spec_link_step(pt0, mem0, pt1, mem1, table, index, fresh),
        pt0.spec_covers(v),
    ensures
        pt1.spec_translate(&mem1, v) == pt0.spec_translate(&mem0, v),
        pt0.spec_walk(&mem0, v) is Some ==> pt1.spec_walk(&mem1, v) == pt0.spec_walk(&mem0, v),
{
    reveal(spec_link_step);
    lemma_link_step_entries(pt0, mem0, pt1, mem1, table, index, fresh);
    PTE::lemma_entry(0, PTE::spec_from(0), 0, 0);
    let zero = PTE::spec_from(0);
    lemma_index_bounds(v);
    let root = pt0.spec_root();
    let i2 = spec_level_index(v, 0);
    let i1 = spec_level_index(v, 1);
    let i0 = spec_level_index(v, 2);
    reveal_with_fuel(spec_walk_from, 4);
    assert(pt0.spec_inner_entry(root, i2));
    let e0 = spec_entry(mem0.ram, root, i2);
    let f0 = spec_entry(mem1.ram, root, i2);
    assert(!e0.spec_is_leaf());
    if root == table && i2 == index {
        // the new table stands at the middle level and is empty
        assert(spec_entry(mem1.ram, fresh, i1) == zero);
    } else {
        assert(f0 == e0);
        if e0.spec_valid() {
            let t1 = spec_child(e0);
            assert(pt0.spec_tables().contains(t1));
            assert(pt0.spec_inner_entry(t1, i1));
            let e1 = spec_entry(mem0.ram, t1, i1);
            let f1 = spec_entry(mem1.ram, t1, i1);
            assert(!e1.spec_is_leaf());
            if t1 == table && i1 == index {
                // the new table stands at the last level and is empty
                assert(spec_entry(mem1.ram, fresh, i0) == zero);
            } else {
                assert(f1 == e1);
                if e1.spec_valid() {
                    let t2 = spec_child(e1);
                    assert(pt0.spec_tables().contains(t2));
                    assert(pt0.spec_level(t2) == 2);
                    assert(spec_entry(mem1.ram, t2, i0) == spec_entry(mem0.ram, t2, i0));
                }
            }
        }
    }
}

/// The state of a walk for `vaddr` that has got to the table `table` of
/// level `level`: what has changed since the walk began is growth; as many
/// free frames have gone as tables have been made; a table that the walk has
/// made is empty; and a walk that may make no tables has changed nothing.
#[verifier::opaque]
pub open spec fn spec_walking(
    pt0: PageTable,
    mem0: MemoryManager,
    pt: PageTable,
    mem: MemoryManager,
    vaddr: u64,
    alloc: bool,
    level: int,
    table: int,
) -> bool {
    &&& pt.wf(&mem)
    &&& pt0.wf(&mem0)
    &&& pt0.spec_covers(vaddr)
    &&& pt.spec_covers(vaddr)
    &&& 0 <= level <= 2
    &&& spec_grown(pt0, mem0, pt, mem, Set::empty())
    &&& spec_table_at(mem.ram, pt.spec_root(), level, vaddr) == Some(table)
    &&& alloc ==> mem.buddy@.free_pages_from(0) >= pt.spec_missing(&mem, vaddr)
    &&& alloc ==> mem.buddy@.free_pages_from(0) - pt.spec_missing(&mem, vaddr) == mem0.buddy@.free_pages_from(0)
        - pt0.spec_missing(&mem0, vaddr)
    &&& alloc ==> pt.spec_missing(&mem, vaddr) <= pt0.spec_missing(&mem0, vaddr)
    &&& alloc && pt.spec_missing(&mem, vaddr) < pt0.spec_missing(&mem0, vaddr) ==> forall|j: int|
        0 <= j < 512 ==> #[trigger] spec_entry(mem.ram, table, j) == PTE::spec_from(0)
    &&& alloc ==> pt.spec_private_len() + pt.spec_missing(&mem, vaddr) == pt0.spec_private_len() + pt0.spec_missing(
        &mem0,
        vaddr,
    )
    &&& !alloc ==> pt0.spec_walk(&mem0, vaddr) == pt.spec_walk(&mem, vaddr)
    &&& !alloc || pt0.spec_missing(&mem0, vaddr) == pt.spec_missing(&mem, vaddr) ==> {
        &&& mem.ram == mem0.ram
        &&& mem.buddy@ == mem0.buddy@
        &&& mem.pages@ == mem0.pages@
        &&& pt.spec_tables() == pt0.spec_tables()
        &&& pt.spec_private_len() == pt0.spec_private_len()
    }
}

/// What a walk for `vaddr` with the result `r` has done. What has changed
/// is growth. Without `alloc` the result is the walk of the state before, and
/// nothing has changed. With `alloc` the walk has succeeded, one free frame
/// has gone for each table that was missing, and nothing has changed where
/// none was. A walk that succeeds ends at the last level, at the entry at
/// which the walk of the state after ends, which holds what the state before
/// held there, or nothing where the entry is new.
#[verifier::opaque]
pub open spec fn spec_walked(
    pt0: PageTable,
    mem0: MemoryManager,
    pt: PageTable,
    mem: MemoryManager,
    vaddr: u64,
    alloc: bool,
    r: Option<WalkRet>,
) -> bool {
    &&& pt.wf(&mem)
    &&& pt.spec_covers(vaddr)
    &&& spec_grown(pt0, mem0, pt, mem, Set::empty())
    &&& !alloc ==> r == pt0.spec_walk(&mem0, vaddr)
    &&& alloc ==> r is Some
    &&& r is Some ==> r == pt.spec_walk(&mem, vaddr)
    &&& r matches Some(ret) ==> ret.level == 2 && mem.ram.spec_contains(ret.pte_addr as int, 8)
    &&& r is Some ==> pt.spec_leaf_entry(&mem, vaddr) == pt0.spec_leaf_entry(&mem0, vaddr)
    &&& !alloc || pt0.spec_missing(&mem0, vaddr) == 0 ==> {
        &&& mem.ram == mem0.ram
        &&& mem.buddy@ == mem0.buddy@
        &&& mem.pages@ == mem0.pages@
        &&& pt.spec_tables() == pt0.spec_tables()
        &&& pt.spec_private_len() == pt0.spec_private_len()
    }
    &&& alloc ==> mem.buddy@.free_pages_from(0) == mem0.buddy@.free_pages_from(0) - pt0.spec_missing(&mem0, vaddr)
    &&& alloc ==> pt.spec_private_len() == pt0.spec_private_len() + pt0.spec_missing(&mem0, vaddr)
}

/// A walk begins at the root.
pub proof fn lemma_walking_start(pt: PageTable, mem: MemoryManager, vaddr: u64, alloc: bool)
    requires
        pt.wf(&mem),
        pt.spec_covers(vaddr),
        alloc ==> mem.buddy@.free_pages_from(0) >= pt.spec_missing(&mem, vaddr),
    ensures
        spec_walking(pt, mem, pt, mem, vaddr, alloc, 0, pt.spec_root()),
{
    reveal(spec_walking);
    lemma_grown_refl(pt, mem);
}

/// What a walk that has got to a table knows of the entry that it reads
/// there.
pub proof fn lemma_walking_entry(
    pt0: PageTable,
    mem0: MemoryManager,
    pt: PageTable,
    mem: MemoryManager,
    vaddr: u64,
    alloc: bool,
    level: int,
    table: int,
)
    requires
        spec_walking(pt0, mem0, pt, mem, vaddr, alloc, level, table),
    ensures
        pt.wf(&mem),
        pt.spec_covers(vaddr),
        0 <= level <= 2,
        0 <= spec_level_index(vaddr, level) < 512,
        PHY_MEM_OFFSET <= table,
        table + spec_level_index(vaddr, level) * 8 + 8 <= u64::MAX,
        mem.ram.spec_contains(table + spec_level_index(vaddr, level) * 8, 8),
        level < 2 ==> pt.spec_inner_entry(table, spec_level_index(vaddr, level)),
        level < 2 ==> !spec_entry(mem.ram, table, spec_level_index(vaddr, level)).spec_is_leaf(),
        level < 2 && spec_entry(mem.ram, table, spec_level_index(vaddr, level)).spec_valid() ==> {
            let c = spec_child(spec_entry(mem.ram, table, spec_level_index(vaddr, level)));
            PHY_MEM_OFFSET <= c <= u64::MAX
        },
        alloc && level < 2 && !spec_entry(mem.ram, table, spec_level_index(vaddr, level)).spec_valid()
            ==> mem.buddy@.free_pages_from(0) >= 1,
{
    reveal(spec_walking);
    lemma_index_bounds(vaddr);
    pt.lemma_table_at(&mem, vaddr, level);
    let idx = spec_level_index(vaddr, level);
    pt.lemma_table_in_ram(&mem, table, idx);
    if level < 2 {
        assert(pt.spec_inner_entry(table, idx));
        let e = spec_entry(mem.ram, table, idx);
        if e.spec_valid() {
            pt.lemma_table_in_ram(&mem, spec_child(e), 0);
        } else {
            reveal_with_fuel(spec_missing_from, 2);
        }
    }
}

/// A walk ends at an entry that maps a page, and at the last level.
#[verifier::rlimit(100)]
#[verifier::spinoff_prover]
pub proof fn lemma_walking_done(
    pt0: PageTable,
    mem0: MemoryManager,
    pt: PageTable,
    mem: MemoryManager,
    vaddr: u64,
    alloc: bool,
    level: int,
    table: int,
)
    requires
        spec_walking(pt0, mem0, pt, mem, vaddr, alloc, level, table),
        spec_entry(mem.ram, table, spec_level_index(vaddr, level)).spec_is_leaf() || level == 2,
    ensures
        spec_walked(
            pt0,
            mem0,
            pt,
            mem,
            vaddr,
            alloc,
            Some(WalkRet { level: level as usize, pte_addr: (table + spec_level_index(vaddr, level) * 8) as u64 }),
        ),
{
    reveal(spec_walking);
    reveal(spec_walked);
    lemma_walking_entry(pt0, mem0, pt, mem, vaddr, alloc, level, table);
    lemma_index_bounds(vaddr);
    pt.lemma_table_at(&mem, vaddr, level);
    pt.lemma_walk(&mem, vaddr);
    pt0.lemma_walk(&mem0, vaddr);
    PTE::lemma_entry(0, PTE::spec_from(0), 0, 0);
    let idx = spec_level_index(vaddr, level);
    let pte = spec_entry(mem.ram, table, idx);
    assert(spec_walk_from(mem.ram, table, level, vaddr) == Some(
        WalkRet { level: level as usize, pte_addr: (table + idx * 8) as u64 },
    ));
    assert(pt.spec_leaf_entry(&mem, vaddr) == pte);
    assert(pt.spec_root() == pt0.spec_root()) by {
        reveal(spec_grown);
    }
    if alloc && pt.spec_missing(&mem, vaddr) < pt0.spec_missing(&mem0, vaddr) {
        assert(pte == PTE::spec_from(0));
        assert(pt0.spec_walk(&mem0, vaddr) is None);
    } else {
        assert(mem.ram == mem0.ram);
        assert(pt.spec_walk(&mem, vaddr) == pt0.spec_walk(&mem0, vaddr));
    }
}

/// A walk that may make no tables fails at an entry that is not in use.
pub proof fn lemma_walking_fail(
    pt0: PageTable,
    mem0: MemoryManager,
    pt: PageTable,
    mem: MemoryManager,
    vaddr: u64,
    level: int,
    table: int,
)
    requires
        spec_walking(pt0, mem0, pt, mem, vaddr, false, level, table),
        level < 2,
        !spec_entry(mem.ram, table, spec_level_index(vaddr, level)).spec_valid(),
    ensures
        spec_walked(pt0, mem0, pt, mem, vaddr, false, None),
{
    reveal(spec_walking);
    reveal(spec_walked);
    lemma_walking_entry(pt0, mem0, pt, mem, vaddr, false, level, table);
    pt.lemma_table_at(&mem, vaddr, level);
    reveal_with_fuel(spec_walk_from, 2);
}

/// A walk goes on, through an entry that points to a table, with that
/// table.
pub proof fn lemma_walking_descend(
    pt0: PageTable,
    mem0: MemoryManager,
    pt: PageTable,
    mem: MemoryManager,
    vaddr: u64,
    alloc: bool,
    level: int,
    table: int,
)
    requires
        spec_walking(pt0, mem0, pt, mem, vaddr, alloc, level, table),
        level < 2,
        spec_is_link(spec_entry(mem.ram, table, spec_level_index(vaddr, level))),
    ensures
        spec_walking(
            pt0,
            mem0,
            pt,
            mem,
            vaddr,
            alloc,
            level + 1,
            spec_child(spec_entry(mem.ram, table, spec_level_index(vaddr, level))),
        ),
{
    reveal(spec_walking);
    reveal_with_fuel(spec_table_at, 2);
    PTE::lemma_entry(0, PTE::spec_from(0), 0, 0);
    lemma_index_bounds(vaddr);
    if alloc && pt.spec_missing(&mem, vaddr) < pt0.spec_missing(&mem0, vaddr) {
        // a table that the walk has made is empty and has no entry to go through
        assert(spec_entry(mem.ram, table, spec_level_index(vaddr, level)) == PTE::spec_from(0));
    }
}

/// A walk goes on, where it has made a table, with that table.
pub proof fn lemma_walking_install(
    pt0: PageTable,
    mem0: MemoryManager,
    pta: PageTable,
    mema: MemoryManager,
    ptb: PageTable,
    memb: MemoryManager,
    vaddr: u64,
    level: int,
    table: int,
    fresh: int,
)
    requires
        spec_walking(pt0, mem0, pta, mema, vaddr, true, level, table),
        level < 2,
        spec_link_step(pta, mema, ptb, memb, table, spec_level_index(vaddr, level), fresh),
        memb.buddy@.free_pages_from(0) == mema.buddy@.free_pages_from(0) - 1,
        ptb.spec_private_len() == pta.spec_private_len() + 1,
    ensures
        spec_walking(pt0, mem0, ptb, memb, vaddr, true, level + 1, fresh),
{
    reveal(spec_walking);
    let index = spec_level_index(vaddr, level);
    lemma_link_step(pta, mema, ptb, memb, table, index, fresh);
    lemma_grown_trans(pt0, mem0, pta, mema, ptb, memb, Set::empty(), Set::empty());
    assert(Set::<u64>::empty().union(Set::empty()) =~= Set::<u64>::empty());
    ptb.lemma_link_step_walk(pta, mema, &memb, vaddr, level, table, fresh);
    lemma_link_step_entries(pta, mema, ptb, memb, table, index, fresh);
    assert(ptb.spec_covers(vaddr)) by {
        reveal(spec_link_step);
    }
}

impl PageTable {
    /// Walks the page table for `vaddr`. With `alloc`, a table that is
    /// missing on the way is made from a fresh frame, so that the walk gets
    /// to the last level; there must be as many free frames as tables are
    /// missing. Without `alloc` nothing changes, and the walk fails where a
    /// table is missing.
    pub fn _walk_common(&mut self, mem: &mut MemoryManager, vaddr: u64, alloc: bool) -> (r: Option<WalkRet>)
        requires
            old(self).wf(old(mem)),
            old(self).spec_covers(vaddr),
            alloc ==> old(mem).buddy@.free_pages_from(0) >= old(self).spec_missing(old(mem), vaddr),
        ensures
            spec_walked(*old(self), *old(mem), *final(self), *final(mem), vaddr, alloc, r),
    {
        let mut pg_vaddr = self._get_root_page_vaddr().0;
        let mut i: usize = 0;
        proof {
            lemma_walking_start(*self, *mem, vaddr, alloc);
        }
        while i < 3
            invariant
                i <= 2,
                spec_walking(*old(self), *old(mem), *self, *mem, vaddr, alloc, i as int, pg_vaddr as int),
            decreases 3 - i,
        {
            proof {
                lemma_walking_entry(*old(self), *old(mem), *self, *mem, vaddr, alloc, i as int, pg_vaddr as int);
            }
            let index = if i == 0 {
                addr_get_ppn2(vaddr)
            } else if i == 1 {
                addr_get_ppn1(vaddr)
            } else {
                addr_get_ppn0(vaddr)
            };
            let entry_addr = pg_vaddr + index * 8;
            let entry = mem.ram.read_u64(Vaddr(entry_addr));
            let pte = PTE::from(entry);
            assert(pte == spec_entry(mem.ram, pg_vaddr as int, index as int));
            // a leaf ends the walk whether it is in use or not
            if pte.is_leaf() {
                proof {
                    lemma_walking_done(*old(self), *old(mem), *self, *mem, vaddr, alloc, i as int, pg_vaddr as int);
                }
                return Some(WalkRet { level: i, pte_addr: entry_addr });
            }
            if i == 2 {
                proof {
                    lemma_walking_done(*old(self), *old(mem), *self, *mem, vaddr, alloc, i as int, pg_vaddr as int);
                }
                return Some(WalkRet { level: 2, pte_addr: entry_addr });
            }
            if pte.vaild() {
                proof {
                    lemma_walking_descend(*old(self), *old(mem), *self, *mem, vaddr, alloc, i as int, pg_vaddr as int);
                }
                let v: Vaddr = Paddr(pte.get_point_paddr()).into();
                pg_vaddr = v.0;
            } else {
                // an entry that is not in use and maps no page
                if alloc {
                    let ghost pta = *self;
                    let ghost mema = *mem;
                    let allocated_page_vaddr = self._install_table(mem, pg_vaddr, index, pte);
                    proof {
                        lemma_walking_install(
                            *old(self),
                            *old(mem),
                            pta,
                            mema,
                            *self,
                            *mem,
                            vaddr,
                            i as int,
                            pg_vaddr as int,
                            allocated_page_vaddr as int,
                        );
                    }
                    pg_vaddr = allocated_page_vaddr;
                } else {
                    proof {
                        lemma_walking_fail(*old(self), *old(mem), *self, *mem, vaddr, i as int, pg_vaddr as int);
                    }
                    return None;
                }
            }
            i += 1;
        }
        proof {
            // the loop ends by a return
            assert(false);
        }
        return None;
    }

    /// After a step of growth on the way of `vaddr`, the way of `vaddr`
    /// leads through the new table, and one table less is missing.
    proof fn lemma_link_step_walk(
        &self,
        pt0: PageTable,
        mem0: MemoryManager,
        mem1: &MemoryManager,
        vaddr: u64,
        level: int,
        table: int,
        fresh: int,
    )
        requires
            0 <= level < 2,
            pt0.spec_covers(vaddr),
            spec_link_step(pt0, mem0, *self, *mem1, table, spec_level_index(vaddr, level), fresh),
            spec_table_at(mem0.ram, pt0.spec_root(), level, vaddr) == Some(table),
            self.wf(mem1),
        ensures
            spec_table_at(mem1.ram, self.spec_root(), level + 1, vaddr) == Some(fresh),
            self.spec_missing(mem1, vaddr) == pt0.spec_missing(&mem0, vaddr) - 1,
    {
        let index = spec_level_index(vaddr, level);
        reveal(spec_link_step);
        lemma_link_step_entries(pt0, mem0, *self, *mem1, table, index, fresh);
        lemma_index_bounds(vaddr);
        PTE::lemma_entry(0, PTE::spec_from(0), 0, 0);
        pt0.lemma_table_at(&mem0, vaddr, level);
        reveal_with_fuel(spec_table_at, 4);
        reveal_with_fuel(spec_missing_from, 4);
        let root = pt0.spec_root();
        let i2 = spec_level_index(vaddr, 0);
        let i1 = spec_level_index(vaddr, 1);
        let i0 = spec_level_index(vaddr, 2);
        assert(pt0.spec_inner_entry(root, i2));
        if level == 0 {
            assert(spec_entry(mem1.ram, fresh, i1) == PTE::spec_from(0));
        } else {
            let e0 = spec_entry(mem0.ram, root, i2);
            assert(spec_is_link(e0));
            assert(pt0.spec_level(table) == 1);
            assert(spec_entry(mem1.ram, root, i2) == e0);
            assert(spec_entry(mem1.ram, fresh, i0) == PTE::spec_from(0));
        }
    }

    /// Makes a fresh frame the table that the entry `index` of the table at
    /// `table`, which is not in use, points to, and returns its address.
    #[verifier::rlimit(60)]
    fn _install_table(&mut self, mem: &mut MemoryManager, table: u64, index: u64, pte: PTE) -> (fresh: u64)
        requires
            old(self).wf(old(mem)),
            old(self).spec_inner_entry(table as int, index as int),
            pte == spec_entry(old(mem).ram, table as int, index as int),
            !pte.spec_valid(),
            old(mem).buddy@.free_pages_from(0) >= 1,
        ensures
            spec_link_step(*old(self), *old(mem), *final(self), *final(mem), table as int, index as int, fresh as int),
            final(mem).buddy@.free_pages_from(0) == old(mem).buddy@.free_pages_from(0) - 1,
            final(self).spec_private_len() == old(self).spec_private_len() + 1,
            final(self).wf(final(mem)),
            final(self).spec_first_index() == old(self).spec_first_index(),
            final(self).spec_end_index() == old(self).spec_end_index(),
            final(self).spec_root() == old(self).spec_root(),
    {
        let ghost pt0 = *self;
        let ghost mem0 = *mem;
        let mut pte = pte;
        proof {
            mem.buddy.lemma_wf();
            lemma_allocate_count(mem.buddy@, 0);
            crate::utils::lemma_order2pages_values();
            self.lemma_table_in_ram(mem, table as int, index as int);
        }
        let pg_opt = alloc_pages(mem, 0);
        let pg_arc = pg_opt.unwrap();
        let allocated_page_vaddr = pg_arc.get_vaddr().0;
        let ghost fresh = allocated_page_vaddr as int;
        let ghost fidx = mem0.spec_index(fresh);
        proof {
            assert(spec_allocated(&mem0, mem, 0, &pg_arc));
            assert forall|p: int| spec_in_block(p, fidx, 0) <==> p == fidx by {
                assert(crate::mm::buddy_model::spec_ancestor(p, 0) == p);
                assert(crate::mm::buddy_model::spec_ancestor(fidx, 0) == fidx);
            }
            assert(spec_in_block(fidx, fidx, 0));
            assert(mem0.buddy@.page_free(fidx));
        }
        self.private_pgs.push(pg_arc);
        pte.set_ppn_by_paddr(allocated_page_vaddr - PHY_MEM_OFFSET);
        pte.clear_all_flags();
        pte.set_flags(PTE_V);
        let new_pte_val = pte.into();
        let ghost mem_mid = *mem;
        // write the entry back
        mem.ram.write_u64(Vaddr(table + index * 8), new_pte_val);
        proof {
            self.levels = Ghost(self.levels@.insert(fresh, pt0.levels@[table as int] + 1));
            self.parents = Ghost(self.parents@.insert(fresh, (table as int, index as int)));
            lemma_pte_flags(0, 1);
            assert(pte == PTE::spec_new((fresh - PHY_MEM_OFFSET) as u64, 1u8));
            assert(self.spec_tables() =~= pt0.spec_tables().insert(fresh));
            assert(!pt0.spec_tables().contains(fresh));
            assert forall|a: int|
                mem0.ram.spec_contains(a, 1) && !(fresh <= a < fresh + 4096) && !(table + index * 8 <= a < table
                    + index * 8 + 8) implies #[trigger] mem.ram.spec_byte(a) == mem0.ram.spec_byte(a) by {
                assert(mem_mid.ram.spec_byte(a) == mem0.ram.spec_byte(a));
                assert(mem.ram.spec_byte(a) == mem_mid.ram.spec_byte(a));
            }
            assert forall|a: int| fresh <= a < fresh + 4096 implies #[trigger] mem.ram.spec_byte(a) == 0 by {
                assert(mem_mid.ram.spec_byte(a) == 0);
                assert(mem_mid.ram.spec_contains(a, 1));
                assert(mem.ram.spec_byte(a) == mem_mid.ram.spec_byte(a));
            }
            assert forall|p: int| 0 <= p < mem0.pages@.len() && p != fidx implies #[trigger] mem.pages@[p]
                == mem0.pages@[p] by {
                assert(!spec_in_block(p, fidx, 0));
            }
            assert(self.private_pgs@[0] == pt0.private_pgs@[0]);
            assert(spec_link_step(pt0, mem0, *self, *mem, table as int, index as int, fresh)) by {
                reveal(spec_link_step);
            }
            lemma_link_step(pt0, mem0, *self, *mem, table as int, index as int, fresh);
        }
        allocated_page_vaddr
    }
}

/// What a store of the word `word` at `addr` has done to the memory: the
/// word is there, and nothing else has changed.
pub open spec fn spec_word_written(mem0: MemoryManager, mem1: MemoryManager, addr: int, word: u64) -> bool {
    &&& mem1.wf()
    &&& mem1.buddy@ == mem0.buddy@
    &&& mem1.pages@ == mem0.pages@
    &&& mem1.ram.spec_word(addr) == word
    &&& mem0.ram.same_but(&mem1.ram, addr, 8)
}

impl PageTable {
    /// The entry at which the walk for `vaddr` ends, or the empty entry
    /// where the walk fails.
    pub open spec fn spec_leaf_entry(&self, mem: &MemoryManager, vaddr: u64) -> PTE {
        match self.spec_walk(mem, vaddr) {
            Some(r) => PTE::spec_from(mem.ram.spec_word(r.pte_addr as int)),
            None => PTE::spec_from(0),
        }
    }

    /// The walk of a covered address ends at the last level, in a table of
    /// the page table; and at most two tables are missing on its way.
    pub proof fn lemma_walk(&self, mem: &MemoryManager, vaddr: u64)
        requires
            self.wf(mem),
            self.spec_covers(vaddr),
        ensures
            0 <= self.spec_missing(mem, vaddr) <= 2,
            self.spec_missing(mem, vaddr) == 0 <==> self.spec_walk(mem, vaddr) is Some,
            self.spec_walk(mem, vaddr) matches Some(r) ==> {
                &&& r.level == 2
                &&& spec_table_at(mem.ram, self.spec_root(), 2, vaddr) is Some
                &&& r.pte_addr == spec_table_at(mem.ram, self.spec_root(), 2, vaddr)->0 + spec_level_index(vaddr, 2)
                    * 8
                &&& mem.ram.spec_contains(r.pte_addr as int, 8)
                &&& self.spec_tables().contains(spec_frame_of(r.pte_addr as int))
                &&& self.spec_level(spec_frame_of(r.pte_addr as int)) == 2
            },
    {
        lemma_index_bounds(vaddr);
        self.lemma_table_at(mem, vaddr, 0);
        self.lemma_table_at(mem, vaddr, 1);
        self.lemma_table_at(mem, vaddr, 2);
        reveal_with_fuel(spec_walk_from, 4);
        reveal_with_fuel(spec_missing_from, 4);
        reveal_with_fuel(spec_table_at, 4);
        let root = self.spec_root();
        assert(self.spec_inner_entry(root, spec_level_index(vaddr, 0)));
        match spec_table_at(mem.ram, root, 1, vaddr) {
            Some(t1) => {
                assert(self.spec_inner_entry(t1, spec_level_index(vaddr, 1)));
                match spec_table_at(mem.ram, root, 2, vaddr) {
                    Some(t2) => {
                        self.lemma_table_in_ram(mem, t2, spec_level_index(vaddr, 2));
                    },
                    None => {},
                }
            },
            None => {},
        }
    }

    /// Addresses whose indices differ above the last level reach different
    /// tables of the last level.
    pub proof fn lemma_tables_distinct(&self, mem: &MemoryManager, v: u64, w: u64)
        requires
            self.wf(mem),
            self.spec_covers(v),
            self.spec_covers(w),
            spec_table_at(mem.ram, self.spec_root(), 2, v) is Some,
            spec_table_at(mem.ram, self.spec_root(), 2, w) is Some,
            spec_level_index(v, 0) != spec_level_index(w, 0) || spec_level_index(v, 1) != spec_level_index(w, 1),
        ensures
            spec_table_at(mem.ram, self.spec_root(), 2, v) != spec_table_at(mem.ram, self.spec_root(), 2, w),
    {
        lemma_index_bounds(v);
        lemma_index_bounds(w);
        reveal_with_fuel(spec_table_at, 4);
        let root = self.spec_root();
        let v2 = spec_level_index(v, 0);
        let v1 = spec_level_index(v, 1);
        let w2 = spec_level_index(w, 0);
        let w1 = spec_level_index(w, 1);
        assert(self.spec_inner_entry(root, v2));
        assert(self.spec_inner_entry(root, w2));
        let ev = spec_entry(mem.ram, root, v2);
        let ew = spec_entry(mem.ram, root, w2);
        let tv1 = spec_child(ev);
        let tw1 = spec_child(ew);
        assert(self.spec_parent(tv1) == (root, v2));
        assert(self.spec_parent(tw1) == (root, w2));
        assert(self.spec_inner_entry(tv1, v1));
        assert(self.spec_inner_entry(tw1, w1));
        let fv = spec_entry(mem.ram, tv1, v1);
        let fw = spec_entry(mem.ram, tw1, w1);
        assert(self.spec_parent(spec_child(fv)) == (tv1, v1));
        assert(self.spec_parent(spec_child(fw)) == (tw1, w1));
    }

    /// Addresses on different pages end their walks at different entries.
    #[verifier::rlimit(50)]
    #[verifier::spinoff_prover]
    pub proof fn lemma_slot_distinct(&self, mem: &MemoryManager, v: u64, w: u64)
        requires
            self.wf(mem),
            self.spec_covers(v),
            self.spec_covers(w),
            spec_vpn(v) != spec_vpn(w),
            self.spec_walk(mem, v) is Some,
            self.spec_walk(mem, w) is Some,
        ensures
            self.spec_walk(mem, v)->0.pte_addr + 8 <= self.spec_walk(mem, w)->0.pte_addr || self.spec_walk(
                mem,
                w,
            )->0.pte_addr + 8 <= self.spec_walk(mem, v)->0.pte_addr,
    {
        lemma_vpn(v, w);
        lemma_index_bounds(v);
        lemma_index_bounds(w);
        self.lemma_walk(mem, v);
        self.lemma_walk(mem, w);
        let root = self.spec_root();
        let tv = spec_table_at(mem.ram, root, 2, v)->0;
        let tw = spec_table_at(mem.ram, root, 2, w)->0;
        self.lemma_table_at(mem, v, 2);
        self.lemma_table_at(mem, w, 2);
        self.lemma_table_in_ram(mem, tv, spec_level_index(v, 2));
        self.lemma_table_in_ram(mem, tw, spec_level_index(w, 2));
        if spec_level_index(v, 0) != spec_level_index(w, 0) || spec_level_index(v, 1) != spec_level_index(w, 1) {
            self.lemma_tables_distinct(mem, v, w);
        }
    }

    /// What a store into the entry at which the walk for `vaddr` ends does:
    /// the page table stays well-formed, all addresses walk as before, and
    /// all addresses but those on the page of `vaddr` are mapped as before.
    #[verifier::rlimit(100)]
    #[verifier::spinoff_prover]
    pub proof fn lemma_leaf_write(&self, mem0: &MemoryManager, mem1: &MemoryManager, vaddr: u64, word: u64)
        requires
            self.wf(mem0),
            self.spec_covers(vaddr),
            self.spec_walk(mem0, vaddr) is Some,
            spec_word_written(*mem0, *mem1, self.spec_walk(mem0, vaddr)->0.pte_addr as int, word),
        ensures
            self.wf(mem1),
            spec_grown(*self, *mem0, *self, *mem1, set![spec_vpn(vaddr)]),
            self.spec_walk(mem1, vaddr) == self.spec_walk(mem0, vaddr),
            self.spec_leaf_entry(mem1, vaddr) == PTE::spec_from(word),
            self.spec_translate(mem1, vaddr) == if PTE::spec_from(word).spec_valid() {
                Some(PTE::spec_from(word))
            } else {
                None
            },
    {
        let r = self.spec_walk(mem0, vaddr)->0;
        let slot = r.pte_addr as int;
        self.lemma_walk(mem0, vaddr);
        mem0.buddy.lemma_wf();
        lemma_index_bounds(vaddr);
        let t2 = spec_table_at(mem0.ram, self.spec_root(), 2, vaddr)->0;
        self.lemma_table_at(mem0, vaddr, 2);
        self.lemma_table_in_ram(mem0, t2, spec_level_index(vaddr, 2));
        assert(t2 <= slot && slot + 8 <= t2 + 4096);
        assert(self.spec_level(t2) == 2);
        // the entries above the last level are as they were
        assert forall|t: int, i: int| self.spec_inner_entry(t, i) implies #[trigger] spec_entry(mem1.ram, t, i)
            == spec_entry(mem0.ram, t, i) by {
            self.lemma_table_in_ram(mem0, t, i);
            let addr = t + i * 8;
            assert(t != t2);
            assert(addr + 8 <= slot || slot + 8 <= addr);
            assert forall|a: int| addr <= a < addr + 8 implies #[trigger] mem0.ram.spec_byte(a)
                == mem1.ram.spec_byte(a) by {
                assert(mem0.ram.spec_contains(a, 1));
            }
            mem0.ram.lemma_word_same(&mem1.ram, addr);
        }
        assert forall|t: int, i: int| self.spec_inner_entry(t, i) implies {
            let pte = #[trigger] spec_entry(mem1.ram, t, i);
            &&& !pte.spec_is_leaf()
            &&& pte.spec_valid() ==> {
                &&& self.spec_tables().contains(spec_child(pte))
                &&& self.spec_level(spec_child(pte)) == self.spec_level(t) + 1
                &&& self.spec_parent(spec_child(pte)) == (t, i)
            }
        } by {
            assert(spec_entry(mem1.ram, t, i) == spec_entry(mem0.ram, t, i));
        }
        assert(self.wf(mem1));
        assert forall|v: u64| self.spec_covers(v) implies #[trigger] self.spec_walk(mem1, v) == self.spec_walk(
            mem0,
            v,
        ) by {
            self.lemma_walk_same(mem0, mem1, v);
        }
        reveal(spec_grown);
        assert forall|v: u64|
            self.spec_covers(v) && !set![spec_vpn(vaddr)].contains(spec_vpn(v)) implies #[trigger] self.spec_translate(
            mem1,
            v,
        ) == self.spec_translate(mem0, v) by {
            assert(self.spec_walk(mem1, v) == self.spec_walk(mem0, v));
            if self.spec_walk(mem0, v) is Some {
                self.lemma_slot_distinct(mem0, vaddr, v);
                self.lemma_walk(mem0, v);
                let q = self.spec_walk(mem0, v)->0.pte_addr as int;
                assert forall|a: int| q <= a < q + 8 implies #[trigger] mem0.ram.spec_byte(a)
                    == mem1.ram.spec_byte(a) by {
                    assert(mem0.ram.spec_contains(a, 1));
                }
                mem0.ram.lemma_word_same(&mem1.ram, q);
            }
        }
        assert forall|a: int|
            mem0.ram.spec_contains(a, 1) && !self.spec_tables().contains(spec_frame_of(a)) implies #[trigger] mem1.ram.spec_byte(
            a,
        ) == mem0.ram.spec_byte(a) by {
            assert(spec_frame_of(a) != t2);
            assert(!(slot <= a < slot + 8));
        }
        assert(self.spec_walk(mem1, vaddr) == self.spec_walk(mem0, vaddr));
    }

    /// Where the entries above the last level are the same in two memories,
    /// an address walks alike in both.
    pub proof fn lemma_walk_same(&self, mem0: &MemoryManager, mem1: &MemoryManager, v: u64)
        requires
            self.wf(mem0),
            self.spec_covers(v),
            forall|t: int, i: int|
                self.spec_inner_entry(t, i) ==> #[trigger] spec_entry(mem1.ram, t, i) == spec_entry(mem0.ram, t, i),
        ensures
            self.spec_walk(mem1, v) == self.spec_walk(mem0, v),
            self.spec_missing(mem1, v) == self.spec_missing(mem0, v),
    {
        lemma_index_bounds(v);
        reveal_with_fuel(spec_walk_from, 4);
        reveal_with_fuel(spec_missing_from, 4);
        let root = self.spec_root();
        let i2 = spec_level_index(v, 0);
        let i1 = spec_level_index(v, 1);
        assert(self.spec_inner_entry(root, i2));
        let e0 = spec_entry(mem0.ram, root, i2);
        assert(spec_entry(mem1.ram, root, i2) == e0);
        if spec_is_link(e0) {
            let t1 = spec_child(e0);
            assert(self.spec_inner_entry(t1, i1));
            let e1 = spec_entry(mem0.ram, t1, i1);
            assert(spec_entry(mem1.ram, t1, i1) == e1);
        }
    }

    /// Number of tables missing on the way of `vaddr` to the last level.
    pub fn _missing_tables(&self, mem: &MemoryManager, vaddr: u64) -> (n: usize)
        requires
            self.wf(mem),
            self.spec_covers(vaddr),
        ensures
            n == self.spec_missing(mem, vaddr),
            n <= 2,
    {
        proof {
            lemma_index_bounds(vaddr);
            self.lemma_walk(mem, vaddr);
            reveal_with_fuel(spec_missing_from, 4);
            self.lemma_table_in_ram(mem, self.spec_root(), spec_level_index(vaddr, 0));
            assert(self.spec_inner_entry(self.spec_root(), spec_level_index(vaddr, 0)));
        }
        let root = self._get_root_page_vaddr().0;
        let e0 = PTE::from(mem.ram.read_u64(Vaddr(root + addr_get_ppn2(vaddr) * 8)));
        assert(e0 == spec_entry(mem.ram, root as int, spec_level_index(vaddr, 0)));
        if e0.is_leaf() {
            return 0;
        }
        if !e0.vaild() {
            return 2;
        }
        proof {
            self.lemma_table_in_ram(mem, spec_child(e0), spec_level_index(vaddr, 1));
            assert(self.spec_inner_entry(spec_child(e0), spec_level_index(vaddr, 1)));
        }
        let t1: Vaddr = Paddr(e0.get_point_paddr()).into();
        let e1 = PTE::from(mem.ram.read_u64(Vaddr(t1.0 + addr_get_ppn1(vaddr) * 8)));
        assert(e1 == spec_entry(mem.ram, t1.0 as int, spec_level_index(vaddr, 1)));
        if e1.is_leaf() {
            return 0;
        }
        if !e1.vaild() {
            return 1;
        }
        0
    }

    /// Whether there are enough free frames for the tables that are missing
    /// on the way of `vaddr`.
    pub fn can_walk_alloc(&self, mem: &MemoryManager, vaddr: u64) -> (b: bool)
        requires
            self.wf(mem),
            self.spec_covers(vaddr),
        ensures
            b == (mem.buddy@.free_pages_from(0) >= self.spec_missing(mem, vaddr)),
    {
        mem.buddy.get_free_pages_cnt() >= self._missing_tables(mem, vaddr)
    }

    /// Walks the page table for `vaddr` to the last level, making the tables
    /// that are missing on the way from fresh frames; there must be as many
    /// free frames as tables are missing. Where no table is missing, nothing
    /// changes.
    pub fn walk_alloc(&mut self, mem: &mut MemoryManager, vaddr: u64) -> (ret: WalkRet)
        requires
            old(self).wf(old(mem)),
            old(self).spec_covers(vaddr),
            old(mem).buddy@.free_pages_from(0) >= old(self).spec_missing(old(mem), vaddr),
        ensures
            spec_grown(*old(self), *old(mem), *final(self), *final(mem), Set::empty()),
            final(self).wf(final(mem)),
            final(self).spec_covers(vaddr),
            final(self).spec_walk(final(mem), vaddr) == Some(ret),
            old(self).spec_walk(old(mem), vaddr) is Some ==> old(self).spec_walk(old(mem), vaddr) == Some(ret),
            final(self).spec_leaf_entry(final(mem), vaddr) == old(self).spec_leaf_entry(old(mem), vaddr),
            ret.level == 2,
            final(mem).ram.spec_contains(ret.pte_addr as int, 8),
            old(self).spec_missing(old(mem), vaddr) == 0 ==> {
                &&& final(mem).ram == old(mem).ram
                &&& final(mem).buddy@ == old(mem).buddy@
                &&& final(mem).pages@ == old(mem).pages@
                &&& final(self).spec_tables() == old(self).spec_tables()
                &&& final(self).spec_private_len() == old(self).spec_private_len()
            },
            final(mem).buddy@.free_pages_from(0) == old(mem).buddy@.free_pages_from(0) - old(self).spec_missing(
                old(mem),
                vaddr,
            ),
            final(self).spec_private_len() == old(self).spec_private_len() + old(self).spec_missing(
                old(mem),
                vaddr,
            ),
            spec_walk_made(*old(self), *old(mem), *final(self), *final(mem), vaddr, ret),
    {
        let r = self._walk_common(mem, vaddr, true);
        proof {
            reveal(spec_walked);
            old(self).lemma_walk(old(mem), vaddr);
            if old(self).spec_walk(old(mem), vaddr) is Some {
                assert(old(self).spec_walk(old(mem), vaddr) == r) by {
                    reveal(spec_grown);
                }
            }
        }
        match r {
            None => WalkRet { level: 0, pte_addr: 0 },
            Some(ret) => ret,
        }
    }
}

/// Whether the memory has changed in a way that leaves the tables of the
/// page table alone: it is still well-formed over the same range, no table
/// has become free, and the bytes of the tables are as they were.
pub open spec fn spec_kept(pt: PageTable, mem0: MemoryManager, mem1: MemoryManager) -> bool {
    &&& mem1.wf()
    &&& mem1.buddy@.start == mem0.buddy@.start
    &&& mem1.buddy@.pages == mem0.buddy@.pages
    &&& forall|t: int| #[trigger] pt.spec_tables().contains(t) ==> !mem1.spec_frame_free(t)
    &&& forall|a: int|
        mem0.ram.spec_contains(a, 1) && pt.spec_tables().contains(spec_frame_of(a)) ==> #[trigger] mem1.ram.spec_byte(
            a,
        ) == mem0.ram.spec_byte(a)
}

/// A page table whose tables have been left alone is still well-formed, and
/// every address walks and is mapped as before.
#[verifier::rlimit(100)]
#[verifier::spinoff_prover]
pub proof fn lemma_kept(pt: PageTable, mem0: MemoryManager, mem1: MemoryManager)
    requires
        pt.wf(&mem0),
        spec_kept(pt, mem0, mem1),
    ensures
        pt.wf(&mem1),
        forall|v: u64| pt.spec_covers(v) ==> #[trigger] pt.spec_walk(&mem1, v) == pt.spec_walk(&mem0, v),
        forall|v: u64| pt.spec_covers(v) ==> #[trigger] pt.spec_missing(&mem1, v) == pt.spec_missing(&mem0, v),
        forall|v: u64| pt.spec_covers(v) ==> #[trigger] pt.spec_leaf_entry(&mem1, v) == pt.spec_leaf_entry(&mem0, v),
        forall|v: u64| pt.spec_covers(v) ==> #[trigger] pt.spec_translate(&mem1, v) == pt.spec_translate(&mem0, v),
{
    mem0.buddy.lemma_wf();
    mem1.buddy.lemma_wf();
    assert forall|t: int, i: int| pt.spec_tables().contains(t) && 0 <= i < 512 implies #[trigger] spec_entry(
        mem1.ram,
        t,
        i,
    ) == spec_entry(mem0.ram, t, i) by {
        pt.lemma_table_in_ram(&mem0, t, i);
        let addr = t + i * 8;
        assert forall|a: int| addr <= a < addr + 8 implies #[trigger] mem0.ram.spec_byte(a) == mem1.ram.spec_byte(
            a,
        ) by {
            assert(mem0.ram.spec_contains(a, 1));
            assert(spec_frame_of(a) == t);
        }
        mem0.ram.lemma_word_same(&mem1.ram, addr);
    }
    assert forall|t: int, i: int| pt.spec_inner_entry(t, i) implies {
        let pte = #[trigger] spec_entry(mem1.ram, t, i);
        &&& !pte.spec_is_leaf()
        &&& pte.spec_valid() ==> {
            &&& pt.spec_tables().contains(spec_child(pte))
            &&& pt.spec_level(spec_child(pte)) == pt.spec_level(t) + 1
            &&& pt.spec_parent(spec_child(pte)) == (t, i)
        }
    } by {
        assert(spec_entry(mem1.ram, t, i) == spec_entry(mem0.ram, t, i));
    }
    assert(pt.wf(&mem1));
    assert forall|v: u64| pt.spec_covers(v) implies #[trigger] pt.spec_walk(&mem1, v) == pt.spec_walk(&mem0, v)
        && pt.spec_missing(&mem1, v) == pt.spec_missing(&mem0, v) && pt.spec_leaf_entry(&mem1, v)
        == pt.spec_leaf_entry(&mem0, v) by {
        pt.lemma_walk_same(&mem0, &mem1, v);
        pt.lemma_walk(&mem0, v);
        if pt.spec_walk(&mem0, v) is Some {
            lemma_index_bounds(v);
            let t2 = spec_table_at(mem0.ram, pt.spec_root(), 2, v)->0;
            pt.lemma_table_at(&mem0, v, 2);
            assert(spec_entry(mem1.ram, t2, spec_level_index(v, 2)) == spec_entry(
                mem0.ram,
                t2,
                spec_level_index(v, 2),
            ));
        }
    }
    assert forall|v: u64| pt.spec_covers(v) implies #[trigger] pt.spec_missing(&mem1, v) == pt.spec_missing(
        &mem0,
        v,
    ) by {
        assert(pt.spec_walk(&mem1, v) == pt.spec_walk(&mem0, v));
    }
    assert forall|v: u64| pt.spec_covers(v) implies #[trigger] pt.spec_leaf_entry(&mem1, v) == pt.spec_leaf_entry(
        &mem0,
        v,
    ) by {
        assert(pt.spec_walk(&mem1, v) == pt.spec_walk(&mem0, v));
    }
    assert forall|v: u64| pt.spec_covers(v) implies #[trigger] pt.spec_translate(&mem1, v) == pt.spec_translate(
        &mem0,
        v,
    ) by {
        assert(pt.spec_walk(&mem1, v) == pt.spec_walk(&mem0, v));
        assert(pt.spec_leaf_entry(&mem1, v) == pt.spec_leaf_entry(&mem0, v));
    }
}

/// What a change of the one entry at which the walk for `vaddr` ends has
/// done, after tables may have been added: the growth, the new entry, and
/// what `vaddr` is mapped to now.
pub open spec fn spec_entry_set(
    pt0: PageTable,
    mem0: MemoryManager,
    pt1: PageTable,
    mem1: MemoryManager,
    vaddr: u64,
    entry: PTE,
) -> bool {
    &&& pt1.wf(&mem1)
    &&& spec_grown(pt0, mem0, pt1, mem1, set![spec_vpn(vaddr)])
    &&& pt1.spec_walk(&mem1, vaddr) is Some
    &&& pt1.spec_leaf_entry(&mem1, vaddr) == entry
    &&& pt1.spec_translate(&mem1, vaddr) == if entry.spec_valid() {
        Some(entry)
    } else {
        None
    }
    &&& mem1.buddy@.free_pages_from(0) == mem0.buddy@.free_pages_from(0) - pt0.spec_missing(&mem0, vaddr)
    &&& pt1.spec_private_len() == pt0.spec_private_len() + pt0.spec_missing(&mem0, vaddr)
}

impl PageTable {
    /// Stores `entry` at the last level for `vaddr`, making the tables that
    /// are missing on the way, and returns the entry that was there.
    fn _set_leaf(&mut self, mem: &mut MemoryManager, vaddr: u64, entry: PTE) -> (before: PTE)
        requires
            old(self).wf(old(mem)),
            old(self).spec_covers(vaddr),
            old(mem).buddy@.free_pages_from(0) >= old(self).spec_missing(old(mem), vaddr),
            entry.wf(),
        ensures
            before == old(self).spec_leaf_entry(old(mem), vaddr),
            spec_entry_set(*old(self), *old(mem), *final(self), *final(mem), vaddr, entry),
            old(self).spec_missing(old(mem), vaddr) == 0 ==> final(mem).buddy@ == old(mem).buddy@ && final(mem).pages@
                == old(mem).pages@ && final(self).spec_tables() == old(self).spec_tables(),
    {
        let r = self.walk_alloc(mem, vaddr);
        let before = r.get_pte(&mem.ram);
        let ghost pt1 = *self;
        let ghost mem1 = *mem;
        let word = entry.into();
        mem.ram.write_u64(Vaddr(r.pte_addr), word);
        proof {
            PTE::lemma_entry(0, entry, 0, 0);
            mem1.buddy.lemma_wf();
            assert(spec_word_written(mem1, *mem, r.pte_addr as int, word));
            pt1.lemma_leaf_write(&mem1, mem, vaddr, word);
            lemma_grown_trans(
                *old(self),
                *old(mem),
                pt1,
                mem1,
                *self,
                *mem,
                Set::empty(),
                set![spec_vpn(vaddr)],
            );
            assert(Set::<u64>::empty().union(set![spec_vpn(vaddr)]) =~= set![spec_vpn(vaddr)]);
        }
        before
    }

    /// Whether `vaddr` is not mapped. The tables that are missing on the way
    /// of `vaddr` are made; there must be as many free frames as tables are
    /// missing.
    pub fn is_not_mapped(&mut self, mem: &mut MemoryManager, vaddr: Vaddr) -> (b: bool)
        requires
            old(self).wf(old(mem)),
            old(self).spec_covers(vaddr.0),
            old(mem).buddy@.free_pages_from(0) >= old(self).spec_missing(old(mem), vaddr.0),
        ensures
            b == (old(self).spec_translate(old(mem), vaddr.0) is None),
            final(self).wf(final(mem)),
            spec_grown(*old(self), *old(mem), *final(self), *final(mem), Set::empty()),
            final(self).spec_walk(final(mem), vaddr.0) is Some,
            final(mem).buddy@.free_pages_from(0) == old(mem).buddy@.free_pages_from(0) - old(self).spec_missing(
                old(mem),
                vaddr.0,
            ),
    {
        let r = self.walk_alloc(mem, vaddr.0);
        let pte = r.get_pte(&mem.ram);
        proof {
            PTE::lemma_entry(0, PTE::spec_from(0), 0, 0);
        }
        if pte.vaild() {
            false
        } else {
            true
        }
    }

    /// Maps the page of `vaddr` to the frame at `paddr` with the flags
    /// `flags` and the flag that marks the entry as in use. Fails, changing
    /// nothing, where the page is mapped already, and where fewer frames are
    /// free than tables are missing on the way of `vaddr`.
    pub fn map_one_page(&mut self, mem: &mut MemoryManager, vaddr: Vaddr, paddr: Paddr, flags: u8) -> (r: Result<
        (),
        isize,
    >)
        requires
            old(self).wf(old(mem)),
            old(self).spec_covers(vaddr.0),
        ensures
            final(self).wf(final(mem)),
            r is Err <==> (old(self).spec_translate(old(mem), vaddr.0) is Some || old(mem).buddy@.free_pages_from(0) < old(self).spec_missing(old(mem), vaddr.0)),
            r matches Err(e) ==> {
                &&& e == -1
                &&& final(mem).ram == old(mem).ram
                &&& final(mem).buddy@ == old(mem).buddy@
                &&& final(mem).pages@ == old(mem).pages@
                &&& final(self).spec_tables() == old(self).spec_tables()
                &&& final(self).spec_private_len() == old(self).spec_private_len()
                &&& final(self).spec_root() == old(self).spec_root()
                &&& spec_grown(*old(self), *old(mem), *final(self), *final(mem), Set::empty())
            },
            r is Ok ==> spec_entry_set(
                *old(self),
                *old(mem),
                *final(self),
                *final(mem),
                vaddr.0,
                PTE::spec_new(paddr.0, flags | 1u8),
            ),
    {
        proof {
            self.lemma_walk(mem, vaddr.0);
            PTE::lemma_entry(0, PTE::spec_from(0), paddr.0, flags | 1u8);
            lemma_pte_flags(flags, 0);
            lemma_grown_refl(*self, *mem);
        }
        if !self.can_walk_alloc(mem, vaddr.0) {
            return Err(-1);
        }
        match self.walk(mem, vaddr.0) {
            Some(r) => {
                let pte = r.get_pte(&mem.ram);
                if pte.vaild() {
                    return Err(-1);
                }
            },
            None => {},
        }
        let mut new_pte = PTE::default();
        new_pte.set_ppn_by_paddr(paddr.0);
        new_pte.set_flags(flags | PTE_V);
        proof {
            lemma_pte_flags(0, flags | 1u8);
            assert(new_pte == PTE::spec_new(paddr.0, flags | 1u8));
        }
        self._set_leaf(mem, vaddr.0, new_pte);
        Ok(())
    }

    /// Takes the mapping of the page of `vaddr` away and returns the
    /// physical address of the frame that the page was mapped to. No table is
    /// made and no frame is taken. Fails, changing nothing, where the page is
    /// not mapped.
    pub fn _unmap_one_page(&mut self, mem: &mut MemoryManager, vaddr: Vaddr) -> (r: Result<Paddr, isize>)
        requires
            old(self).wf(old(mem)),
            old(self).spec_covers(vaddr.0),
        ensures
            final(self).wf(final(mem)),
            r is Err <==> old(self).spec_translate(old(mem), vaddr.0) is None,
            r matches Err(e) ==> {
                &&& e == -1
                &&& final(mem).ram == old(mem).ram
                &&& final(mem).buddy@ == old(mem).buddy@
                &&& final(mem).pages@ == old(mem).pages@
                &&& final(self).spec_tables() == old(self).spec_tables()
                &&& final(self).spec_private_len() == old(self).spec_private_len()
                &&& final(self).spec_root() == old(self).spec_root()
                &&& spec_grown(*old(self), *old(mem), *final(self), *final(mem), Set::empty())
            },
            r matches Ok(paddr) ==> {
                &&& paddr.0 == old(self).spec_translate(old(mem), vaddr.0)->0.spec_point_paddr()
                &&& final(self).spec_translate(final(mem), vaddr.0) is None
                &&& old(self).spec_missing(old(mem), vaddr.0) == 0
                &&& final(mem).buddy@ == old(mem).buddy@
                &&& final(mem).pages@ == old(mem).pages@
                &&& final(self).spec_tables() == old(self).spec_tables()
                &&& spec_entry_set(
                    *old(self),
                    *old(mem),
                    *final(self),
                    *final(mem),
                    vaddr.0,
                    PTE {
                        flags: old(self).spec_leaf_entry(old(mem), vaddr.0).flags & (1u8 ^ 0xFFu8),
                        pnn0: 0,
                        pnn1: 0,
                        pnn2: 0,
                    },
                )
            },
    {
        proof {
            self.lemma_walk(mem, vaddr.0);
            lemma_grown_refl(*self, *mem);
            mem.buddy.lemma_wf();
            lemma_allocate_count(mem.buddy@, 0);
        }
        match self.walk(mem, vaddr.0) {
            Some(at) => {
                if !at.get_pte(&mem.ram).vaild() {
                    return Err(-1);
                }
            },
            None => {
                return Err(-1);
            },
        }
        let ghost pt0 = *self;
        let ghost mem0 = *mem;
        let r = self.walk_alloc(mem, vaddr.0);
        let mut pte = r.get_pte(&mem.ram);
        let ret: Result<Paddr, isize> = Ok(Paddr(pte.get_point_paddr()));
        pte.set_ppn_by_paddr(0);
        // set invalid
        pte.clear_flags(PTE_V);
        proof {
            lemma_pte_flags(old(self).spec_leaf_entry(old(mem), vaddr.0).flags, 0);
            PTE::lemma_entry(0, pte, 0, 0);
            self.lemma_walk(mem, vaddr.0);
            assert(pte == (PTE {
                flags: old(self).spec_leaf_entry(old(mem), vaddr.0).flags & (1u8 ^ 0xFFu8),
                pnn0: 0,
                pnn1: 0,
                pnn2: 0,
            })) by {
                lemma_zero_ppn();
            }
        }
        let ghost pt1 = *self;
        let ghost mem1 = *mem;
        self._set_leaf(mem, vaddr.0, pte);
        proof {
            lemma_grown_trans(pt0, mem0, pt1, mem1, *self, *mem, Set::empty(), set![spec_vpn(vaddr.0)]);
            assert(Set::<u64>::empty().union(set![spec_vpn(vaddr.0)]) =~= set![spec_vpn(vaddr.0)]);
        }
        ret
    }

    /// Gives the page of `vaddr`, which must be mapped, the flags `flags`
    /// and the flag that marks the entry as in use; the frame stays. Fails,
    /// changing nothing, where the page is not mapped.
    pub fn change_map_flags(&mut self, mem: &mut MemoryManager, vaddr: Vaddr, flags: u8) -> (r: Result<(), isize>)
        requires
            old(self).wf(old(mem)),
            old(self).spec_covers(vaddr.0),
        ensures
            final(self).wf(final(mem)),
            r is Err <==> old(self).spec_translate(old(mem), vaddr.0) is None,
            r matches Err(e) ==> {
                &&& e == -1
                &&& final(mem).ram == old(mem).ram
                &&& final(mem).buddy@ == old(mem).buddy@
                &&& final(mem).pages@ == old(mem).pages@
                &&& final(self).spec_tables() == old(self).spec_tables()
                &&& final(self).spec_private_len() == old(self).spec_private_len()
                &&& final(self).spec_root() == old(self).spec_root()
                &&& spec_grown(*old(self), *old(mem), *final(self), *final(mem), Set::empty())
            },
            r is Ok ==> spec_entry_set(
                *old(self),
                *old(mem),
                *final(self),
                *final(mem),
                vaddr.0,
                PTE { flags: flags | 1u8, ..old(self).spec_translate(old(mem), vaddr.0)->0 },
            ),
    {
        proof {
            self.lemma_walk(mem, vaddr.0);
            lemma_pte_flags(flags, 0);
            mem.buddy.lemma_wf();
            lemma_allocate_count(mem.buddy@, 0);
            lemma_grown_refl(*self, *mem);
        }
        match self.walk(mem, vaddr.0) {
            Some(r) => {
                let mut pte = r.get_pte(&mem.ram);
                if !pte.vaild() {
                    return Err(-1);
                }
                pte.clear_all_flags();
                pte.set_flags(flags | PTE_V);
                proof {
                    lemma_pte_flags(0, flags | 1u8);
                }
                self._set_leaf(mem, vaddr.0, pte);
                Ok(())
            },
            None => Err(-1),
        }
    }

    /// The address in the direct map of the byte that `vaddr` stands for:
    /// the address of the frame that the page of `vaddr` is mapped to, and the
    /// offset of `vaddr` in its page. Fails where the page is not mapped, and
    /// where that address lies above the highest address.
    pub fn get_kvaddr_by_uvaddr(&self, mem: &MemoryManager, vaddr: Vaddr) -> (r: Option<Vaddr>)
        requires
            self.wf(mem),
            self.spec_covers(vaddr.0),
        ensures
            r is Some <==> (self.spec_translate(mem, vaddr.0) matches Some(entry) && entry.spec_point_paddr() + vaddr.0
                % 4096 + PHY_MEM_OFFSET <= u64::MAX),
            r matches Some(kvaddr) ==> kvaddr.0 == self.spec_translate(mem, vaddr.0)->0.spec_point_paddr() + vaddr.0
                % 4096 + PHY_MEM_OFFSET,
    {
        let off = vaddr.0 % (PAGE_SIZE as u64);
        let mut vaddr_ = vaddr;
        vaddr_.align();
        proof {
            lemma_vpn(vaddr.0, vaddr_.0);
            assert(vaddr_.0 == vaddr.0 - vaddr.0 % 4096);
            lemma_index_bounds(vaddr.0);
            lemma_index_bounds(vaddr_.0);
            self.lemma_same_page(mem, vaddr.0, vaddr_.0);
            PTE::lemma_entry(0, self.spec_leaf_entry(mem, vaddr.0), 0, 0);
        }
        let r = self.walk(mem, vaddr_.0);
        match r {
            Some(x) => {
                let pte = x.get_pte(&mem.ram);
                proof {
                    PTE::lemma_entry(mem.ram.spec_word(x.pte_addr as int), pte, 0, 0);
                }
                if !pte.vaild() {
                    return None;
                }
                let paddr = pte.get_point_paddr();
                if paddr + off > u64::MAX - PHY_MEM_OFFSET {
                    None
                } else {
                    Some(Paddr(paddr + off).into())
                }
            },
            None => None,
        }
    }

    /// Addresses on the same page walk alike.
    pub proof fn lemma_same_page(&self, mem: &MemoryManager, v: u64, w: u64)
        requires
            spec_vpn(v) == spec_vpn(w),
        ensures
            self.spec_covers(v) == self.spec_covers(w),
            self.spec_walk(mem, v) == self.spec_walk(mem, w),
            self.spec_missing(mem, v) == self.spec_missing(mem, w),
            self.spec_leaf_entry(mem, v) == self.spec_leaf_entry(mem, w),
            self.spec_translate(mem, v) == self.spec_translate(mem, w),
    {
        lemma_vpn(v, w);
        reveal_with_fuel(spec_walk_from, 4);
        reveal_with_fuel(spec_missing_from, 4);
    }

    /// A page table with an empty root, which manages the part of the root
    /// from `first_index` up to `end_index`. Fails, changing nothing, where
    /// no frame is free.
    pub fn new(mem: &mut MemoryManager, first_index: u64, end_index: u64) -> (r: Option<PageTable>)
        requires
            old(mem).wf(),
            first_index <= end_index <= 512,
        ensures
            final(mem).wf(),
            r is None <==> old(mem).buddy@.free_pages_from(0) == 0,
            r is None ==> final(mem).ram == old(mem).ram && final(mem).buddy@ == old(mem).buddy@ && final(mem).pages@
                == old(mem).pages@,
            r matches Some(pt) ==> {
                &&& pt.wf(final(mem))
                &&& pt.spec_first_index() == first_index
                &&& pt.spec_end_index() == end_index
                &&& pt.spec_private_len() == 1
                &&& pt.spec_tables() == set![pt.spec_root()]
                &&& final(mem).buddy@.free_pages_from(0) == old(mem).buddy@.free_pages_from(0) - 1
                &&& exists|root: Page| #[trigger]
                    root.vaddr.0 == pt.spec_root() && spec_allocated(old(mem), final(mem), 0, &root)
                &&& forall|v: u64| pt.spec_covers(v) ==> #[trigger] pt.spec_walk(final(mem), v) is None
            },
    {
        proof {
            mem.buddy.lemma_wf();
            lemma_allocate_count(mem.buddy@, 0);
            crate::utils::lemma_order2pages_values();
        }
        let got = alloc_pages(mem, 0);
        proof {
            assert(got is None <==> old(mem).buddy@.allocate(0).1 is None);
            assert(old(mem).buddy@.free_pages_from(0) >= 0);
            if old(mem).buddy@.free_pages_from(0) > 0 {
                assert(old(mem).buddy@.allocate(0).1 is Some);
            }
        }
        match got {
            None => {
                proof {
                    assert(old(mem).buddy@.allocate(0).1 is None);
                    assert(old(mem).buddy@.free_pages_from(0) == 0);
                }
                None
            },
            Some(root) => {
                let ghost raddr = root.vaddr.0 as int;
                let ghost witness = root;
                let mut private_pgs: Vec<Page> = Vec::new();
                private_pgs.push(root);
                let pt = PageTable {
                    private_pgs,
                    first_index,
                    end_index,
                    levels: Ghost(Map::empty().insert(raddr, 0int)),
                    parents: Ghost(Map::empty()),
                };
                proof {
                    mem.buddy.lemma_wf();
                    lemma_allocate_count(mem.buddy@, 0);
                    PTE::lemma_entry(0, PTE::spec_from(0), 0, 0);
                    let fidx = old(mem).spec_index(raddr);
                    assert forall|p: int| spec_in_block(p, fidx, 0) <==> p == fidx by {
                        assert(crate::mm::buddy_model::spec_ancestor(p, 0) == p);
                        assert(crate::mm::buddy_model::spec_ancestor(fidx, 0) == fidx);
                    }
                    assert(spec_in_block(fidx, fidx, 0));
                    assert(pt.spec_tables() =~= set![pt.spec_root()]);
                    assert forall|i: int| 0 <= i < 512 implies #[trigger] spec_entry(mem.ram, raddr, i)
                        == PTE::spec_from(0) by {
                        mem.ram.lemma_zero_word(raddr + i * 8);
                    }
                    assert(pt.wf(mem));
                    assert forall|v: u64| pt.spec_covers(v) implies #[trigger] pt.spec_walk(mem, v) is None by {
                        lemma_index_bounds(v);
                        reveal_with_fuel(spec_walk_from, 2);
                        assert(spec_entry(mem.ram, raddr, spec_level_index(v, 0)) == PTE::spec_from(0));
                    }
                    assert(witness.vaddr.0 == pt.spec_root() && spec_allocated(old(mem), mem, 0, &witness));
                }
                Some(pt)
            },
        }
    }
}

proof fn lemma_zero_ppn()
    by (bit_vector)
    ensures
        ((0u64 >> 12) & 0x1FF) as u16 == 0u16,
        (((0u64 >> 12) >> 9) & 0x1FF) as u16 == 0u16,
        (((0u64 >> 12) >> 18) & 0x1FF) as u16 == 0u16,
{
}

/// The address of page `k` of the pages from `vaddr` on.
pub open spec fn spec_page_addr(vaddr: u64, k: int) -> u64 {
    (vaddr + k * 4096) as u64
}

/// The numbers of the first `n` pages from `vaddr` on.
pub open spec fn spec_range_vpns(vaddr: u64, n: int) -> Set<u64> {
    Set::new(|p: u64| exists|k: int| 0 <= k < n && p == spec_vpn(#[trigger] spec_page_addr(vaddr, k)))
}

/// Different pages of one block have different numbers.
pub proof fn lemma_vpn_offset(v: u64, j: u64, k: u64)
    by (bit_vector)
    requires
        j < k,
        k < 0x800_0000,
        v <= 0xFFFF_FFFF_FFFF_FFFF - k * 4096,
    ensures
        (((v + j * 4096) as u64) >> 12) & 0x7FF_FFFF != (((v + k * 4096) as u64) >> 12) & 0x7FF_FFFF,
{
}

/// What growth means, for use where its definition is out of sight.
pub proof fn lemma_grown(
    pt0: PageTable,
    mem0: MemoryManager,
    pt1: PageTable,
    mem1: MemoryManager,
    touched: Set<u64>,
    v: u64,
)
    requires
        spec_grown(pt0, mem0, pt1, mem1, touched),
    ensures
        pt1.wf(&mem1),
        pt1.spec_root() == pt0.spec_root(),
        pt1.spec_covers(v) == pt0.spec_covers(v),
        mem1.buddy@.start == mem0.buddy@.start,
        mem1.buddy@.pages == mem0.buddy@.pages,
        pt0.spec_covers(v) && !touched.contains(spec_vpn(v)) ==> pt1.spec_translate(&mem1, v) == pt0.spec_translate(
            &mem0,
            v,
        ),
        pt0.spec_covers(v) && pt0.spec_walk(&mem0, v) is Some ==> pt1.spec_walk(&mem1, v) == pt0.spec_walk(&mem0, v),
{
    reveal(spec_grown);
}

/// Growth that touches some pages is growth that touches more.
pub proof fn lemma_grown_more(
    pt0: PageTable,
    mem0: MemoryManager,
    pt1: PageTable,
    mem1: MemoryManager,
    touched: Set<u64>,
    more: Set<u64>,
)
    requires
        spec_grown(pt0, mem0, pt1, mem1, touched),
        touched.subset_of(more),
    ensures
        spec_grown(pt0, mem0, pt1, mem1, more),
{
    reveal(spec_grown);
}

impl PageTable {
    /// Whether none of the `2^order` pages from `vaddr` on is mapped.
    /// Nothing is changed: no table is made and no frame is taken.
    pub fn is_not_mapped_order(&mut self, mem: &mut MemoryManager, vaddr: Vaddr, order: usize) -> (b: bool)
        requires
            old(self).wf(old(mem)),
            order < MAX_ORDER,
            vaddr.0 + spec_order2pages(order as int) * 4096 <= u64::MAX,
            forall|k: int|
                0 <= k < spec_order2pages(order as int) ==> old(self).spec_covers(#[trigger] spec_page_addr(vaddr.0, k)),
        ensures
            *final(self) == *old(self),
            *final(mem) == *old(mem),
            b == (forall|k: int|
                0 <= k < spec_order2pages(order as int) ==> old(self).spec_translate(
                    old(mem),
                    #[trigger] spec_page_addr(vaddr.0, k),
                ) is None),
    {
        proof {
            lemma_order2pages_values();
            lemma_order2pages_monotone(order as int, 10);
        }
        let pgs = order2pages(order);
        let mut k: usize = 0;
        while k < pgs
            invariant
                k <= pgs,
                pgs == spec_order2pages(order as int),
                pgs <= 1024,
                vaddr.0 + pgs * 4096 <= u64::MAX,
                *self == *old(self),
                *mem == *old(mem),
                self.wf(mem),
                forall|j: int| 0 <= j < pgs ==> old(self).spec_covers(#[trigger] spec_page_addr(vaddr.0, j)),
                forall|j: int|
                    0 <= j < k ==> old(self).spec_translate(old(mem), #[trigger] spec_page_addr(vaddr.0, j)) is None,
            decreases pgs - k,
        {
            let i = Vaddr(vaddr.0 + (k as u64) * (PAGE_SIZE as u64));
            proof {
                assert(i.0 == spec_page_addr(vaddr.0, k as int));
                self.lemma_walk(mem, i.0);
            }
            let mapped = match self.walk(mem, i.0) {
                Some(at) => at.get_pte(&mem.ram).vaild(),
                None => false,
            };
            if mapped {
                return false;
            }
            k += 1;
        }
        true
    }

    /// Maps the `2^order` pages from `vaddr` on to the frames from `paddr`
    /// on. Fails, leaving every page mapped as it was, where one of the
    /// pages is mapped already, and where the frames run out for the tables
    /// that are missing: fewer than two are left then, and with two free
    /// frames for each page that cannot happen.
    pub fn map_pages(&mut self, mem: &mut MemoryManager, vaddr: Vaddr, paddr: Paddr, order: usize, flags: u8) -> (r:
        Result<(), isize>)
        requires
            old(self).wf(old(mem)),
            order < MAX_ORDER,
            vaddr.0 + spec_order2pages(order as int) * 4096 <= u64::MAX,
            paddr.0 + spec_order2pages(order as int) * 4096 <= u64::MAX,
            forall|k: int|
                0 <= k < spec_order2pages(order as int) ==> old(self).spec_covers(#[trigger] spec_page_addr(vaddr.0, k)),
        ensures
            final(self).wf(final(mem)),
            r matches Err(e) ==> e == -1 && spec_grown(
                *old(self),
                *old(mem),
                *final(self),
                *final(mem),
                Set::empty(),
            ),
            r is Err ==> old(mem).buddy@.free_pages_from(0) < 2 * spec_order2pages(order as int) || exists|k: int|
                0 <= k < spec_order2pages(order as int) && old(self).spec_translate(
                    old(mem),
                    #[trigger] spec_page_addr(vaddr.0, k),
                ) is Some,
            r is Err ==> final(mem).buddy@.free_pages_from(0) < 2 || exists|k: int|
                0 <= k < spec_order2pages(order as int) && old(self).spec_translate(
                    old(mem),
                    #[trigger] spec_page_addr(vaddr.0, k),
                ) is Some,
            r is Ok ==> {
                &&& spec_grown(
                    *old(self),
                    *old(mem),
                    *final(self),
                    *final(mem),
                    spec_range_vpns(vaddr.0, spec_order2pages(order as int)),
                )
                &&& forall|k: int|
                    0 <= k < spec_order2pages(order as int) ==> {
                        &&& old(self).spec_translate(old(mem), #[trigger] spec_page_addr(vaddr.0, k)) is None
                        &&& final(self).spec_translate(final(mem), spec_page_addr(vaddr.0, k)) == Some(
                            PTE::spec_new(spec_page_addr(paddr.0, k), flags | 1u8),
                        )
                    }
            },
    {
        proof {
            lemma_order2pages_values();
            lemma_order2pages_monotone(order as int, 10);
            lemma_grown_refl(*self, *mem);
            mem.buddy.lemma_wf();
            lemma_allocate_count(mem.buddy@, 0);
        }
        let pgs = order2pages(order);
        let mut k: usize = 0;
        while k < pgs
            invariant
                k <= pgs,
                pgs == spec_order2pages(order as int),
                pgs <= 1024,
                vaddr.0 + pgs * 4096 <= u64::MAX,
                old(self).wf(old(mem)),
                self.wf(mem),
                spec_grown(*old(self), *old(mem), *self, *mem, Set::empty()),
                forall|j: int| 0 <= j < pgs ==> old(self).spec_covers(#[trigger] spec_page_addr(vaddr.0, j)),
                forall|j: int|
                    0 <= j < k ==> old(self).spec_translate(old(mem), #[trigger] spec_page_addr(vaddr.0, j)) is None,
                forall|j: int| 0 <= j < k ==> self.spec_walk(mem, #[trigger] spec_page_addr(vaddr.0, j)) is Some,
                old(mem).buddy@.free_pages_from(0) >= 2 * pgs ==> mem.buddy@.free_pages_from(0) >= 2 * (pgs - k),
                mem.buddy@.free_pages_from(0) >= 0,
            decreases pgs - k,
        {
            let i = Vaddr(vaddr.0 + (k as u64) * (PAGE_SIZE as u64));
            let ghost pt1 = *self;
            let ghost mem1 = *mem;
            proof {
                assert(i.0 == spec_page_addr(vaddr.0, k as int));
                lemma_grown(*old(self), *old(mem), pt1, mem1, Set::empty(), i.0);
                self.lemma_walk(mem, i.0);
            }
            if !self.can_walk_alloc(mem, i.0) {
                return Err(-1);
            }
            let free_page = self.is_not_mapped(mem, i);
            proof {
                lemma_grown_trans(*old(self), *old(mem), pt1, mem1, *self, *mem, Set::empty(), Set::empty());
                assert(Set::<u64>::empty().union(Set::empty()) =~= Set::<u64>::empty());
                assert forall|j: int| 0 <= j < k implies self.spec_walk(mem, #[trigger] spec_page_addr(vaddr.0, j))
                    is Some by {
                    lemma_grown(*old(self), *old(mem), pt1, mem1, Set::empty(), spec_page_addr(vaddr.0, j));
                    lemma_grown(pt1, mem1, *self, *mem, Set::empty(), spec_page_addr(vaddr.0, j));
                }
                mem.buddy.lemma_wf();
                lemma_allocate_count(mem.buddy@, 0);
            }
            if !free_page {
                return Err(-1);
            }
            k += 1;
        }
        // every page has its tables and is not mapped
        let ghost pt2 = *self;
        let ghost mem2 = *mem;
        let mut i: usize = 0;
        proof {
            assert(spec_range_vpns(vaddr.0, 0) =~= Set::<u64>::empty());
            lemma_grown_refl(pt2, mem2);
        }
        while i < pgs
            invariant
                i <= pgs,
                pgs == spec_order2pages(order as int),
                pgs <= 1024,
                vaddr.0 + pgs * 4096 <= u64::MAX,
                paddr.0 + pgs * 4096 <= u64::MAX,
                old(self).wf(old(mem)),
                pt2.wf(&mem2),
                self.wf(mem),
                spec_grown(*old(self), *old(mem), pt2, mem2, Set::empty()),
                spec_grown(pt2, mem2, *self, *mem, spec_range_vpns(vaddr.0, i as int)),
                forall|j: int| 0 <= j < pgs ==> old(self).spec_covers(#[trigger] spec_page_addr(vaddr.0, j)),
                forall|j: int|
                    0 <= j < pgs ==> old(self).spec_translate(old(mem), #[trigger] spec_page_addr(vaddr.0, j)) is None,
                forall|j: int| 0 <= j < pgs ==> pt2.spec_walk(&mem2, #[trigger] spec_page_addr(vaddr.0, j)) is Some,
                forall|j: int|
                    0 <= j < i ==> self.spec_translate(mem, #[trigger] spec_page_addr(vaddr.0, j)) == Some(
                        PTE::spec_new(spec_page_addr(paddr.0, j), flags | 1u8),
                    ),
                mem.buddy@.free_pages_from(0) >= 0,
            decreases pgs - i,
        {
            let append = (i as u64) * (PAGE_SIZE as u64);
            let ghost pt3 = *self;
            let ghost mem3 = *mem;
            let ghost va = spec_page_addr(vaddr.0, i as int);
            proof {
                assert(vaddr.0 + append == va);
                lemma_grown(*old(self), *old(mem), pt2, mem2, Set::empty(), va);
                lemma_grown(pt2, mem2, pt3, mem3, spec_range_vpns(vaddr.0, i as int), va);
                // the page is not among those mapped so far
                assert(!spec_range_vpns(vaddr.0, i as int).contains(spec_vpn(va))) by {
                    if spec_range_vpns(vaddr.0, i as int).contains(spec_vpn(va)) {
                        let j = choose|j: int| 0 <= j < i && spec_vpn(va) == spec_vpn(#[trigger] spec_page_addr(vaddr.0, j));
                        lemma_vpn_offset(vaddr.0, j as u64, i as u64);
                    }
                }
                self.lemma_walk(mem, va);
            }
            let res = self.map_one_page(mem, vaddr + append, paddr + append, flags);
            proof {
                assert(res is Ok);
                lemma_grown_trans(
                    pt2,
                    mem2,
                    pt3,
                    mem3,
                    *self,
                    *mem,
                    spec_range_vpns(vaddr.0, i as int),
                    set![spec_vpn(va)],
                );
                assert(spec_range_vpns(vaddr.0, i as int).union(set![spec_vpn(va)]) =~= spec_range_vpns(
                    vaddr.0,
                    i + 1,
                )) by {
                    assert forall|p: u64| spec_range_vpns(vaddr.0, i + 1).contains(p) implies spec_range_vpns(
                        vaddr.0,
                        i as int,
                    ).union(set![spec_vpn(va)]).contains(p) by {
                        let j = choose|j: int| 0 <= j < i + 1 && p == spec_vpn(#[trigger] spec_page_addr(vaddr.0, j));
                        if j < i {
                            assert(spec_range_vpns(vaddr.0, i as int).contains(p));
                        }
                    }
                    assert forall|p: u64|
                        spec_range_vpns(vaddr.0, i as int).union(set![spec_vpn(va)]).contains(
                            p,
                        ) implies spec_range_vpns(vaddr.0, i + 1).contains(p) by {
                        if p == spec_vpn(va) {
                            assert(p == spec_vpn(spec_page_addr(vaddr.0, i as int)));
                        } else {
                            let j = choose|j: int| 0 <= j < i && p == spec_vpn(#[trigger] spec_page_addr(vaddr.0, j));
                            assert(p == spec_vpn(spec_page_addr(vaddr.0, j)));
                        }
                    }
                }
                lemma_pte_flags(flags, 0);
                PTE::lemma_entry(0, PTE::spec_from(0), spec_page_addr(paddr.0, i as int), flags | 1u8);
                assert((paddr.0 + append) as u64 == spec_page_addr(paddr.0, i as int));
                assert forall|j: int| 0 <= j < i + 1 implies self.spec_translate(
                    mem,
                    #[trigger] spec_page_addr(vaddr.0, j),
                ) == Some(PTE::spec_new(spec_page_addr(paddr.0, j), flags | 1u8)) by {
                    if j < i {
                        lemma_vpn_offset(vaddr.0, j as u64, i as u64);
                        lemma_grown(*old(self), *old(mem), pt2, mem2, Set::empty(), spec_page_addr(vaddr.0, j));
                        lemma_grown(
                            pt2,
                            mem2,
                            pt3,
                            mem3,
                            spec_range_vpns(vaddr.0, i as int),
                            spec_page_addr(vaddr.0, j),
                        );
                        lemma_grown(pt3, mem3, *self, *mem, set![spec_vpn(va)], spec_page_addr(vaddr.0, j));
                    }
                }
                mem.buddy.lemma_wf();
                lemma_allocate_count(mem.buddy@, 0);
            }
            i += 1;
        }
        proof {
            lemma_grown_trans(
                *old(self),
                *old(mem),
                pt2,
                mem2,
                *self,
                *mem,
                Set::empty(),
                spec_range_vpns(vaddr.0, pgs as int),
            );
            assert(Set::<u64>::empty().union(spec_range_vpns(vaddr.0, pgs as int)) =~= spec_range_vpns(
                vaddr.0,
                pgs as int,
            ));
        }
        Ok(())
    }

    /// Takes the mappings of the `2^order` pages from `vaddr` on away and
    /// returns the physical address of the frame that the first page was
    /// mapped to. Fails, changing nothing, where one of the pages is not
    /// mapped.
    #[verifier::rlimit(100)]
    #[verifier::spinoff_prover]
    pub fn unmap_pages(&mut self, mem: &mut MemoryManager, vaddr: Vaddr, order: usize) -> (r: Result<Paddr, isize>)
        requires
            old(self).wf(old(mem)),
            order < MAX_ORDER,
            vaddr.0 + spec_order2pages(order as int) * 4096 <= u64::MAX,
            forall|k: int|
                0 <= k < spec_order2pages(order as int) ==> old(self).spec_covers(#[trigger] spec_page_addr(vaddr.0, k)),
        ensures
            final(self).wf(final(mem)),
            spec_grown(
                *old(self),
                *old(mem),
                *final(self),
                *final(mem),
                spec_range_vpns(vaddr.0, spec_order2pages(order as int)),
            ),
            r is Err <==> exists|k: int|
                0 <= k < spec_order2pages(order as int) && old(self).spec_translate(
                    old(mem),
                    #[trigger] spec_page_addr(vaddr.0, k),
                ) is None,
            r matches Err(e) ==> e == -1 && *final(self) == *old(self) && *final(mem) == *old(mem),
            r matches Ok(p) ==> {
                &&& p.0 == old(self).spec_translate(old(mem), vaddr.0)->0.spec_point_paddr()
                &&& forall|k: int|
                    0 <= k < spec_order2pages(order as int) ==> final(self).spec_translate(
                        final(mem),
                        #[trigger] spec_page_addr(vaddr.0, k),
                    ) is None
            },
    {
        proof {
            lemma_order2pages_values();
            lemma_order2pages_monotone(order as int, 10);
            lemma_order2pages_monotone(0, order as int);
            lemma_grown_refl(*self, *mem);
            assert(spec_range_vpns(vaddr.0, 0) =~= Set::<u64>::empty());
            lemma_grown_more(
                *self,
                *mem,
                *self,
                *mem,
                Set::empty(),
                spec_range_vpns(vaddr.0, spec_order2pages(order as int)),
            );
        }
        let pgs = order2pages(order);
        let mut probe = vaddr;
        let mut k: usize = 0;
        while k < pgs
            invariant
                k <= pgs,
                pgs == spec_order2pages(order as int),
                1 <= pgs <= 1024,
                vaddr.0 + pgs * 4096 <= u64::MAX,
                probe.0 == vaddr.0 + k * 4096,
                *self == *old(self),
                *mem == *old(mem),
                self.wf(mem),
                spec_grown(*old(self), *old(mem), *self, *mem, spec_range_vpns(vaddr.0, pgs as int)),
                forall|j: int| 0 <= j < pgs ==> old(self).spec_covers(#[trigger] spec_page_addr(vaddr.0, j)),
                forall|j: int| 0 <= j < k ==> self.spec_translate(mem, #[trigger] spec_page_addr(vaddr.0, j)) is Some,
            decreases pgs - k,
        {
            proof {
                assert(probe.0 == spec_page_addr(vaddr.0, k as int));
                self.lemma_walk(mem, probe.0);
            }
            let mapped = match self.walk(mem, probe.0) {
                Some(at) => at.get_pte(&mem.ram).vaild(),
                None => false,
            };
            if !mapped {
                proof {
                    assert(old(self).spec_translate(old(mem), spec_page_addr(vaddr.0, k as int)) is None);
                }
                return Err(-1);
            }
            probe.add_assign(PAGE_SIZE as u64);
            k += 1;
        }
        let mut ret_option: Option<Paddr> = None;
        let mut vaddr_probe = vaddr;
        let mut i: usize = 0;
        while i < pgs
            invariant
                i <= pgs,
                pgs == spec_order2pages(order as int),
                1 <= pgs <= 1024,
                vaddr.0 + pgs * 4096 <= u64::MAX,
                vaddr_probe.0 == vaddr.0 + i * 4096,
                old(self).wf(old(mem)),
                self.wf(mem),
                spec_grown(*old(self), *old(mem), *self, *mem, spec_range_vpns(vaddr.0, pgs as int)),
                forall|j: int| 0 <= j < pgs ==> old(self).spec_covers(#[trigger] spec_page_addr(vaddr.0, j)),
                forall|j: int| 0 <= j < i ==> self.spec_translate(mem, #[trigger] spec_page_addr(vaddr.0, j)) is None,
                forall|j: int| i <= j < pgs ==> self.spec_translate(mem, #[trigger] spec_page_addr(vaddr.0, j)) is Some,
                forall|j: int|
                    0 <= j < pgs ==> old(self).spec_translate(old(mem), #[trigger] spec_page_addr(vaddr.0, j)) is Some,
                i == 0 ==> *mem == *old(mem) && *self == *old(self),
                i > 0 ==> ret_option == Some(Paddr(old(self).spec_translate(old(mem), vaddr.0)->0.spec_point_paddr())),
                i == 0 ==> ret_option is None,
            decreases pgs - i,
        {
            let ghost pt1 = *self;
            let ghost mem1 = *mem;
            let ghost va = spec_page_addr(vaddr.0, i as int);
            proof {
                assert(vaddr_probe.0 == va);
                lemma_grown(*old(self), *old(mem), pt1, mem1, spec_range_vpns(vaddr.0, pgs as int), va);
                self.lemma_walk(mem, va);
                old(self).lemma_walk(old(mem), va);
                mem.buddy.lemma_wf();
                lemma_allocate_count(mem.buddy@, 0);
            }
            match self._unmap_one_page(mem, vaddr_probe) {
                Ok(v) => {
                    if ret_option.is_none() {
                        ret_option = Some(v);
                    }
                },
                Err(e) => {
                    // cannot happen: the page is mapped
                    proof {
                        assert(pt1.spec_translate(&mem1, spec_page_addr(vaddr.0, i as int)) is Some);
                        assert(false);
                        lemma_grown_trans(
                            *old(self),
                            *old(mem),
                            pt1,
                            mem1,
                            *self,
                            *mem,
                            spec_range_vpns(vaddr.0, pgs as int),
                            Set::empty(),
                        );
                        assert(spec_range_vpns(vaddr.0, pgs as int).union(Set::empty()) =~= spec_range_vpns(
                            vaddr.0,
                            pgs as int,
                        ));
                    }
                    return Err(e);
                },
            }
            proof {
                assert(spec_page_addr(vaddr.0, 0) == vaddr.0);
                lemma_grown_trans(
                    *old(self),
                    *old(mem),
                    pt1,
                    mem1,
                    *self,
                    *mem,
                    spec_range_vpns(vaddr.0, pgs as int),
                    set![spec_vpn(va)],
                );
                assert(spec_range_vpns(vaddr.0, pgs as int).contains(spec_vpn(va)));
                assert(spec_range_vpns(vaddr.0, pgs as int).union(set![spec_vpn(va)]) =~= spec_range_vpns(
                    vaddr.0,
                    pgs as int,
                ));
                assert forall|j: int| 0 <= j < i implies self.spec_translate(
                    mem,
                    #[trigger] spec_page_addr(vaddr.0, j),
                ) is None by {
                    lemma_vpn_offset(vaddr.0, j as u64, i as u64);
                    let vj = spec_page_addr(vaddr.0, j);
                    lemma_grown(*old(self), *old(mem), pt1, mem1, spec_range_vpns(vaddr.0, pgs as int), vj);
                    lemma_grown(pt1, mem1, *self, *mem, set![spec_vpn(va)], vj);
                }
                assert forall|j: int| i < j < pgs implies self.spec_translate(
                    mem,
                    #[trigger] spec_page_addr(vaddr.0, j),
                ) is Some by {
                    lemma_vpn_offset(vaddr.0, i as u64, j as u64);
                    let vj = spec_page_addr(vaddr.0, j);
                    lemma_grown(*old(self), *old(mem), pt1, mem1, spec_range_vpns(vaddr.0, pgs as int), vj);
                    lemma_grown(pt1, mem1, *self, *mem, set![spec_vpn(va)], vj);
                    assert(pt1.spec_translate(&mem1, vj) is Some);
                }
            }
            vaddr_probe.add_assign(PAGE_SIZE as u64);
            i += 1;
        }
        Ok(ret_option.unwrap())
    }
}

impl PageTable {
    /// Maps the page of `vaddr` to the frame at `paddr` with exactly the
    /// flags `map_flag`, whatever the page was mapped to. The tables that are
    /// missing on the way are made; there must be as many free frames as
    /// tables are missing.
    pub fn _force_map_one(&mut self, mem: &mut MemoryManager, vaddr: u64, paddr: u64, map_flag: u8)
        requires
            old(self).wf(old(mem)),
            old(self).spec_covers(vaddr),
            old(mem).buddy@.free_pages_from(0) >= old(self).spec_missing(old(mem), vaddr),
        ensures
            spec_entry_set(*old(self), *old(mem), *final(self), *final(mem), vaddr, PTE::spec_new(paddr, map_flag)),
            old(self).spec_missing(old(mem), vaddr) == 0 ==> final(mem).buddy@ == old(mem).buddy@ && final(mem).pages@
                == old(mem).pages@ && final(self).spec_tables() == old(self).spec_tables(),
    {
        let mut empty_pte = PTE::from(0);
        proof {
            PTE::lemma_entry(0, empty_pte, paddr, map_flag);
            lemma_pte_flags(0, map_flag);
        }
        empty_pte.set_flags(map_flag);
        empty_pte.set_ppn_by_paddr(paddr);
        // set the entry of the last level
        self._set_leaf(mem, vaddr, empty_pte);
    }

    /// Maps the page of `vaddr`, which must not be mapped, to the frame at
    /// `paddr`, adding the flags `map_flag` to those that the entry holds.
    /// Both addresses must start a page, and there must be as many free
    /// frames as tables are missing.
    pub fn _map_raw_no_check(&mut self, mem: &mut MemoryManager, vaddr: u64, paddr: u64, map_flag: u8)
        requires
            old(self).wf(old(mem)),
            old(self).spec_covers(vaddr),
            vaddr % 4096 == 0,
            paddr % 4096 == 0,
            old(self).spec_translate(old(mem), vaddr) is None,
            old(mem).buddy@.free_pages_from(0) >= old(self).spec_missing(old(mem), vaddr),
        ensures
            spec_entry_set(
                *old(self),
                *old(mem),
                *final(self),
                *final(mem),
                vaddr,
                (PTE { flags: old(self).spec_leaf_entry(old(mem), vaddr).flags | map_flag, pnn0: 0, pnn1: 0, pnn2: 0 }).spec_with_paddr(
                    paddr,
                ),
            ),
    {
        let ghost pt0 = *self;
        let ghost mem0 = *mem;
        let r = self.walk_alloc(mem, vaddr);
        let pte_val = mem.ram.read_u64(Vaddr(r.pte_addr));
        let mut pte = PTE::from(pte_val);
        pte.set_ppn_by_paddr(paddr);
        pte.set_flags(map_flag);
        let ghost pt1 = *self;
        let ghost mem1 = *mem;
        proof {
            self.lemma_walk(mem, vaddr);
            mem.buddy.lemma_wf();
            lemma_allocate_count(mem.buddy@, 0);
        }
        self._set_leaf(mem, vaddr, pte);
        proof {
            lemma_grown_trans(pt0, mem0, pt1, mem1, *self, *mem, Set::empty(), set![spec_vpn(vaddr)]);
            assert(Set::<u64>::empty().union(set![spec_vpn(vaddr)]) =~= set![spec_vpn(vaddr)]);
        }
    }

    /// A page table for a user: a fresh root that holds a copy of the root
    /// of the kernel's page table, so that both share what the kernel maps. It
    /// manages the part of the root from `first_index` up to `end_index`, in
    /// which the kernel's root must hold nothing. Fails, changing nothing,
    /// where no frame is free.
    pub fn new_user(kernel: &PageTable, mem: &mut MemoryManager, first_index: u64, end_index: u64) -> (r: Option<
        PageTable,
    >)
        requires
            old(mem).wf(),
            kernel.spec_private_len() >= 1,
            old(mem).spec_is_frame(kernel.spec_root()),
            !old(mem).spec_frame_free(kernel.spec_root()),
            first_index <= end_index <= 512,
            forall|i: int|
                first_index <= i < end_index ==> !(#[trigger] spec_entry(
                    old(mem).ram,
                    kernel.spec_root(),
                    i,
                )).spec_valid() && !spec_entry(old(mem).ram, kernel.spec_root(), i).spec_is_leaf(),
        ensures
            final(mem).wf(),
            r is None <==> old(mem).buddy@.free_pages_from(0) == 0,
            r is None ==> final(mem).ram == old(mem).ram && final(mem).buddy@ == old(mem).buddy@ && final(mem).pages@
                == old(mem).pages@,
            r matches Some(pt) ==> {
                &&& pt.wf(final(mem))
                &&& pt.spec_first_index() == first_index
                &&& pt.spec_end_index() == end_index
                &&& pt.spec_private_len() == 1
                &&& pt.spec_tables() == set![pt.spec_root()]
                &&& old(mem).spec_is_frame(pt.spec_root())
                &&& old(mem).spec_frame_free(pt.spec_root())
                &&& final(mem).buddy@ == old(mem).buddy@.allocate(0).0
                &&& final(mem).buddy@.free_pages_from(0) == old(mem).buddy@.free_pages_from(0) - 1
                &&& old(mem).ram.same_but(&final(mem).ram, pt.spec_root(), 4096)
                &&& forall|p: int|
                    0 <= p < old(mem).pages@.len() && p != old(mem).spec_index(pt.spec_root())
                        ==> #[trigger] final(mem).pages@[p] == old(mem).pages@[p]
                &&& forall|i: int|
                    0 <= i < 512 ==> #[trigger] spec_entry(final(mem).ram, pt.spec_root(), i) == spec_entry(
                        old(mem).ram,
                        kernel.spec_root(),
                        i,
                    )
                &&& forall|v: u64| pt.spec_covers(v) ==> #[trigger] pt.spec_walk(final(mem), v) is None
            },
    {
        proof {
            mem.buddy.lemma_wf();
            lemma_allocate_count(mem.buddy@, 0);
            lemma_order2pages_values();
        }
        let root_addr = kernel._get_root_page_vaddr();
        let got = alloc_pages(mem, 0);
        match got {
            None => None,
            Some(root) => {
                let ghost raddr = root.vaddr.0 as int;
                let ghost kaddr = kernel.spec_root();
                let ghost mem1 = *mem;
                let ghost fidx = old(mem).spec_index(raddr);
                proof {
                    mem.buddy.lemma_wf();
                    lemma_allocate_count(mem.buddy@, 0);
                    assert forall|p: int| spec_in_block(p, fidx, 0) <==> p == fidx by {
                        assert(crate::mm::buddy_model::spec_ancestor(p, 0) == p);
                        assert(crate::mm::buddy_model::spec_ancestor(fidx, 0) == fidx);
                    }
                    assert(spec_in_block(fidx, fidx, 0));
                    assert(old(mem).buddy@.page_free(fidx));
                    assert(raddr != kaddr);
                }
                let new_root = root.get_vaddr();
                mem.ram.copy_page(new_root, root_addr);
                let mut private_pgs: Vec<Page> = Vec::new();
                private_pgs.push(root);
                let pt = PageTable {
                    private_pgs,
                    first_index,
                    end_index,
                    levels: Ghost(Map::empty().insert(raddr, 0int)),
                    parents: Ghost(Map::empty()),
                };
                proof {
                    assert(pt.spec_tables() =~= set![pt.spec_root()]);
                    assert forall|i: int| 0 <= i < 512 implies #[trigger] spec_entry(mem.ram, raddr, i) == spec_entry(
                        old(mem).ram,
                        kaddr,
                        i,
                    ) by {
                        let dst = raddr + i * 8;
                        let src = kaddr + i * 8;
                        assert forall|j: int| 0 <= j < 8 implies #[trigger] mem.ram.spec_byte(dst + j) == old(mem).ram.spec_byte(src + j) by {
                            assert(mem.ram.spec_byte(raddr + (i * 8 + j)) == mem1.ram.spec_byte(kaddr + (i * 8 + j)));
                            assert(old(mem).ram.spec_contains(kaddr + (i * 8 + j), 1));
                            assert(mem1.ram.spec_byte(kaddr + (i * 8 + j)) == old(mem).ram.spec_byte(
                                kaddr + (i * 8 + j),
                            ));
                        }
                        mem.ram.lemma_word_copy(dst, &old(mem).ram, src);
                    }
                    assert forall|a: int|
                        old(mem).ram.spec_contains(a, 1) && !(raddr <= a < raddr + 4096) implies #[trigger] mem.ram.spec_byte(
                        a,
                    ) == old(mem).ram.spec_byte(a) by {
                        assert(mem1.ram.spec_byte(a) == old(mem).ram.spec_byte(a));
                        assert(mem.ram.spec_byte(a) == mem1.ram.spec_byte(a));
                    }
                    assert forall|p: int|
                        0 <= p < old(mem).pages@.len() && p != fidx implies #[trigger] mem.pages@[p] == old(mem).pages@[p] by {
                        assert(!spec_in_block(p, fidx, 0));
                    }
                    assert(pt.wf(mem));
                    assert forall|v: u64| pt.spec_covers(v) implies #[trigger] pt.spec_walk(mem, v) is None by {
                        lemma_index_bounds(v);
                        reveal_with_fuel(spec_walk_from, 2);
                        let i = spec_level_index(v, 0);
                        assert(spec_entry(mem.ram, raddr, i) == spec_entry(old(mem).ram, kaddr, i));
                        assert(!spec_entry(old(mem).ram, kaddr, i).spec_valid());
                    }
                }
                Some(pt)
            },
        }
    }
}

/// The page table of the kernel over the root table in the frame `root`,
/// which is in use. It manages the part of the root from `first_index` up to
/// `end_index`, which must hold nothing yet.
pub fn create_kernel_pagetable(mem: &MemoryManager, root: Page, first_index: u64, end_index: u64) -> (pt: PageTable)
    requires
        mem.wf(),
        mem.spec_is_frame(root.vaddr.0 as int),
        !mem.spec_frame_free(root.vaddr.0 as int),
        first_index <= end_index <= 512,
        forall|i: int|
            first_index <= i < end_index ==> !(#[trigger] spec_entry(mem.ram, root.vaddr.0 as int, i)).spec_valid()
                && !spec_entry(mem.ram, root.vaddr.0 as int, i).spec_is_leaf(),
    ensures
        pt.wf(mem),
        pt.spec_root() == root.vaddr.0,
        pt.spec_first_index() == first_index,
        pt.spec_end_index() == end_index,
        pt.spec_private_len() == 1,
        pt.spec_tables() == set![pt.spec_root()],
        forall|v: u64| pt.spec_covers(v) ==> #[trigger] pt.spec_walk(mem, v) is None,
{
    let ghost raddr = root.vaddr.0 as int;
    let mut private_pgs: Vec<Page> = Vec::new();
    private_pgs.push(root);
    let kp = PageTable {
        private_pgs,
        first_index,
        end_index,
        levels: Ghost(Map::empty().insert(raddr, 0int)),
        parents: Ghost(Map::empty()),
    };
    proof {
        assert(kp.spec_tables() =~= set![kp.spec_root()]);
        assert(kp.wf(mem));
        assert forall|v: u64| kp.spec_covers(v) implies #[trigger] kp.spec_walk(mem, v) is None by {
            lemma_index_bounds(v);
            reveal_with_fuel(spec_walk_from, 2);
            let i = spec_level_index(v, 0);
            assert(!spec_entry(mem.ram, raddr, i).spec_valid());
        }
    }
    return kp;
}

/// The indices of an address lie within a table.
pub proof fn lemma_index_bounds(vaddr: u64)
    ensures
        0 <= spec_level_index(vaddr, 0) < 512,
        0 <= spec_level_index(vaddr, 1) < 512,
        0 <= spec_level_index(vaddr, 2) < 512,
{
    assert((vaddr >> 12) & 0x1FF < 512 && (vaddr >> 21) & 0x1FF < 512 && (vaddr >> 30) & 0x1FF < 512)
        by (bit_vector);
}


impl PageTable {
    /// The first entry of the root that the page table manages.
    pub fn get_first_index(&self) -> (i: u64)
        ensures
            i == self.spec_first_index(),
    {
        self.first_index
    }

    /// The entry of the root up to which the page table manages it.
    pub fn get_end_index(&self) -> (i: u64)
        ensures
            i == self.spec_end_index(),
    {
        self.end_index
    }
}


/// What a walk that makes the missing tables has brought about, as far as
/// a second walk is concerned: the page table is well-formed and manages
/// `vaddr`; the walk for `vaddr` ends at the entry `ret`; and where no table
/// was missing, the memory and the tables are as they were, and the walk
/// ended at `ret` before.
pub open spec fn spec_walk_made(
    pt0: PageTable,
    mem0: MemoryManager,
    pt1: PageTable,
    mem1: MemoryManager,
    vaddr: u64,
    ret: WalkRet,
) -> bool {
    &&& pt1.wf(&mem1)
    &&& pt1.spec_covers(vaddr)
    &&& pt1.spec_walk(&mem1, vaddr) == Some(ret)
    &&& pt0.spec_walk(&mem0, vaddr) is Some ==> pt0.spec_walk(&mem0, vaddr) == Some(ret)
    &&& pt0.spec_missing(&mem0, vaddr) == 0 ==> {
        &&& mem1.ram == mem0.ram
        &&& mem1.buddy@ == mem0.buddy@
        &&& mem1.pages@ == mem0.pages@
        &&& pt1.spec_tables() == pt0.spec_tables()
        &&& pt1.spec_private_len() == pt0.spec_private_len()
    }
    &&& mem1.buddy@.free_pages_from(0) == mem0.buddy@.free_pages_from(0) - pt0.spec_missing(&mem0, vaddr)
}

/// A walk that makes the missing tables, made twice for one address, ends
/// both times at the same entry, and the second walk makes no table: it
/// changes neither the memory nor the tables, and takes no frame.
pub proof fn lemma_walk_alloc_twice(
    pt0: PageTable,
    mem0: MemoryManager,
    pt1: PageTable,
    mem1: MemoryManager,
    pt2: PageTable,
    mem2: MemoryManager,
    vaddr: u64,
    first: WalkRet,
    second: WalkRet,
)
    requires
        spec_walk_made(pt0, mem0, pt1, mem1, vaddr, first),
        spec_walk_made(pt1, mem1, pt2, mem2, vaddr, second),
    ensures
        second == first,
        mem2.ram == mem1.ram,
        mem2.buddy@ == mem1.buddy@,
        mem2.pages@ == mem1.pages@,
        pt2.spec_tables() == pt1.spec_tables(),
        pt2.spec_private_len() == pt1.spec_private_len(),
        mem2.buddy@.free_pages_from(0) == mem1.buddy@.free_pages_from(0),
{
    pt1.lemma_walk(&mem1, vaddr);
}

} // verus!
