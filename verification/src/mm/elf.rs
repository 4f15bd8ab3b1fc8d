//! The address space of a program, laid out from the segments of its file.
use vstd::prelude::*;
use crate::consts::{
    PAGE_SIZE, USER_HEAP_VMA_INIT_NR_PAGES, USER_SPACE_END, USER_SPACE_START, USER_STACK_MAX_ADDR,
    USER_STACK_SIZE_NR_PAGES,
};
use crate::mm::addr::{spec_ceil, spec_floor, PageAlign, Vaddr};
use crate::mm::mm::{
    lemma_bare_wf, spec_bare_area, spec_free_at, spec_is_empty_vma, spec_range_free, spec_sorted, MmStruct,
};
use crate::mm::pagetable::{lemma_vpn, PageTable};
use crate::mm::vma::{VmFlags, VMA, VM_ANON, VM_EXEC, VM_READ, VM_USER, VM_WRITE};
use crate::mm::MemoryManager;

verus! {

/// A segment of a program file that is to be loaded: where it lies in the
/// address space and in the file, how long it is in each, and what may be
/// done with it.
pub struct ElfSegment {
    pub vaddr: u64,
    pub offset: u64,
    pub file_size: u64,
    pub mem_size: u64,
    pub readable: bool,
    pub writable: bool,
    pub executable: bool,
}

/// What the loader needs of a program file: the entry point, the size of a
/// program header, and the segments to load, in the order of the file.
pub struct ElfImage {
    pub entry: usize,
    pub ph_entry_size: usize,
    pub segments: Vec<ElfSegment>,
}

/// The offset of the segment in its first page.
pub open spec fn spec_seg_off(seg: ElfSegment) -> int {
    seg.vaddr as int % 4096
}

/// The start of the area of the segment.
pub open spec fn spec_seg_start(seg: ElfSegment) -> int {
    spec_floor(seg.vaddr as int)
}

/// The length of the area of the segment: whole pages.
pub open spec fn spec_seg_len(seg: ElfSegment) -> int {
    spec_ceil(seg.mem_size + spec_seg_off(seg))
}

/// The end of the area of the segment.
pub open spec fn spec_seg_end(seg: ElfSegment) -> int {
    spec_seg_start(seg) + spec_seg_len(seg)
}

/// The rights of the area of the segment.
pub open spec fn spec_seg_flags(seg: ElfSegment) -> usize {
    VM_USER | (if seg.readable {
        VM_READ
    } else {
        0
    }) | (if seg.writable {
        VM_WRITE
    } else {
        0
    }) | (if seg.executable {
        VM_EXEC
    } else {
        0
    })
}

/// Whether the segment can be loaded at all: it is not empty, its area lies
/// in the part of the address space that is for users, and its part of the
/// file can be addressed.
pub open spec fn spec_seg_ok(seg: ElfSegment) -> bool {
    &&& 0 < spec_seg_len(seg) <= USER_SPACE_END - USER_SPACE_START
    &&& USER_SPACE_START <= spec_seg_start(seg)
    &&& spec_seg_end(seg) <= USER_SPACE_END
    &&& seg.offset + seg.file_size <= u64::MAX
    &&& seg.vaddr + seg.file_size <= u64::MAX
}

/// Whether the areas of the two segments have no address in common.
pub open spec fn spec_segs_apart(a: ElfSegment, b: ElfSegment) -> bool {
    spec_seg_end(a) <= spec_seg_start(b) || spec_seg_end(b) <= spec_seg_start(a)
}

/// The highest end of the areas of the first `k` segments.
pub open spec fn spec_load_end(segs: Seq<ElfSegment>, k: int) -> int
    decreases k,
{
    if k <= 0 {
        0
    } else if spec_seg_end(segs[k - 1]) > spec_load_end(segs, k - 1) {
        spec_seg_end(segs[k - 1])
    } else {
        spec_load_end(segs, k - 1)
    }
}

/// Whether `vma` is the area of the segment `seg` of the file `file`, with
/// no frames yet.
pub open spec fn spec_segment_area(seg: ElfSegment, file: u64, vma: VMA) -> bool {
    &&& vma.start_vaddr.0 == spec_seg_start(seg)
    &&& vma.end_vaddr.0 == spec_seg_end(seg)
    &&& vma.vm_flags.bits == spec_seg_flags(seg)
    &&& vma.pages_tree@.len() == 0
    &&& vma.pages_tree.wf()
    &&& vma.file == Some(file)
    &&& vma.file_off == seg.offset
    &&& vma.file_in_vma_off == spec_seg_off(seg)
    &&& vma.file_len == seg.file_size
    &&& vma.phy_pgs_cnt == 0
    &&& vma.cow_write_reserve_pgs is None
}

/// Where the heap of a program with the segments `segs` starts: one page
/// above the highest of their areas.
pub open spec fn spec_heap_start(segs: Seq<ElfSegment>) -> int {
    spec_ceil(spec_load_end(segs, segs.len() as int)) + 4096
}

/// The length of the first heap, and of the stack.
pub open spec fn spec_heap_len() -> int {
    USER_HEAP_VMA_INIT_NR_PAGES * 4096
}

/// Where the stack starts.
pub open spec fn spec_stack_start() -> int {
    USER_STACK_MAX_ADDR - USER_STACK_SIZE_NR_PAGES * 4096
}

/// Whether a program with the segments `segs` can be laid out: each segment
/// can be loaded, no two of their areas overlap, and the heap fits between
/// them and the stack.
pub open spec fn spec_elf_fits(segs: Seq<ElfSegment>) -> bool {
    &&& forall|s: int| 0 <= s < segs.len() ==> spec_seg_ok(#[trigger] segs[s])
    &&& forall|s: int, t: int| 0 <= s < t < segs.len() ==> spec_segs_apart(#[trigger] segs[s], #[trigger] segs[t])
    &&& spec_heap_start(segs) + spec_heap_len() <= spec_stack_start()
}

/// The rights of the heap and of the stack: everything, for a user, without
/// a file.
pub open spec fn spec_anon_flags() -> usize {
    VM_READ | VM_WRITE | VM_EXEC | VM_USER | VM_ANON
}

/// Whether `vma` is an area of `len` bytes from `start` for the heap or the
/// stack, but for the frames that it holds.
pub open spec fn spec_anon_area(vma: VMA, start: int, len: int) -> bool {
    &&& vma.start_vaddr.0 == start
    &&& vma.end_vaddr.0 == start + len
    &&& vma.vm_flags.bits & !crate::mm::vma::VM_DIRTY == spec_anon_flags()
    &&& vma.file is None
    &&& vma.file_off == 0
    &&& vma.file_in_vma_off == 0
    &&& vma.file_len == 0
    &&& vma.cow_write_reserve_pgs is None
}

/// Facts on the bits of rights.
pub proof fn lemma_seg_bits(r: usize, w: usize, x: usize)
    by (bit_vector)
    requires
        r == 0 || r == 1,
        w == 0 || w == 2,
        x == 0 || x == 4,
    ensures
        (8usize | r | w | x) & 32 == 0,
        (1usize | 2usize | 4usize | 8usize | 32usize) & 32 == 32,
        (1usize | 2usize | 4usize | 8usize | 32usize) & !64usize == (1usize | 2usize | 4usize | 8usize | 32usize),
{
}

/// The highest end of the areas of segments is the end of one of them, or
/// nothing, and none of them ends above it.
pub proof fn lemma_load_end(segs: Seq<ElfSegment>, k: int, t: int)
    requires
        0 <= t < k <= segs.len(),
    ensures
        spec_seg_end(segs[t]) <= spec_load_end(segs, k),
    decreases k,
{
    if t < k - 1 {
        lemma_load_end(segs, k - 1, t);
    }
}

impl MmStruct {
    /// The area for the segment `seg` of the file `file`, if the segment can
    /// be loaded and its range is free of areas.
    pub fn _segment_area(&self, seg: &ElfSegment, file: u64) -> (r: Option<VMA>)
        requires
            self.wf_layout(),
        ensures
            r is Some <==> spec_seg_ok(*seg) && spec_free_at(
                self.spec_vmas(),
                spec_seg_start(*seg),
                spec_seg_len(*seg),
            ),
            r matches Some(vma) ==> spec_segment_area(*seg, file, vma),
    {
        let mut s_addr = Vaddr(seg.vaddr);
        let offset = seg.vaddr % (PAGE_SIZE as u64);
        // the area starts where the page of the segment starts
        s_addr = s_addr.floor();
        if seg.mem_size > u64::MAX - 2 * (PAGE_SIZE as u64) {
            return None;
        }
        let size_aligned = Vaddr(seg.mem_size + offset).ceil().0;
        if seg.offset > u64::MAX - seg.file_size || seg.vaddr > u64::MAX - seg.file_size {
            return None;
        }
        let r = if seg.readable {
            VM_READ
        } else {
            0
        };
        let w = if seg.writable {
            VM_WRITE
        } else {
            0
        };
        let x = if seg.executable {
            VM_EXEC
        } else {
            0
        };
        let bits = VM_USER | r | w | x;
        match self.__alloc_unmapped_core(
            Some(s_addr),
            size_aligned,
            true,
            Vaddr(USER_SPACE_START),
            Vaddr(USER_SPACE_END),
        ) {
            None => None,
            Some(mut vma) => {
                vma.file_in_vma_off = offset;
                vma.file = Some(file);
                vma.vm_flags = VmFlags { bits };
                vma.file_len = seg.file_size;
                vma.file_off = seg.offset;
                Some(vma)
            },
        }
    }
}


/// A page table that manages the first entry of its root manages the part
/// of the address space that is for users.
pub proof fn lemma_user_covered(pt: &PageTable, v: u64)
    requires
        pt.spec_first_index() == 0,
        pt.spec_end_index() >= 1,
        v < USER_SPACE_END,
    ensures
        pt.spec_covers(v),
{
    lemma_vpn(v, 0);
}

/// The area of a segment that can be loaded can stand in an address space
/// for a user.
pub proof fn lemma_segment_bare(seg: ElfSegment, file: u64, vma: VMA, pt: &PageTable)
    requires
        spec_seg_ok(seg),
        spec_segment_area(seg, file, vma),
        pt.spec_first_index() == 0,
        pt.spec_end_index() >= 1,
    ensures
        spec_bare_area(vma, pt),
{
    assert forall|v: u64| vma.start_vaddr.0 <= v < vma.end_vaddr.0 implies #[trigger] pt.spec_covers(v) by {
        lemma_user_covered(pt, v);
    }
    lemma_seg_bits(
        if seg.readable {
            1
        } else {
            0
        },
        if seg.writable {
            2
        } else {
            0
        },
        if seg.executable {
            4
        } else {
            0
        },
    );
}

/// Whether the first `k` of the segments `segs` can be loaded together:
/// each can be loaded, and no two of their areas overlap.
pub open spec fn spec_segs_fit(segs: Seq<ElfSegment>, k: int) -> bool {
    &&& forall|s: int| 0 <= s < k ==> spec_seg_ok(#[trigger] segs[s])
    &&& forall|s: int, t: int| 0 <= s < t < k ==> spec_segs_apart(#[trigger] segs[s], #[trigger] segs[t])
}

/// Whether the areas `vmas` are the areas of the first `k` segments of the
/// file `file`, each once; `place` says where the area of a segment stands,
/// and `owner` whose area stands at a place.
pub open spec fn spec_areas_of(
    vmas: Seq<VMA>,
    segs: Seq<ElfSegment>,
    file: u64,
    k: int,
    place: Seq<int>,
    owner: Seq<int>,
) -> bool {
    &&& vmas.len() == k
    &&& place.len() == k
    &&& owner.len() == k
    &&& forall|t: int| 0 <= t < k ==> 0 <= #[trigger] place[t] < k && spec_segment_area(segs[t], file, vmas[place[t]])
    &&& forall|i: int| 0 <= i < k ==> 0 <= #[trigger] owner[i] < k && spec_segment_area(segs[owner[i]], file, vmas[i])
}

/// The range of one more segment is free of the areas of the segments
/// before it if and only if its area overlaps with none of theirs.
pub proof fn lemma_segment_free(
    vmas: Seq<VMA>,
    segs: Seq<ElfSegment>,
    file: u64,
    k: int,
    place: Seq<int>,
    owner: Seq<int>,
)
    requires
        0 <= k < segs.len(),
        spec_areas_of(vmas, segs, file, k, place, owner),
        spec_seg_len(segs[k]) > 0,
        forall|s: int| 0 <= s < k ==> spec_seg_ok(#[trigger] segs[s]),
    ensures
        spec_free_at(vmas, spec_seg_start(segs[k]), spec_seg_len(segs[k])) <==> forall|t: int|
            0 <= t < k ==> spec_segs_apart(#[trigger] segs[t], segs[k]),
{
    let s = spec_seg_start(segs[k]);
    let e = spec_seg_end(segs[k]);
    if spec_free_at(vmas, s, spec_seg_len(segs[k])) {
        assert forall|t: int| 0 <= t < k implies spec_segs_apart(#[trigger] segs[t], segs[k]) by {
            let i = place[t];
            assert(vmas[i].end_vaddr.0 <= s || e <= vmas[i].start_vaddr.0);
        }
    }
    if forall|t: int| 0 <= t < k ==> spec_segs_apart(#[trigger] segs[t], segs[k]) {
        assert forall|i: int| 0 <= i < vmas.len() implies (#[trigger] vmas[i]).end_vaddr.0 <= s || e
            <= vmas[i].start_vaddr.0 by {
            let t = owner[i];
            assert(spec_segs_apart(segs[t], segs[k]));
        }
    }
}

/// The areas after the area of one more segment has been put among them.
pub proof fn lemma_areas_insert(
    vmas: Seq<VMA>,
    segs: Seq<ElfSegment>,
    file: u64,
    k: int,
    place: Seq<int>,
    owner: Seq<int>,
    at: int,
    vma: VMA,
)
    requires
        0 <= k < segs.len(),
        spec_areas_of(vmas, segs, file, k, place, owner),
        0 <= at <= k,
        spec_segment_area(segs[k], file, vma),
    ensures
        spec_areas_of(
            vmas.insert(at, vma),
            segs,
            file,
            k + 1,
            Seq::new((k + 1) as nat, |t: int| if t == k { at } else if place[t] < at { place[t] } else { place[t] + 1 }),
            owner.insert(at, k),
        ),
{
    let vmas2 = vmas.insert(at, vma);
    let place2 = Seq::new(
        (k + 1) as nat,
        |t: int| if t == k { at } else if place[t] < at { place[t] } else { place[t] + 1 },
    );
    let owner2 = owner.insert(at, k);
    assert forall|t: int| 0 <= t < k + 1 implies 0 <= #[trigger] place2[t] < k + 1 && spec_segment_area(
        segs[t],
        file,
        vmas2[place2[t]],
    ) by {
        if t < k {
            let p = place[t];
            assert(spec_segment_area(segs[t], file, vmas[p]));
        }
    }
    assert forall|i: int| 0 <= i < k + 1 implies 0 <= #[trigger] owner2[i] < k + 1 && spec_segment_area(
        segs[owner2[i]],
        file,
        vmas2[i],
    ) by {
        if i < at {
            assert(owner2[i] == owner[i]);
        } else if i > at {
            assert(owner2[i] == owner[i - 1]);
            assert(vmas2[i] == vmas[i - 1]);
        }
    }
}

impl MmStruct {
    /// Puts the areas of the segments of `image` into this address space,
    /// which has none yet, and returns the highest of their ends. Fails where
    /// a segment cannot be loaded or two segments overlap; the page table is
    /// not touched either way.
    pub fn _load_segments(&mut self, image: &ElfImage, file: u64) -> (r: Option<Vaddr>)
        requires
            old(self).vmas@.len() == 0,
            old(self).pagetable.spec_first_index() == 0,
            old(self).pagetable.spec_end_index() >= 1,
        ensures
            old(self).spec_same_but_vmas(final(self)),
            r is Some <==> spec_segs_fit(image.segments@, image.segments@.len() as int),
            r matches Some(load_end) ==> {
                &&& load_end.0 == spec_load_end(image.segments@, image.segments@.len() as int)
                &&& load_end.0 <= USER_SPACE_END
                &&& final(self).wf_layout()
                &&& exists|place: Seq<int>, owner: Seq<int>| #[trigger]
                    spec_areas_of(
                        final(self).vmas@,
                        image.segments@,
                        file,
                        image.segments@.len() as int,
                        place,
                        owner,
                    )
                &&& forall|i: int|
                    0 <= i < final(self).vmas@.len() ==> spec_bare_area(
                        #[trigger] final(self).vmas@[i],
                        &final(self).pagetable,
                    ) && final(self).vmas@[i].end_vaddr.0 <= load_end.0
            },
    {
        let n = image.segments.len();
        let mut load_end = Vaddr(0);
        let mut k: usize = 0;
        let ghost mut place: Seq<int> = Seq::empty();
        let ghost mut owner: Seq<int> = Seq::empty();
        let ghost segs = image.segments@;
        while k < n
            invariant
                k <= n,
                n == image.segments@.len(),
                segs == image.segments@,
                old(self).spec_same_but_vmas(self),
                self.pagetable.spec_first_index() == 0,
                self.pagetable.spec_end_index() >= 1,
                self.wf_layout(),
                spec_segs_fit(segs, k as int),
                spec_areas_of(self.vmas@, segs, file, k as int, place, owner),
                load_end.0 == spec_load_end(segs, k as int),
                load_end.0 <= USER_SPACE_END,
                forall|i: int|
                    0 <= i < self.vmas@.len() ==> spec_bare_area(#[trigger] self.vmas@[i], &self.pagetable)
                        && self.vmas@[i].end_vaddr.0 <= load_end.0,
            decreases n - k,
        {
            let seg = &image.segments[k];
            let found = self._segment_area(seg, file);
            proof {
                if spec_seg_len(*seg) > 0 {
                    lemma_segment_free(self.vmas@, segs, file, k as int, place, owner);
                }
            }
            let vma = match found {
                Some(vma) => vma,
                None => {
                    proof {
                        if spec_segs_fit(segs, n as int) {
                            assert(spec_seg_ok(segs[k as int]));
                            assert forall|t: int| 0 <= t < k implies spec_segs_apart(#[trigger] segs[t], segs[k as int]) by {}
                        }
                    }
                    return None;
                },
            };
            let vma_end = vma.get_end_vaddr();
            let ghost before = self.vmas@;
            proof {
                lemma_segment_bare(*seg, file, vma, &self.pagetable);
            }
            self._insert_no_check(vma);
            proof {
                let at = choose|at: int| 0 <= at <= before.len() && #[trigger] self.vmas@ == before.insert(at, vma);
                lemma_areas_insert(before, segs, file, k as int, place, owner, at, vma);
                place = Seq::new(
                    (k + 1) as nat,
                    |t: int| if t == k { at } else if place[t] < at { place[t] } else { place[t] + 1 },
                );
                owner = owner.insert(at, k as int);
                assert forall|i: int| 0 <= i < self.vmas@.len() implies spec_bare_area(
                    #[trigger] self.vmas@[i],
                    &self.pagetable,
                ) && self.vmas@[i].end_vaddr.0 <= spec_load_end(segs, k + 1) by {
                    if i < at {
                        assert(self.vmas@[i] == before[i]);
                    } else if i > at {
                        assert(self.vmas@[i] == before[i - 1]);
                    }
                }
                assert forall|s: int, t: int| 0 <= s < t < k + 1 implies spec_segs_apart(
                    #[trigger] segs[s],
                    #[trigger] segs[t],
                ) by {}
            }
            if vma_end.0 > load_end.0 {
                load_end = vma_end;
            }
            k += 1;
        }
        Some(load_end)
    }
}


/// The address of the page `k` of the stack.
pub open spec fn spec_stack_page(k: int) -> Vaddr {
    Vaddr((spec_stack_start() + k * 4096) as u64)
}

/// Whether `a` is one of the first `k` pages of the stack.
pub open spec fn spec_is_stack_page(a: Vaddr, k: int) -> bool {
    exists|k2: int| 0 <= k2 < k && a == #[trigger] spec_stack_page(k2)
}

/// Whether one of the first `n` of the areas `vmas` is the area of the
/// segment `seg`.
pub open spec fn spec_has_area(vmas: Seq<VMA>, n: int, seg: ElfSegment, file: u64) -> bool {
    exists|i: int| 0 <= i < n && spec_segment_area(seg, file, #[trigger] vmas[i])
}

/// Whether `vma` is the area of one of the segments `segs`.
pub open spec fn spec_is_area(segs: Seq<ElfSegment>, file: u64, vma: VMA) -> bool {
    exists|t: int| 0 <= t < segs.len() && spec_segment_area(#[trigger] segs[t], file, vma)
}

/// What the loading of the program `image` from the file `file` has
/// brought about: an address space for a user with the areas of the
/// segments, in the order of their addresses and without frames, then the
/// heap, one page above them and without frames, and last the stack.
pub open spec fn spec_elf_loaded(image: &ElfImage, file: u64, mm: &MmStruct) -> bool {
    let segs = image.segments@;
    let n = segs.len() as int;
    &&& !mm.is_kern
    &&& mm.cow_target is None
    &&& mm.start_brk.0 == spec_heap_start(segs)
    &&& mm.brk.0 == spec_heap_start(segs) + spec_heap_len()
    &&& mm.vmas@.len() == n + 2
    &&& forall|t: int| 0 <= t < n ==> spec_has_area(mm.vmas@, n, #[trigger] segs[t], file)
    &&& forall|i: int| 0 <= i < n ==> spec_is_area(segs, file, #[trigger] mm.vmas@[i])
    &&& spec_anon_area(mm.vmas@[n], spec_heap_start(segs), spec_heap_len())
    &&& mm.vmas@[n].pages_tree@.len() == 0
    &&& spec_anon_area(mm.vmas@[n + 1], spec_stack_start(), USER_STACK_SIZE_NR_PAGES * 4096)
}

/// Facts on the bit that marks an area as written to.
pub proof fn lemma_dirty_bit(f: usize)
    by (bit_vector)
    ensures
        (f | 64usize) & !64usize == f & !64usize,
{
}

/// An area that is put among areas that all end below it stands last.
pub proof fn lemma_insert_last(before: Seq<VMA>, after: Seq<VMA>, vma: VMA, bound: int)
    requires
        spec_sorted(after),
        exists|at: int| 0 <= at <= before.len() && after == #[trigger] before.insert(at, vma),
        forall|i: int| 0 <= i < before.len() ==> (#[trigger] before[i]).end_vaddr.0 <= bound,
        forall|i: int| 0 <= i < before.len() ==> (#[trigger] before[i]).start_vaddr.0 < before[i].end_vaddr.0,
        bound <= vma.start_vaddr.0,
        vma.start_vaddr.0 < vma.end_vaddr.0,
    ensures
        after == before.push(vma),
{
    let at = choose|at: int| 0 <= at <= before.len() && after == #[trigger] before.insert(at, vma);
    if at < before.len() {
        assert(after[at] == vma);
        assert(after[at + 1] == before[at]);
        assert(after[at].end_vaddr.0 <= after[at + 1].start_vaddr.0);
    }
    assert(before.insert(before.len() as int, vma) =~= before.push(vma));
}

impl MmStruct {
    /// Touches the pages of the stack, which is the last area, one after
    /// the other, so that each gets a frame as far as the free frames last.
    #[verifier::rlimit(100)]
    #[verifier::spinoff_prover]
    fn _populate_stack(&mut self, mem: &mut MemoryManager, Ghost(full): Ghost<bool>)
        requires
            old(self).wf(old(mem)),
            old(self).vmas@.len() >= 1,
            spec_anon_area(
                old(self).vmas@[old(self).vmas@.len() - 1],
                spec_stack_start(),
                USER_STACK_SIZE_NR_PAGES * 4096,
            ),
            old(self).vmas@[old(self).vmas@.len() - 1].pages_tree@.len() == 0,
            full ==> old(mem).buddy@.free_pages_from(0) >= 3 * USER_STACK_SIZE_NR_PAGES && forall|v: u64|
                v < USER_SPACE_END ==> #[trigger] old(self).pagetable.spec_translate(old(mem), v) is None,
        ensures
            final(self).wf(final(mem)),
            final(self).is_kern == old(self).is_kern,
            final(self).brk == old(self).brk,
            final(self).start_brk == old(self).start_brk,
            final(self).cow_target == old(self).cow_target,
            final(self).vmas@.len() == old(self).vmas@.len(),
            forall|i: int| 0 <= i < old(self).vmas@.len() - 1 ==> #[trigger] final(self).vmas@[i] == old(self).vmas@[i],
            spec_anon_area(
                final(self).vmas@[old(self).vmas@.len() - 1],
                spec_stack_start(),
                USER_STACK_SIZE_NR_PAGES * 4096,
            ),
            full ==> forall|k: int|
                0 <= k < USER_STACK_SIZE_NR_PAGES ==> final(self).vmas@[old(self).vmas@.len()
                    - 1].pages_tree.spec_contains(#[trigger] spec_stack_page(k)),
    {
        let stack_top = USER_STACK_MAX_ADDR - (USER_STACK_SIZE_NR_PAGES as u64) * (PAGE_SIZE as u64);
        let ghost si = old(self).vmas@.len() - 1;
        let mut k: usize = 0;
        while k < USER_STACK_SIZE_NR_PAGES
            invariant
                k <= USER_STACK_SIZE_NR_PAGES,
                stack_top == spec_stack_start(),
                si == old(self).vmas@.len() - 1,
                si >= 0,
                self.wf(mem),
                self.is_kern == old(self).is_kern,
                self.brk == old(self).brk,
                self.start_brk == old(self).start_brk,
                self.cow_target == old(self).cow_target,
                self.vmas@.len() == old(self).vmas@.len(),
                forall|i: int| 0 <= i < si ==> #[trigger] self.vmas@[i] == old(self).vmas@[i],
                spec_anon_area(self.vmas@[si], spec_stack_start(), USER_STACK_SIZE_NR_PAGES * 4096),
                forall|j: int|
            0 <= j < self.vmas@[si].pages_tree@.len() ==> spec_is_stack_page((#[trigger] self.vmas@[si].pages_tree@[j]).vaddr, k as int),
                full ==> mem.buddy@.free_pages_from(0) >= 3 * (USER_STACK_SIZE_NR_PAGES - k),
                full ==> forall|k2: int|
                    k <= k2 < USER_STACK_SIZE_NR_PAGES ==> self.pagetable.spec_translate(
                        mem,
                        (#[trigger] spec_stack_page(k2)).0,
                    ) is None,
                full ==> forall|k2: int| 0 <= k2 < k ==> self.vmas@[si].pages_tree.spec_contains(#[trigger] spec_stack_page(k2)),
            decreases USER_STACK_SIZE_NR_PAGES - k,
        {
            let ghost before = *self;
            let ghost mem0 = *mem;
            let v = Vaddr(stack_top + (k as u64) * (PAGE_SIZE as u64));
            proof {
                lemma_stack_ready(*self, *mem, si, k as int);
            }
            let r = self.handle_fault(mem, v, crate::trap::PgFaultProt::Write);
            proof {
                assert(before.spec_fault_result(&mem0, self, mem, si, v, crate::trap::PgFaultProt::Write, r));
                lemma_stack_step(before, mem0, *self, *mem, si, k as int, r, full);
            }
            k += 1;
        }
    }
}

/// Before the fault on the page `k` of the stack: the page starts a page of
/// the stack, which is the one area that holds it, and it has no frame.
pub proof fn lemma_stack_ready(mm: MmStruct, mem: MemoryManager, si: int, k: int)
    requires
        mm.wf(&mem),
        0 <= si < mm.vmas@.len(),
        0 <= k < USER_STACK_SIZE_NR_PAGES,
        spec_anon_area(mm.vmas@[si], spec_stack_start(), USER_STACK_SIZE_NR_PAGES * 4096),
        forall|j: int|
            0 <= j < mm.vmas@[si].pages_tree@.len() ==> spec_is_stack_page((#[trigger] mm.vmas@[si].pages_tree@[j]).vaddr, k),
    ensures
        spec_stack_page(k).0 == spec_stack_start() + k * 4096,
        spec_floor(spec_stack_page(k).0 as int) == spec_stack_page(k).0,
        mm.vmas@[si].spec_in_vma(spec_stack_page(k)),
        forall|j: int| 0 <= j < mm.vmas@.len() && (#[trigger] mm.vmas@[j]).spec_in_vma(spec_stack_page(k)) ==> j == si,
        !mm.vmas@[si].pages_tree.spec_contains(spec_stack_page(k)),
        mm.vmas@[si].pages_tree.wf(),
        0 <= mm.pagetable.spec_missing(&mem, spec_stack_page(k).0) <= 2,
        mm.pagetable.spec_covers(spec_stack_page(k).0),
{
    let v = spec_stack_page(k);
    assert(mm.vmas@[si].spec_in_vma(v));
    mm.lemma_one_area(si, v);
    assert(mm.vmas@[si].wf(&mm.pagetable, &mem));
    mm.pagetable.lemma_walk(&mem, v.0);
    if mm.vmas@[si].pages_tree.spec_contains(v) {
        mm.vmas@[si].pages_tree.lemma_contains(v);
        let j = mm.vmas@[si].pages_tree.spec_index(v);
        assert(spec_is_stack_page(mm.vmas@[si].pages_tree@[j].vaddr, k));
        let k2 = choose|k2: int| 0 <= k2 < k && v == #[trigger] spec_stack_page(k2);
        assert(spec_stack_page(k2).0 != v.0);
    }
}

/// What one fault on the page `k` of the stack comes to.
pub proof fn lemma_stack_step(
    before: MmStruct,
    mem0: MemoryManager,
    after: MmStruct,
    mem1: MemoryManager,
    si: int,
    k: int,
    r: Result<crate::mm::fault::FaultDone, crate::mm::fault::FatalFault>,
    full: bool,
)
    requires
        before.wf(&mem0),
        0 <= si < before.vmas@.len(),
        0 <= k < USER_STACK_SIZE_NR_PAGES,
        spec_anon_area(before.vmas@[si], spec_stack_start(), USER_STACK_SIZE_NR_PAGES * 4096),
        !before.vmas@[si].pages_tree.spec_contains(spec_stack_page(k)),
        before.spec_fault_result(&mem0, &after, &mem1, si, spec_stack_page(k), crate::trap::PgFaultProt::Write, r),
        r is Err ==> before.spec_unchanged(&after) && crate::mm::fault::spec_mem_same(&mem0, &mem1),
        forall|j: int|
            0 <= j < before.vmas@[si].pages_tree@.len() ==> spec_is_stack_page((#[trigger] before.vmas@[si].pages_tree@[j]).vaddr, k),
        full ==> mem0.buddy@.free_pages_from(0) >= 3 * (USER_STACK_SIZE_NR_PAGES - k),
        full ==> forall|k2: int|
            k <= k2 < USER_STACK_SIZE_NR_PAGES ==> before.pagetable.spec_translate(
                &mem0,
                (#[trigger] spec_stack_page(k2)).0,
            ) is None,
        full ==> forall|k2: int| 0 <= k2 < k ==> before.vmas@[si].pages_tree.spec_contains(#[trigger] spec_stack_page(k2)),
        after.vmas@[si].pages_tree.wf(),
        0 <= before.pagetable.spec_missing(&mem0, spec_stack_page(k).0) <= 2,
        before.pagetable.spec_covers(spec_stack_page(k).0),
    ensures
        after.is_kern == before.is_kern,
        after.brk == before.brk,
        after.start_brk == before.start_brk,
        after.cow_target == before.cow_target,
        after.vmas@.len() == before.vmas@.len(),
        forall|i: int| 0 <= i < si ==> #[trigger] after.vmas@[i] == before.vmas@[i],
        spec_anon_area(after.vmas@[si], spec_stack_start(), USER_STACK_SIZE_NR_PAGES * 4096),
        forall|j: int|
            0 <= j < after.vmas@[si].pages_tree@.len() ==> spec_is_stack_page((#[trigger] after.vmas@[si].pages_tree@[j]).vaddr, k + 1),
        full ==> mem1.buddy@.free_pages_from(0) >= 3 * (USER_STACK_SIZE_NR_PAGES - (k + 1)),
        full ==> forall|k2: int|
            k + 1 <= k2 < USER_STACK_SIZE_NR_PAGES ==> after.pagetable.spec_translate(
                &mem1,
                (#[trigger] spec_stack_page(k2)).0,
            ) is None,
        full ==> forall|k2: int| 0 <= k2 < k + 1 ==> after.vmas@[si].pages_tree.spec_contains(#[trigger] spec_stack_page(k2)),
{
    let v = spec_stack_page(k);
    let vma0 = before.vmas@[si];
    let vma1 = after.vmas@[si];
    lemma_dirty_bit(vma0.vm_flags.bits);
    if r is Err {
        assert(after.vmas@ == before.vmas@);
        assert forall|j: int| 0 <= j < vma1.pages_tree@.len() implies spec_is_stack_page(
            (#[trigger] vma1.pages_tree@[j]).vaddr,
            k + 1,
        ) by {
            let key = vma0.pages_tree@[j].vaddr;
            assert(spec_is_stack_page(key, k));
            let k2 = choose|k2: int| 0 <= k2 < k && key == #[trigger] spec_stack_page(k2);
            assert(0 <= k2 < k + 1 && key == spec_stack_page(k2));
        }
        assert(!full) by {
            if full {
                assert(before.pagetable.spec_translate(&mem0, spec_stack_page(k).0) is None);
            }
        }
    } else {
        assert(r is Ok);
        let ff = match r {
            Ok(crate::mm::fault::FaultDone::Populated(ff)) => ff,
            _ => arbitrary(),
        };
        assert(before.spec_populated(&mem0, &after, &mem1, si, v, ff));
        let t0 = vma0.pages_tree;
        let t1 = vma1.pages_tree;
        assert forall|j: int| 0 <= j < t1@.len() implies spec_is_stack_page((#[trigger] t1@[j]).vaddr, k + 1) by {
            t1.lemma_index(j);
            let key = t1@[j].vaddr;
            if key != v {
                assert(t0.spec_contains(key));
                t0.lemma_contains(key);
                let j0 = t0.spec_index(key);
                assert(spec_is_stack_page(t0@[j0].vaddr, k));
                let k2 = choose|k2: int| 0 <= k2 < k && key == #[trigger] spec_stack_page(k2);
                assert(0 <= k2 < k + 1 && key == spec_stack_page(k2));
            } else {
                assert(0 <= k < k + 1 && key == spec_stack_page(k));
            }
        }
        if full {
            assert forall|k2: int| k + 1 <= k2 < USER_STACK_SIZE_NR_PAGES implies after.pagetable.spec_translate(
                &mem1,
                (#[trigger] spec_stack_page(k2)).0,
            ) is None by {
                let v2 = spec_stack_page(k2);
                crate::mm::vma::lemma_vma_vpn(vma0.start_vaddr.0, vma0.end_vaddr.0, v.0, v2.0);
                assert(vma0.wf(&before.pagetable, &mem0));
                assert(before.pagetable.spec_covers(v2.0));
                crate::mm::step::lemma_step(
                    before.pagetable,
                    mem0,
                    after.pagetable,
                    mem1,
                    set![crate::mm::pagetable::spec_vpn(v.0)],
                    Set::empty(),
                    v2.0,
                    0,
                );
            }
            assert forall|k2: int| 0 <= k2 < k + 1 implies t1.spec_contains(#[trigger] spec_stack_page(k2)) by {
                if k2 < k {
                    assert(t0.spec_contains(spec_stack_page(k2)));
                    assert(spec_stack_page(k2) != v);
                }
            }
        }
    }
}


/// An anonymous area of whole pages in the part of the address space that
/// is for users can stand in an address space for a user.
pub proof fn lemma_anon_bare(vma: VMA, found: VMA, start: int, len: int, pt: &PageTable)
    requires
        spec_is_empty_vma(found, start, len),
        vma == (VMA { vm_flags: VmFlags { bits: spec_anon_flags() }, ..found }),
        start % 4096 == 0,
        len % 4096 == 0,
        0 < len,
        0 <= start,
        start + len <= USER_SPACE_END,
        pt.spec_first_index() == 0,
        pt.spec_end_index() >= 1,
    ensures
        spec_bare_area(vma, pt),
        spec_anon_area(vma, start, len),
        vma.pages_tree@.len() == 0,
{
    assert forall|v: u64| vma.start_vaddr.0 <= v < vma.end_vaddr.0 implies #[trigger] pt.spec_covers(v) by {
        lemma_user_covered(pt, v);
    }
    lemma_seg_bits(0, 0, 0);
}

impl MmStruct {
    /// Puts an anonymous area of `len` bytes from `start` with all rights
    /// above the areas, all of which start at or below `start`, if it fits
    /// above them in the part of the address space that is for users.
    pub fn _add_anon_last(&mut self, start: Vaddr, len: u64) -> (ok: bool)
        requires
            old(self).wf_layout(),
            old(self).pagetable.spec_first_index() == 0,
            old(self).pagetable.spec_end_index() >= 1,
            start.0 % 4096 == 0,
            len % 4096 == 0,
            0 < len < USER_SPACE_END,
            forall|i: int| 0 <= i < old(self).vmas@.len() ==> (#[trigger] old(self).vmas@[i]).start_vaddr.0 <= start.0,
        ensures
            old(self).spec_same_but_vmas(final(self)),
            ok == (start.0 + len <= USER_SPACE_END && forall|i: int|
                0 <= i < old(self).vmas@.len() ==> (#[trigger] old(self).vmas@[i]).end_vaddr.0 <= start.0),
            !ok ==> final(self).vmas@ == old(self).vmas@,
            ok ==> {
                &&& final(self).wf_layout()
                &&& final(self).vmas@.len() == old(self).vmas@.len() + 1
                &&& final(self).vmas@ == old(self).vmas@.push(final(self).vmas@[old(self).vmas@.len() as int])
                &&& spec_anon_area(final(self).vmas@[old(self).vmas@.len() as int], start.0 as int, len as int)
                &&& spec_bare_area(final(self).vmas@[old(self).vmas@.len() as int], &final(self).pagetable)
            },
    {
        let ghost before = self.vmas@;
        proof {
            if forall|i: int| 0 <= i < before.len() ==> (#[trigger] before[i]).end_vaddr.0 <= start.0 {
                assert(spec_range_free(before, start.0 as int, start.0 + len));
            }
            if spec_range_free(before, start.0 as int, start.0 + len) {
                assert forall|i: int| 0 <= i < before.len() implies (#[trigger] before[i]).end_vaddr.0 <= start.0 by {
                    assert(before[i].start_vaddr.0 < before[i].end_vaddr.0);
                }
            }
        }
        match self.__alloc_unmapped_core(Some(start), len, true, Vaddr(USER_SPACE_START), Vaddr(USER_SPACE_END)) {
            None => false,
            Some(mut v) => {
                let ghost found = v;
                v.vm_flags = VmFlags { bits: VM_READ | VM_WRITE | VM_EXEC | VM_USER | VM_ANON };
                proof {
                    lemma_anon_bare(v, found, start.0 as int, len as int, &self.pagetable);
                }
                self._insert_no_check(v);
                proof {
                    let at = choose|at: int| 0 <= at <= before.len() && #[trigger] self.vmas@ == before.insert(at, v);
                    assert(self.vmas@ == before.insert(at, v));
                    assert forall|i: int| 0 <= i < before.len() implies (#[trigger] before[i]).start_vaddr.0
                        < before[i].end_vaddr.0 by {}
                    lemma_insert_last(before, self.vmas@, v, start.0 as int);
                }
                true
            },
        }
    }
}

/// The address space of a program is still what the loading has brought
/// about after pages of the stack have got frames.
pub proof fn lemma_loaded_kept(image: &ElfImage, file: u64, laid: MmStruct, mm: MmStruct)
    requires
        spec_elf_loaded(image, file, &laid),
        mm.is_kern == laid.is_kern,
        mm.brk == laid.brk,
        mm.start_brk == laid.start_brk,
        mm.cow_target == laid.cow_target,
        mm.vmas@.len() == laid.vmas@.len(),
        forall|i: int| 0 <= i < laid.vmas@.len() - 1 ==> #[trigger] mm.vmas@[i] == laid.vmas@[i],
        spec_anon_area(mm.vmas@[laid.vmas@.len() - 1], spec_stack_start(), USER_STACK_SIZE_NR_PAGES * 4096),
    ensures
        spec_elf_loaded(image, file, &mm),
{
    let segs = image.segments@;
    let n = segs.len() as int;
    assert forall|t: int| 0 <= t < n implies spec_has_area(mm.vmas@, n, #[trigger] segs[t], file) by {
        assert(spec_has_area(laid.vmas@, n, segs[t], file));
        let i = choose|i: int| 0 <= i < n && spec_segment_area(segs[t], file, #[trigger] laid.vmas@[i]);
        assert(mm.vmas@[i] == laid.vmas@[i]);
    }
    assert forall|i: int| 0 <= i < n implies spec_is_area(segs, file, #[trigger] mm.vmas@[i]) by {
        assert(mm.vmas@[i] == laid.vmas@[i]);
    }
    assert(mm.vmas@[n] == laid.vmas@[n]);
}

/// Lays out the address space of the program `image`, which is loaded from
/// the file `file`, over the page table `pagetable`: an area for each
/// segment, the heap one page above them, and the stack below the top of
/// the part that is for users. No frame is allocated for them but for the
/// pages of the stack, each of which gets one as far as the free frames
/// last: all of them do where three frames are free for each and the page
/// table maps nothing yet. Returns the address space, the auxiliary vector
/// and the entry point. Where the program cannot be laid out, the page
/// table comes back, and nothing has changed.
pub fn new_from_elf(pagetable: PageTable, mem: &mut MemoryManager, image: &ElfImage, file: u64) -> (r: Result<
    (MmStruct, Vec<crate::mm::auxv::AuxHeader>, usize),
    PageTable,
>)
    requires
        pagetable.wf(old(mem)),
        pagetable.spec_first_index() == 0,
        pagetable.spec_end_index() >= 1,
    ensures
        r is Err <==> !spec_elf_fits(image.segments@),
        r matches Err(pt) ==> pt == pagetable && crate::mm::fault::spec_mem_same(old(mem), final(mem)),
        r matches Ok((mm, auxv, entry)) ==> {
            &&& mm.wf(final(mem))
            &&& spec_elf_loaded(image, file, &mm)
            &&& auxv@ == crate::mm::auxv::spec_auxv(image.entry, image.ph_entry_size)
            &&& entry == image.entry
            &&& (old(mem).buddy@.free_pages_from(0) >= 3 * USER_STACK_SIZE_NR_PAGES && forall|v: u64|
                v < USER_SPACE_END ==> #[trigger] pagetable.spec_translate(old(mem), v) is None) ==> forall|k: int|
                0 <= k < USER_STACK_SIZE_NR_PAGES ==> mm.vmas@[image.segments@.len() as int + 1].pages_tree.spec_contains(
                    #[trigger] spec_stack_page(k),
                )
        },
{
    let ghost pt0 = pagetable;
    let mut mm = match MmStruct::_new_layout(pagetable, image, file) {
        Ok(mm) => mm,
        Err(pt) => {
            return Err(pt);
        },
    };
    let ghost laid = mm;
    let ghost n = image.segments@.len() as int;
    let ghost segs = image.segments@;
    proof {
        lemma_bare_wf(mm, *mem);
    }
    // the pages of the stack get their frames at once
    let ghost full = old(mem).buddy@.free_pages_from(0) >= 3 * USER_STACK_SIZE_NR_PAGES && forall|v: u64|
        v < USER_SPACE_END ==> #[trigger] pt0.spec_translate(old(mem), v) is None;
    mm._populate_stack(mem, Ghost(full));
    proof {
        lemma_loaded_kept(image, file, laid, mm);
    }
    let auxv = crate::mm::auxv::make_auxv(image.entry, image.ph_entry_size);
    Ok((mm, auxv, image.entry))
}

impl MmStruct {
    /// The areas of the program `image` over the page table `pagetable`,
    /// all without frames: see `spec_elf_loaded`. Where the program cannot
    /// be laid out, the page table comes back.
    pub fn _new_layout(pagetable: PageTable, image: &ElfImage, file: u64) -> (r: Result<MmStruct, PageTable>)
        requires
            pagetable.spec_first_index() == 0,
            pagetable.spec_end_index() >= 1,
        ensures
            r is Err <==> !spec_elf_fits(image.segments@),
            r matches Err(pt) ==> pt == pagetable,
            r matches Ok(mm) ==> {
                &&& mm.pagetable == pagetable
                &&& mm.wf_layout()
                &&& spec_elf_loaded(image, file, &mm)
                &&& forall|i: int| 0 <= i < mm.vmas@.len() ==> spec_bare_area(#[trigger] mm.vmas@[i], &mm.pagetable)
            },
    {
        let ghost segs = image.segments@;
        let ghost n = segs.len() as int;
        let mut mm = MmStruct::new_empty_user_mm_by_pagetable(pagetable);
        let load_end = match mm._load_segments(image, file) {
            Some(e) => e,
            None => {
                return Err(mm.pagetable);
            },
        };
        let ghost loaded = mm.vmas@;
        // heap
        let heap_start = load_end.ceil().0 + PAGE_SIZE as u64;
        let heap_len = (USER_HEAP_VMA_INIT_NR_PAGES as u64) * (PAGE_SIZE as u64);
        mm.start_brk = Vaddr(heap_start);
        mm.brk = Vaddr(heap_start + heap_len);
        proof {
            assert(heap_start == spec_heap_start(segs));
            assert forall|i: int| 0 <= i < loaded.len() implies (#[trigger] loaded[i]).end_vaddr.0 <= heap_start
                && loaded[i].start_vaddr.0 <= heap_start by {
                assert(spec_bare_area(loaded[i], &mm.pagetable));
            }
        }
        if !mm._add_anon_last(Vaddr(heap_start), heap_len) {
            return Err(mm.pagetable);
        }
        let ghost heaped = mm.vmas@;
        let stack_top = USER_STACK_MAX_ADDR - (USER_STACK_SIZE_NR_PAGES as u64) * (PAGE_SIZE as u64);
        let stack_len = (USER_STACK_SIZE_NR_PAGES as u64) * (PAGE_SIZE as u64);
        proof {
            assert(heaped[n].end_vaddr.0 == heap_start + heap_len);
            assert forall|i: int| 0 <= i < heaped.len() implies (#[trigger] heaped[i]).start_vaddr.0 <= stack_top by {
                if i < n {
                    assert(heaped[i] == loaded[i]);
                }
            }
            if heap_start + heap_len <= stack_top {
                assert forall|i: int| 0 <= i < heaped.len() implies (#[trigger] heaped[i]).end_vaddr.0 <= stack_top by {
                    if i < n {
                        assert(heaped[i] == loaded[i]);
                    }
                }
            }
        }
        if !mm._add_anon_last(Vaddr(stack_top), stack_len) {
            return Err(mm.pagetable);
        }
        proof {
            assert forall|i: int| 0 <= i < mm.vmas@.len() implies spec_bare_area(#[trigger] mm.vmas@[i], &mm.pagetable) by {
                if i < n {
                    assert(mm.vmas@[i] == loaded[i]);
                } else if i == n {
                    assert(mm.vmas@[i] == heaped[n]);
                }
            }
            let (place, owner) = choose|place: Seq<int>, owner: Seq<int>| #[trigger]
                spec_areas_of(loaded, segs, file, n, place, owner);
            assert forall|t: int| 0 <= t < n implies spec_has_area(mm.vmas@, n, #[trigger] segs[t], file) by {
                let i = place[t];
                assert(mm.vmas@[i] == loaded[i]);
                assert(0 <= i < n && spec_segment_area(segs[t], file, mm.vmas@[i]));
            }
            assert forall|i: int| 0 <= i < n implies spec_is_area(segs, file, #[trigger] mm.vmas@[i]) by {
                let t = owner[i];
                assert(mm.vmas@[i] == loaded[i]);
                assert(0 <= t < n && spec_segment_area(segs[t], file, mm.vmas@[i]));
            }
            assert(mm.vmas@[n] == heaped[n]);
        }
        Ok(mm)
    }
}

} // verus!
