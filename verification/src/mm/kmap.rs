//! Temporary mappings of the kernel: an area in the region for them that
//! lives as long as its token.
use vstd::prelude::*;
use crate::consts::{KMAP_END, KMAP_START};
use crate::mm::addr::Vaddr;
use crate::mm::mm::{spec_is_new_vma, spec_search, MmStruct};
use crate::mm::vma::{VmFlags, VMA};

verus! {

/// What stands for a temporary mapping of the kernel: where it lies, and
/// what the machine was like when it was made, to be restored when it goes:
/// the page table that was installed and the level of interrupts.
pub struct KmapToken {
    vaddr: Vaddr,
    is_anon: bool,
    len: u64,
    satp_val: usize,
    irq_level: usize,
}

impl KmapToken {
    pub closed spec fn spec_vaddr(&self) -> Vaddr {
        self.vaddr
    }

    pub closed spec fn spec_len(&self) -> u64 {
        self.len
    }

    pub closed spec fn spec_is_anon(&self) -> bool {
        self.is_anon
    }

    pub closed spec fn spec_satp_val(&self) -> usize {
        self.satp_val
    }

    pub closed spec fn spec_irq_level(&self) -> usize {
        self.irq_level
    }

    /// Whether the token `token` stands for the area `vma`, which has been
    /// put among the areas `before` and gives `after`.
    pub open spec fn spec_stands_for(
        token: KmapToken,
        vma: VMA,
        before: Seq<VMA>,
        after: Seq<VMA>,
        satp_val: usize,
        irq_level: usize,
    ) -> bool {
        &&& token.spec_vaddr() == vma.start_vaddr
        &&& token.spec_len() == vma.end_vaddr.0 - vma.start_vaddr.0
        &&& token.spec_satp_val() == satp_val
        &&& token.spec_irq_level() == irq_level
        &&& exists|at: int| 0 <= at <= before.len() && after == #[trigger] before.insert(at, vma)
    }

    /// Maps `len` bytes of anonymous memory for the kernel, at the lowest
    /// place of the region for temporary mappings that fits, and returns the
    /// token for it. Fails, changing nothing, where no place fits.
    pub fn new_anon(kernel_mm: &mut MmStruct, len: u64, satp_val: usize, irq_level: usize) -> (r: Option<Self>)
        requires
            old(kernel_mm).wf_layout(),
        ensures
            final(kernel_mm).wf_layout(),
            old(kernel_mm).spec_same_but_vmas(final(kernel_mm)),
            r is None ==> final(kernel_mm).spec_vmas() == old(kernel_mm).spec_vmas(),
            r is None <==> !exists|found: VMA| #[trigger]
                spec_search(old(kernel_mm).spec_vmas(), None, len as int, true, KMAP_START as int, KMAP_END as int, Some(found)),
            r matches Some(token) ==> token.spec_is_anon() && exists|vma: VMA|
                spec_search(
                    old(kernel_mm).spec_vmas(),
                    None,
                    len as int,
                    true,
                    KMAP_START as int,
                    KMAP_END as int,
                    Some(vma),
                ) && spec_is_new_vma(vma, VmFlags { bits: 39 }, None, 0, 0) && #[trigger] Self::spec_stands_for(
                    token,
                    vma,
                    old(kernel_mm).spec_vmas(),
                    final(kernel_mm).spec_vmas(),
                    satp_val,
                    irq_level,
                ),
    {
        match kernel_mm.alloc_kmap_anon(len) {
            None => {
                proof {
                    assert forall|found: VMA|
                        !#[trigger] spec_search(
                            old(kernel_mm).spec_vmas(),
                            None,
                            len as int,
                            true,
                            KMAP_START as int,
                            KMAP_END as int,
                            Some(found),
                        ) by {
                    }
                }
                None
            },
            Some(vma) => {
                let s_a = vma.get_start_vaddr();
                let e_a = vma.get_end_vaddr();
                let ghost before = kernel_mm.spec_vmas();
                proof {
                    MmStruct::lemma_search_free(
                        before,
                        None,
                        len as int,
                        true,
                        KMAP_START as int,
                        KMAP_END as int,
                        vma,
                    );
                }
                let len = e_a.0 - s_a.0;
                // do insert vma
                kernel_mm._insert_no_check(vma);
                let r = Self { vaddr: s_a, is_anon: true, len, satp_val, irq_level };
                proof {
                    let at = choose|at: int|
                        0 <= at <= before.len() && #[trigger] kernel_mm.spec_vmas() == before.insert(at, vma);
                    assert(kernel_mm.spec_vmas() == before.insert(at, vma));
                    assert(Self::spec_stands_for(r, vma, before, kernel_mm.spec_vmas(), satp_val, irq_level));
                }
                Some(r)
            },
        }
    }

    /// Maps `len` bytes of the file `file` from `file_off` on for the
    /// kernel, at the lowest place of the region for temporary mappings that
    /// fits, and returns the token for it. Fails, changing nothing, where no
    /// place fits.
    pub fn new_file(
        kernel_mm: &mut MmStruct,
        len: u64,
        file: u64,
        file_off: u64,
        file_len: u64,
        satp_val: usize,
        irq_level: usize,
    ) -> (r: Option<Self>)
        requires
            old(kernel_mm).wf_layout(),
            file_len <= len,
        ensures
            final(kernel_mm).wf_layout(),
            old(kernel_mm).spec_same_but_vmas(final(kernel_mm)),
            r is None ==> final(kernel_mm).spec_vmas() == old(kernel_mm).spec_vmas(),
            r is None <==> !exists|found: VMA| #[trigger]
                spec_search(old(kernel_mm).spec_vmas(), None, len as int, true, KMAP_START as int, KMAP_END as int, Some(found)),
            r matches Some(token) ==> !token.spec_is_anon() && exists|vma: VMA|
                spec_search(
                    old(kernel_mm).spec_vmas(),
                    None,
                    len as int,
                    true,
                    KMAP_START as int,
                    KMAP_END as int,
                    Some(vma),
                ) && spec_is_new_vma(vma, VmFlags { bits: 7 }, Some(file), file_off, file_len)
                    && #[trigger] Self::spec_stands_for(
                    token,
                    vma,
                    old(kernel_mm).spec_vmas(),
                    final(kernel_mm).spec_vmas(),
                    satp_val,
                    irq_level,
                ),
    {
        match kernel_mm.alloc_kmap_file(len, file, file_off, file_len) {
            None => {
                proof {
                    assert forall|found: VMA|
                        !#[trigger] spec_search(
                            old(kernel_mm).spec_vmas(),
                            None,
                            len as int,
                            true,
                            KMAP_START as int,
                            KMAP_END as int,
                            Some(found),
                        ) by {
                    }
                }
                None
            },
            Some(vma) => {
                let s_a = vma.get_start_vaddr();
                let e_a = vma.get_end_vaddr();
                let ghost before = kernel_mm.spec_vmas();
                proof {
                    MmStruct::lemma_search_free(
                        before,
                        None,
                        len as int,
                        true,
                        KMAP_START as int,
                        KMAP_END as int,
                        vma,
                    );
                }
                let len = e_a.0 - s_a.0;
                // do insert vma
                kernel_mm._insert_no_check(vma);
                let r = Self { vaddr: s_a, is_anon: false, len, satp_val, irq_level };
                proof {
                    let at = choose|at: int|
                        0 <= at <= before.len() && #[trigger] kernel_mm.spec_vmas() == before.insert(at, vma);
                    assert(kernel_mm.spec_vmas() == before.insert(at, vma));
                    assert(Self::spec_stands_for(r, vma, before, kernel_mm.spec_vmas(), satp_val, irq_level));
                }
                Some(r)
            },
        }
    }

    /// Where the mapping starts.
    pub fn get_vaddr(&self) -> (v: Vaddr)
        ensures
            v == self.spec_vaddr(),
    {
        self.vaddr
    }

    /// How many bytes the mapping has.
    pub fn get_len(&self) -> (len: u64)
        ensures
            len == self.spec_len(),
    {
        self.len
    }

    /// The page table that was installed when the mapping was made.
    pub fn get_satp_val(&self) -> (v: usize)
        ensures
            v == self.spec_satp_val(),
    {
        self.satp_val
    }

    /// The level of interrupts when the mapping was made.
    pub fn get_irq_level(&self) -> (v: usize)
        ensures
            v == self.spec_irq_level(),
    {
        self.irq_level
    }

    /// Takes the area of the mapping out of the address space of the
    /// kernel and returns it, if it is there.
    pub fn release(self, kernel_mm: &mut MmStruct) -> (r: Option<VMA>)
        requires
            old(kernel_mm).wf_layout(),
        ensures
            final(kernel_mm).wf_layout(),
            old(kernel_mm).spec_same_but_vmas(final(kernel_mm)),
            r is Some <==> exists|i: int|
                0 <= i < old(kernel_mm).spec_vmas().len() && (#[trigger] old(kernel_mm).spec_vmas()[i]).start_vaddr
                    == self.spec_vaddr(),
            r is None ==> final(kernel_mm).spec_vmas() == old(kernel_mm).spec_vmas(),
            r matches Some(vma) ==> vma.start_vaddr == self.spec_vaddr() && exists|i: int|
                0 <= i < old(kernel_mm).spec_vmas().len() && #[trigger] old(kernel_mm).spec_vmas()[i] == vma && final(kernel_mm).spec_vmas() == old(kernel_mm).spec_vmas().remove(i),
    {
        kernel_mm.drop_vma(self.vaddr)
    }
}

} // verus!
