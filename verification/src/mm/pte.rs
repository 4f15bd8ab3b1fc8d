//! Page table entries of the three-level page table.
//!
//! An entry keeps its flags in the bits 0 to 7 and the number of the frame
//! that it points to, in three parts of nine bits, in the bits 10 to 36.
use vstd::prelude::*;

verus! {

/// The entry is in use.
pub const PTE_V: u8 = 1;

/// The page may be read.
pub const PTE_R: u8 = 2;

/// The page may be written.
pub const PTE_W: u8 = 4;

/// The page may be executed.
pub const PTE_X: u8 = 8;

/// The page may be reached from user mode.
pub const PTE_U: u8 = 16;

/// The mapping is global.
pub const PTE_G: u8 = 32;

/// The page has been accessed.
pub const PTE_A: u8 = 64;

/// The page has been written.
pub const PTE_D: u8 = 128;

/// A page table entry, taken apart.
#[derive(Clone, Copy, PartialEq, Eq, Structural)]
pub struct PTE {
    pub flags: u8,
    pub pnn0: u16,
    pub pnn1: u16,
    pub pnn2: u16,
}

/// Facts about the bits of an entry: the parts of any word fit their
/// fields; an entry put together and taken apart again is the same entry;
/// the address of a frame below `2^39` survives being stored in an entry;
/// and the address in an entry is that of a frame below `2^39`.
pub proof fn lemma_pte_bits(w: u64, f: u8, a: u16, b: u16, c: u16, p: u64)
    by (bit_vector)
    ensures
        (w & 0xff) < 256,
        ((w >> 10) & 0x1FF) < 512,
        ((w >> 19) & 0x1FF) < 512,
        ((w >> 28) & 0x1FF) < 512,
        a < 512 && b < 512 && c < 512 ==> ({
            let x = (f as u64) | ((a as u64) << 10) | ((b as u64) << 19) | ((c as u64) << 28);
            &&& (x & 0xff) as u8 == f
            &&& ((x >> 10) & 0x1FF) as u16 == a
            &&& ((x >> 19) & 0x1FF) as u16 == b
            &&& ((x >> 28) & 0x1FF) as u16 == c
        }),
        p & 0xfff == 0 && p < 0x80_0000_0000 ==> ({
            let np = p >> 12;
            ((((np & 0x1FF) as u16) as u64) | ((((np >> 9) & 0x1FF) as u16) as u64) << 9 | ((((np >> 18) & 0x1FF) as u16) as u64) << 18) << 12 == p
        }),
        ((p >> 12) & 0x1FF) < 512,
        (((p >> 12) >> 9) & 0x1FF) < 512,
        (((p >> 12) >> 18) & 0x1FF) < 512,
        a < 512 && b < 512 && c < 512 ==> ({
            let q = ((a as u64) | ((b as u64) << 9) | ((c as u64) << 18)) << 12;
            q & 0xfff == 0 && q < 0x80_0000_0000
        }),
        (p & 0xfff == 0) == (p % 4096 == 0),
{
}

/// Facts about the flags of an entry.
pub proof fn lemma_pte_flags(f: u8, m: u8)
    by (bit_vector)
    ensures
        (f | 1u8) & 1u8 != 0,
        (f | m) & 0xEu8 == 0 <==> (f & 0xEu8 == 0 && m & 0xEu8 == 0),
        (f & (1u8 ^ 0xFFu8)) & 1u8 == 0,
        (f & (1u8 ^ 0xFFu8)) & 0xEu8 == f & 0xEu8,
        (f & (0xEu8 ^ 0xFFu8)) & 0xEu8 == 0,
        (f & (0xEu8 ^ 0xFFu8)) & 1u8 == f & 1u8,
        0u8 | 1u8 == 1u8,
        1u8 & 1u8 != 0,
        1u8 & 0xEu8 == 0,
        0u8 & 1u8 == 0,
        0u8 & 0xEu8 == 0,
        0u8 | m == m,
        (f & m != 0) ==> ((f | 1u8) & m != 0),
        (f & 0xEu8 == 0) <==> (f & 2u8 == 0 && f & 4u8 == 0 && f & 8u8 == 0),
        ((f | 1u8) & 0xEu8) == (f & 0xEu8),
{
}

impl PTE {
    /// The entry that the word `v` stands for.
    pub open spec fn spec_from(v: u64) -> PTE {
        PTE {
            flags: (v & 0xff) as u8,
            pnn0: ((v >> 10) & 0x1FF) as u16,
            pnn1: ((v >> 19) & 0x1FF) as u16,
            pnn2: ((v >> 28) & 0x1FF) as u16,
        }
    }

    /// The word that stands for the entry.
    pub open spec fn spec_into(self) -> u64 {
        (self.flags as u64) | ((self.pnn0 as u64) << 10) | ((self.pnn1 as u64) << 19) | ((self.pnn2 as u64)
            << 28)
    }

    /// Each part of the frame number fits its nine bits.
    pub open spec fn wf(self) -> bool {
        self.pnn0 < 512 && self.pnn1 < 512 && self.pnn2 < 512
    }

    pub open spec fn spec_valid(self) -> bool {
        self.flags & 1u8 != 0
    }

    /// Whether the entry maps a page: it may be read, written or executed.
    pub open spec fn spec_is_leaf(self) -> bool {
        self.flags & 0xEu8 != 0
    }

    /// The physical address that the entry points to.
    pub open spec fn spec_point_paddr(self) -> u64 {
        ((self.pnn0 as u64) | ((self.pnn1 as u64) << 9) | ((self.pnn2 as u64) << 18)) << 12
    }

    /// The parts of the frame number of the physical address `paddr`.
    pub open spec fn spec_with_paddr(self, paddr: u64) -> PTE {
        PTE {
            flags: self.flags,
            pnn0: ((paddr >> 12) & 0x1FF) as u16,
            pnn1: (((paddr >> 12) >> 9) & 0x1FF) as u16,
            pnn2: (((paddr >> 12) >> 18) & 0x1FF) as u16,
        }
    }

    /// The entry with the given flags that points to `paddr`.
    pub open spec fn spec_new(paddr: u64, flags: u8) -> PTE {
        (PTE { flags, pnn0: 0, pnn1: 0, pnn2: 0 }).spec_with_paddr(paddr)
    }

    /// What the bits say of entries: a word taken apart is well-formed; a
    /// well-formed entry survives being stored; an entry made for a frame
    /// below `2^39` points to it.
    pub proof fn lemma_entry(w: u64, e: PTE, paddr: u64, flags: u8)
        ensures
            PTE::spec_from(w).wf(),
            e.wf() ==> PTE::spec_from(e.spec_into()) == e,
            e.wf() ==> e.spec_point_paddr() % 4096 == 0 && e.spec_point_paddr() < 0x80_0000_0000,
            PTE::spec_new(paddr, flags).wf(),
            PTE::spec_new(paddr, flags).flags == flags,
            paddr % 4096 == 0 && paddr < 0x80_0000_0000 ==> PTE::spec_new(paddr, flags).spec_point_paddr() == paddr,
            PTE::spec_from(0) == (PTE { flags: 0, pnn0: 0, pnn1: 0, pnn2: 0 }),
            !PTE::spec_from(0).spec_valid(),
            !PTE::spec_from(0).spec_is_leaf(),
    {
        lemma_pte_bits(w, e.flags, e.pnn0, e.pnn1, e.pnn2, paddr);
        lemma_pte_bits(w, e.flags, e.pnn0, e.pnn1, e.pnn2, e.spec_point_paddr());
        lemma_pte_bits(0, 0, 0, 0, 0, 0);
        lemma_pte_flags(0, 0);
        assert(PTE::spec_from(0) == (PTE { flags: 0, pnn0: 0, pnn1: 0, pnn2: 0 })) by {
            lemma_zero_parts();
        }
    }

    pub fn from(v: u64) -> (e: PTE)
        ensures
            e == PTE::spec_from(v),
            e.wf(),
    {
        proof {
            lemma_pte_bits(v, 0, 0, 0, 0, 0);
        }
        PTE {
            flags: (v & 0xff) as u8,
            pnn0: ((v >> 10) & 0x1FF) as u16,
            pnn1: ((v >> 19) & 0x1FF) as u16,
            pnn2: ((v >> 28) & 0x1FF) as u16,
        }
    }

    pub fn into(self) -> (v: u64)
        ensures
            v == self.spec_into(),
    {
        (self.flags as u64) | ((self.pnn0 as u64) << 10) | ((self.pnn1 as u64) << 19) | ((self.pnn2 as u64) << 28)
    }

    /// Sets the flags of `flag_mask`.
    pub fn set_flags(&mut self, flag_mask: u8)
        ensures
            *final(self) == (PTE { flags: old(self).flags | flag_mask, ..*old(self) }),
    {
        self.flags |= flag_mask;
    }

    /// Clears the flags of `flag_mask`.
    pub fn clear_flags(&mut self, flag_mask: u8)
        ensures
            *final(self) == (PTE { flags: old(self).flags & (flag_mask ^ 0xFFu8), ..*old(self) }),
    {
        let n_mask = flag_mask ^ 0xFF;
        self.flags &= n_mask;
    }

    pub fn clear_all_flags(&mut self)
        ensures
            *final(self) == (PTE { flags: 0, ..*old(self) }),
    {
        self.flags = 0;
    }

    fn _get_bits(&self, flag_mask: u8) -> (b: bool)
        ensures
            b == (self.flags & flag_mask != 0),
    {
        return self.flags & flag_mask != 0;
    }

    /// Whether the entry is in use.
    pub fn vaild(&self) -> (b: bool)
        ensures
            b == self.spec_valid(),
    {
        return self._get_bits(PTE_V);
    }

    /// Whether the entry maps a page.
    pub fn is_leaf(&self) -> (b: bool)
        ensures
            b == self.spec_is_leaf(),
    {
        proof {
            lemma_pte_flags(self.flags, 0);
        }
        return !((self._get_bits(PTE_R) == false) && (self._get_bits(PTE_W) == false) && (self._get_bits(PTE_X)
            == false));
    }

    pub fn is_not_leaf(&self) -> (b: bool)
        ensures
            b == !self.spec_is_leaf(),
    {
        return !self.is_leaf();
    }

    /// Makes the entry point to the frame at the physical address `paddr`.
    pub fn set_ppn_by_paddr(&mut self, paddr: u64)
        ensures
            *final(self) == old(self).spec_with_paddr(paddr),
            final(self).wf(),
    {
        proof {
            lemma_pte_bits(0, 0, 0, 0, 0, paddr);
        }
        let np = paddr >> 12;
        self.pnn0 = (np & 0x1FF) as u16;
        self.pnn1 = ((np >> 9) & 0x1FF) as u16;
        self.pnn2 = ((np >> 18) & 0x1FF) as u16;
    }

    /// The physical address that the entry points to.
    pub fn get_point_paddr(&self) -> (paddr: u64)
        ensures
            paddr == self.spec_point_paddr(),
    {
        return ((self.pnn0 as u64) | ((self.pnn1 as u64) << 9) | ((self.pnn2 as u64) << 18)) << 12;
    }
}

impl Default for PTE {
    /// The empty entry.
    fn default() -> (e: Self)
        ensures
            e == (PTE { flags: 0, pnn0: 0, pnn1: 0, pnn2: 0 }),
    {
        PTE { flags: 0, pnn0: 0, pnn1: 0, pnn2: 0 }
    }
}

proof fn lemma_zero_parts()
    by (bit_vector)
    ensures
        (0u64 & 0xff) as u8 == 0u8,
        ((0u64 >> 10) & 0x1FF) as u16 == 0u16,
        ((0u64 >> 19) & 0x1FF) as u16 == 0u16,
        ((0u64 >> 28) & 0x1FF) as u16 == 0u16,
{
}

} // verus!
