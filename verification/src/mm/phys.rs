//! The window of physical memory that the kernel manages, addressed through
//! the direct map. All reads and writes of frames go through it.
use vstd::prelude::*;
use vstd::bytes::{
    lemma_auto_spec_u64_to_from_le_bytes, spec_u64_from_le_bytes, spec_u64_to_le_bytes, u64_from_le_bytes,
    u64_to_le_bytes,
};
use vstd::slice::slice_subrange;
use crate::consts::PAGE_SIZE;
use crate::mm::addr::Vaddr;

verus! {

/// The 64-bit word that the eight bytes from `off` hold, lowest byte first.
pub open spec fn spec_word_at(bytes: Seq<u8>, off: int) -> u64 {
    spec_u64_from_le_bytes(bytes.subrange(off, off + 8))
}

/// The bytes `bytes` with those from `off` replaced by `data`.
pub open spec fn spec_store_bytes(bytes: Seq<u8>, off: int, data: Seq<u8>) -> Seq<u8> {
    Seq::new(
        bytes.len(),
        |i: int|
            if off <= i < off + data.len() {
                data[i - off]
            } else {
                bytes[i]
            },
    )
}

/// The bytes `bytes` with the eight from `off` replaced by the word `val`,
/// lowest byte first.
pub open spec fn spec_store_word(bytes: Seq<u8>, off: int, val: u64) -> Seq<u8> {
    spec_store_bytes(bytes, off, spec_u64_to_le_bytes(val))
}

/// A word that has been stored is read back, and a word is read alike from
/// two memories that agree on its eight bytes.
pub proof fn lemma_store_word(bytes: Seq<u8>, off: int, val: u64)
    requires
        0 <= off,
        off + 8 <= bytes.len(),
    ensures
        spec_word_at(spec_store_word(bytes, off, val), off) == val,
        spec_store_word(bytes, off, val).len() == bytes.len(),
        forall|i: int| 0 <= i < bytes.len() && !(off <= i < off + 8) ==> spec_store_word(bytes, off, val)[i] == bytes[i],
{
    lemma_auto_spec_u64_to_from_le_bytes();
    let le = spec_u64_to_le_bytes(val);
    assert(spec_store_word(bytes, off, val).subrange(off, off + 8) =~= le);
}

pub proof fn lemma_word_frame(a: Seq<u8>, b: Seq<u8>, off: int)
    requires
        0 <= off,
        off + 8 <= a.len(),
        off + 8 <= b.len(),
        forall|i: int| off <= i < off + 8 ==> a[i] == b[i],
    ensures
        spec_word_at(a, off) == spec_word_at(b, off),
{
    assert(a.subrange(off, off + 8) =~= b.subrange(off, off + 8));
}

/// A window of memory: `len()` bytes from the address `spec_start()`.
pub struct PhysMemory {
    start: Vaddr,
    data: Vec<u8>,
}

impl View for PhysMemory {
    type V = Seq<u8>;

    /// The bytes of the window, the first at the start address.
    closed spec fn view(&self) -> Seq<u8> {
        self.data@
    }
}

impl PhysMemory {
    /// The address of the first byte.
    pub closed spec fn spec_start(&self) -> int {
        self.start.0 as int
    }

    /// The window ends below the highest address.
    pub closed spec fn wf(&self) -> bool {
        self.start.0 + self.data@.len() <= u64::MAX
    }

    /// Whether the `len` bytes from `addr` lie within the window.
    pub open spec fn spec_contains(&self, addr: int, len: int) -> bool {
        self.spec_start() <= addr && 0 <= len && addr + len <= self.spec_start() + self@.len()
    }

    /// The byte at `addr`.
    pub open spec fn spec_byte(&self, addr: int) -> u8 {
        self@[addr - self.spec_start()]
    }

    /// The word at `addr`.
    pub open spec fn spec_word(&self, addr: int) -> u64 {
        spec_word_at(self@, addr - self.spec_start())
    }

    /// Whether `other` is the same window and holds the same bytes but for
    /// the `len` bytes from `addr`.
    pub open spec fn same_but(&self, other: &PhysMemory, addr: int, len: int) -> bool {
        &&& other.spec_start() == self.spec_start()
        &&& other@.len() == self@.len()
        &&& forall|a: int|
            self.spec_contains(a, 1) && !(addr <= a < addr + len) ==> #[trigger] other.spec_byte(a)
                == self.spec_byte(a)
    }

    /// A window of `len` zero bytes from `start`.
    pub fn new(start: Vaddr, len: usize) -> (m: PhysMemory)
        requires
            start.0 + len <= u64::MAX,
        ensures
            m.wf(),
            m.spec_start() == start.0,
            m@.len() == len,
            forall|i: int| 0 <= i < len ==> m@[i] == 0,
    {
        let mut data: Vec<u8> = Vec::new();
        data.resize(len, 0u8);
        PhysMemory { start, data }
    }

    fn offset_of(&self, addr: Vaddr) -> (off: usize)
        requires
            self.spec_contains(addr.0 as int, 0),
        ensures
            off == addr.0 - self.start.0,
            self.data@.len() <= usize::MAX,
    {
        let n = self.data.len();
        (addr.0 - self.start.0) as usize
    }

    pub fn get_start(&self) -> (s: Vaddr)
        ensures
            s.0 == self.spec_start(),
    {
        self.start
    }

    /// Number of bytes in the window.
    pub fn len(&self) -> (l: usize)
        ensures
            l == self@.len(),
    {
        self.data.len()
    }

    /// Whether the `len` bytes from `addr` lie within the window.
    pub fn contains(&self, addr: Vaddr, len: usize) -> (b: bool)
        requires
            self.wf(),
        ensures
            b == self.spec_contains(addr.0 as int, len as int),
    {
        addr.0 >= self.start.0 && addr.0 - self.start.0 <= self.data.len() as u64 && len as u64
            <= self.data.len() as u64 - (addr.0 - self.start.0)
    }

    pub fn read_u8(&self, addr: Vaddr) -> (b: u8)
        requires
            self.spec_contains(addr.0 as int, 1),
        ensures
            b == self.spec_byte(addr.0 as int),
    {
        self.data[self.offset_of(addr)]
    }

    pub fn write_u8(&mut self, addr: Vaddr, val: u8)
        requires
            old(self).spec_contains(addr.0 as int, 1),
        ensures
            final(self).wf() == old(self).wf(),
            final(self).spec_start() == old(self).spec_start(),
            final(self)@ == old(self)@.update(addr.0 - old(self).spec_start(), val),
    {
        let off = self.offset_of(addr);
        self.data[off] = val;
    }

    /// Reads the word at `addr`.
    pub fn read_u64(&self, addr: Vaddr) -> (w: u64)
        requires
            self.spec_contains(addr.0 as int, 8),
        ensures
            w == self.spec_word(addr.0 as int),
    {
        let off = self.offset_of(addr);
        u64_from_le_bytes(slice_subrange(self.data.as_slice(), off, off + 8))
    }

    /// Writes the word `val` at `addr`.
    pub fn write_u64(&mut self, addr: Vaddr, val: u64)
        requires
            old(self).spec_contains(addr.0 as int, 8),
        ensures
            final(self).wf() == old(self).wf(),
            final(self).spec_start() == old(self).spec_start(),
            final(self)@ == spec_store_word(old(self)@, addr.0 - old(self).spec_start(), val),
            final(self).spec_word(addr.0 as int) == val,
            old(self).same_but(final(self), addr.0 as int, 8),
    {
        let off = self.offset_of(addr);
        let le = u64_to_le_bytes(val);
        let ghost before = self.data@;
        let mut i: usize = 0;
        while i < 8
            invariant
                i <= 8,
                le@.len() == 8,
                off + 8 <= self.data@.len(),
                self.data@.len() == before.len(),
                self.data@.len() <= usize::MAX,
                self.start == old(self).start,
                forall|j: int| 0 <= j < before.len() ==> self.data@[j] == if off <= j < off + i {
                    le@[j - off]
                } else {
                    before[j]
                },
            decreases 8 - i,
        {
            self.data[off + i] = le[i];
            i += 1;
        }
        proof {
            assert(self.data@ =~= spec_store_word(before, off as int, val));
            lemma_store_word(before, off as int, val);
        }
    }

    /// Reads the `len` bytes from `addr`.
    pub fn read_bytes(&self, addr: Vaddr, len: usize) -> (buf: Vec<u8>)
        requires
            self.spec_contains(addr.0 as int, len as int),
        ensures
            buf@ == self@.subrange(addr.0 - self.spec_start(), addr.0 - self.spec_start() + len),
    {
        let off = self.offset_of(addr);
        let mut buf: Vec<u8> = Vec::new();
        let mut i: usize = 0;
        while i < len
            invariant
                i <= len,
                off + len <= self.data@.len(),
                self.data@.len() <= usize::MAX,
                buf@ == self.data@.subrange(off as int, off + i),
            decreases len - i,
        {
            buf.push(self.data[off + i]);
            i += 1;
            proof {
                assert(buf@ =~= self.data@.subrange(off as int, off + i));
            }
        }
        buf
    }

    /// Writes the bytes of `buf` from `addr` on.
    pub fn write_bytes(&mut self, addr: Vaddr, buf: &Vec<u8>)
        requires
            old(self).spec_contains(addr.0 as int, buf@.len() as int),
        ensures
            final(self).wf() == old(self).wf(),
            final(self).spec_start() == old(self).spec_start(),
            final(self)@ == spec_store_bytes(old(self)@, addr.0 - old(self).spec_start(), buf@),
            old(self).same_but(final(self), addr.0 as int, buf@.len() as int),
    {
        let off = self.offset_of(addr);
        let ghost before = self.data@;
        let mut i: usize = 0;
        while i < buf.len()
            invariant
                i <= buf@.len(),
                off + buf@.len() <= self.data@.len(),
                self.data@.len() == before.len(),
                self.data@.len() <= usize::MAX,
                self.start == old(self).start,
                forall|j: int| 0 <= j < before.len() ==> self.data@[j] == if off <= j < off + i {
                    buf@[j - off]
                } else {
                    before[j]
                },
            decreases buf@.len() - i,
        {
            self.data[off + i] = buf[i];
            i += 1;
        }
        proof {
            assert(self.data@ =~= spec_store_bytes(before, off as int, buf@));
        }
    }

    /// Fills the page at `addr` with zeros.
    pub fn clear_page(&mut self, addr: Vaddr)
        requires
            old(self).spec_contains(addr.0 as int, 4096),
        ensures
            final(self).wf() == old(self).wf(),
            final(self).spec_start() == old(self).spec_start(),
            old(self).same_but(final(self), addr.0 as int, 4096),
            forall|a: int| addr.0 <= a < addr.0 + 4096 ==> #[trigger] final(self).spec_byte(a) == 0,
    {
        let off = self.offset_of(addr);
        let ghost before = self.data@;
        let mut i: usize = 0;
        while i < PAGE_SIZE
            invariant
                i <= 4096,
                off + 4096 <= self.data@.len(),
                self.data@.len() == before.len(),
                self.data@.len() <= usize::MAX,
                self.start == old(self).start,
                forall|j: int| 0 <= j < before.len() ==> self.data@[j] == if off <= j < off + i {
                    0u8
                } else {
                    before[j]
                },
            decreases 4096 - i,
        {
            self.data[off + i] = 0;
            i += 1;
        }
    }

    /// Copies the page at `src` over the page at `dst`.
    pub fn copy_page(&mut self, dst: Vaddr, src: Vaddr)
        requires
            old(self).spec_contains(dst.0 as int, 4096),
            old(self).spec_contains(src.0 as int, 4096),
            dst.0 + 4096 <= src.0 || src.0 + 4096 <= dst.0,
        ensures
            final(self).wf() == old(self).wf(),
            final(self).spec_start() == old(self).spec_start(),
            old(self).same_but(final(self), dst.0 as int, 4096),
            forall|i: int| 0 <= i < 4096 ==> #[trigger] final(self).spec_byte(dst.0 + i) == old(self).spec_byte(
                src.0 + i,
            ),
    {
        let doff = self.offset_of(dst);
        let soff = self.offset_of(src);
        let ghost before = self.data@;
        let mut i: usize = 0;
        while i < PAGE_SIZE
            invariant
                i <= 4096,
                doff + 4096 <= self.data@.len(),
                soff + 4096 <= self.data@.len(),
                doff + 4096 <= soff || soff + 4096 <= doff,
                self.data@.len() == before.len(),
                self.data@.len() <= usize::MAX,
                self.start == old(self).start,
                forall|j: int| 0 <= j < before.len() ==> self.data@[j] == if doff <= j < doff + i {
                    before[j - doff + soff]
                } else {
                    before[j]
                },
            decreases 4096 - i,
        {
            let b = self.data[soff + i];
            self.data[doff + i] = b;
            i += 1;
        }
        proof {
            assert forall|i: int| 0 <= i < 4096 implies #[trigger] self.spec_byte(dst.0 + i) == old(self).spec_byte(
                src.0 + i,
            ) by {
                assert(self.data@[doff + i] == before[soff + i]);
            }
        }
    }

    /// A word is read alike from two windows that agree on its bytes.
    pub proof fn lemma_word_same(&self, other: &PhysMemory, addr: int)
        requires
            self.spec_start() == other.spec_start(),
            self.spec_contains(addr, 8),
            other.spec_contains(addr, 8),
            forall|a: int| addr <= a < addr + 8 ==> #[trigger] self.spec_byte(a) == other.spec_byte(a),
        ensures
            self.spec_word(addr) == other.spec_word(addr),
    {
        let off = addr - self.spec_start();
        assert forall|i: int| off <= i < off + 8 implies self@[i] == other@[i] by {
            assert(self.spec_byte(i + self.spec_start()) == other.spec_byte(i + self.spec_start()));
        }
        lemma_word_frame(self@, other@, off);
    }

    /// A word holds what another word holds, in this window or in another,
    /// where their bytes agree one by one.
    pub proof fn lemma_word_copy(&self, addr: int, other: &PhysMemory, from: int)
        requires
            self.spec_contains(addr, 8),
            other.spec_contains(from, 8),
            forall|j: int| 0 <= j < 8 ==> #[trigger] self.spec_byte(addr + j) == other.spec_byte(from + j),
        ensures
            self.spec_word(addr) == other.spec_word(from),
    {
        let off_d = addr - self.spec_start();
        let off_s = from - other.spec_start();
        let d = self@.subrange(off_d, off_d + 8);
        let s = other@.subrange(off_s, off_s + 8);
        assert forall|j: int| 0 <= j < 8 implies d[j] == s[j] by {
            assert(self.spec_byte(addr + j) == other.spec_byte(from + j));
        }
        assert(d =~= s);
    }

    /// A word of zero bytes is zero.
    pub proof fn lemma_zero_word(&self, addr: int)
        requires
            self.spec_contains(addr, 8),
            forall|a: int| addr <= a < addr + 8 ==> #[trigger] self.spec_byte(a) == 0,
        ensures
            self.spec_word(addr) == 0,
    {
        lemma_auto_spec_u64_to_from_le_bytes();
        let off = addr - self.spec_start();
        let s = self@.subrange(off, off + 8);
        let z = spec_u64_to_le_bytes(0u64);
        vstd::bytes::spec_u64_to_le_bytes_to_open(0u64);
        assert(z == vstd::bytes::spec_u64_to_le_bytes_open(0u64));
        assert forall|i: int| 0 <= i < 8 implies s[i] == z[i] by {
            assert(self.spec_byte(off + i + self.spec_start()) == 0);
            lemma_zero_bytes();
        }
        assert(s =~= z);
    }
}

proof fn lemma_zero_bytes()
    ensures
        (0u64 & 0xff) as u8 == 0,
        ((0u64 >> 8) & 0xff) as u8 == 0,
        ((0u64 >> 16) & 0xff) as u8 == 0,
        ((0u64 >> 24) & 0xff) as u8 == 0,
        ((0u64 >> 32) & 0xff) as u8 == 0,
        ((0u64 >> 40) & 0xff) as u8 == 0,
        ((0u64 >> 48) & 0xff) as u8 == 0,
        ((0u64 >> 56) & 0xff) as u8 == 0,
{
    assert((0u64 & 0xff) as u8 == 0 && ((0u64 >> 8) & 0xff) as u8 == 0 && ((0u64 >> 16) & 0xff) as u8 == 0 && ((0u64
        >> 24) & 0xff) as u8 == 0 && ((0u64 >> 32) & 0xff) as u8 == 0 && ((0u64 >> 40) & 0xff) as u8 == 0 && ((
    0u64 >> 48) & 0xff) as u8 == 0 && ((0u64 >> 56) & 0xff) as u8 == 0) by (bit_vector);
}

} // verus!
