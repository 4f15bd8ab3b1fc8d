//! A growable bitmap stored in 64-bit words.
use vstd::prelude::*;

verus! {

/// Whether bit `i` of the word `w` is set.
pub open spec fn word_bit(w: u64, i: u64) -> bool {
    (w >> i) & 1 == 1
}

proof fn lemma_word_bits(w: u64, i: u64, j: u64)
    by (bit_vector)
    requires
        i < 64,
        j < 64,
    ensures
        word_bit(w | (1u64 << i), j) == (j == i || word_bit(w, j)),
        word_bit(w & !(1u64 << i), j) == (j != i && word_bit(w, j)),
        (w & (1u64 << i) != 0) == word_bit(w, i),
        w & (1u64 << i) == 0 ==> w + (1u64 << i) == w | (1u64 << i),
        !word_bit(0u64, j),
{
}

/// The capacity that doubling reaches from `cap` until it exceeds `pos`.
pub open spec fn spec_expanded_cap(cap: int, pos: int) -> int
    decreases (if pos >= cap { pos + 1 - cap } else { 0 }),
{
    if cap <= 0 || pos < cap {
        cap
    } else {
        spec_expanded_cap(2 * cap, pos)
    }
}

/// Doubling from a capacity that `pos` has reached stops below `2 * pos + 1`.
pub proof fn lemma_expanded_cap_bound(cap: int, pos: int)
    requires
        0 < cap <= pos,
    ensures
        pos < spec_expanded_cap(cap, pos) <= 2 * pos,
        cap % 64 == 0 ==> spec_expanded_cap(cap, pos) % 64 == 0,
    decreases pos + 1 - cap,
{
    reveal_with_fuel(spec_expanded_cap, 3);
    if 2 * cap <= pos {
        lemma_expanded_cap_bound(2 * cap, pos);
    }
}

/// The bits `bits`, followed by cleared bits up to the length `cap`.
pub open spec fn spec_padded(bits: Seq<bool>, cap: int) -> Seq<bool> {
    Seq::new(
        if cap >= bits.len() { cap as nat } else { bits.len() },
        |i: int| if i < bits.len() { bits[i] } else { false },
    )
}

/// A bitmap of `cap()` bits, which doubles its capacity when a position at
/// or behind its end is touched, and which remembers the highest position
/// touched as its length.
pub struct Bitmap {
    inner: Vec<u64>,
    _len: usize,
}

impl View for Bitmap {
    type V = Seq<bool>;

    /// The bits, one entry for each position below the capacity.
    closed spec fn view(&self) -> Seq<bool> {
        Seq::new(
            (self.inner@.len() * 64) as nat,
            |i: int| word_bit(self.inner@[i / 64], (i % 64) as u64),
        )
    }
}

impl Bitmap {
    /// The recorded length: the highest position touched so far, or the length
    /// that `init` was given.
    pub closed spec fn spec_len(&self) -> int {
        self._len as int
    }

    /// The capacity in bits.
    pub open spec fn spec_cap(&self) -> int {
        self@.len() as int
    }

    /// The bit at `pos`; positions at or behind the capacity read as cleared.
    pub open spec fn bit(&self, pos: int) -> bool {
        0 <= pos < self@.len() && self@[pos]
    }

    /// The capacity is a whole number of words that fits the machine.
    pub closed spec fn wf(&self) -> bool {
        self.inner@.len() * 64 <= usize::MAX
    }

    pub proof fn lemma_cap_words(&self)
        ensures
            self.spec_cap() % 64 == 0,
            self.wf() ==> self.spec_cap() <= usize::MAX,
    {
    }

    /// An empty bitmap without capacity.
    pub fn default() -> (b: Bitmap)
        ensures
            b@ == Seq::<bool>::empty(),
            b.spec_len() == 0,
            b.wf(),
    {
        Bitmap { inner: Vec::new(), _len: 0 }
    }

    /// Sets the capacity to `len` rounded up to whole words, keeping the bits
    /// below it and clearing the new ones, and records `len` as the length.
    pub fn init(&mut self, len: usize)
        requires
            len <= usize::MAX - 64,
        ensures
            final(self).wf(),
            final(self).spec_len() == len,
            final(self).spec_cap() == (len + 63) / 64 * 64,
            forall|i: int| 0 <= i < final(self).spec_cap() ==> final(self)@[i] == old(self).bit(i),
    {
        let mut cnt = len / 64;
        if len % 64 != 0 {
            cnt += 1;
        }
        let ghost before = self.inner@;
        self.inner.resize(cnt, 0u64);
        self._len = len;
        proof {
            assert forall|i: int| 0 <= i < self.spec_cap() implies self@[i] == old(self).bit(i) by {
                let w = i / 64;
                if w < before.len() {
                    if cnt <= before.len() {
                        assert(self.inner@[w] == before.subrange(0, cnt as int)[w]);
                    } else {
                        assert(self.inner@.subrange(0, before.len() as int)[w] == before[w]);
                    }
                } else {
                    assert(self.inner@[w] == 0u64);
                    lemma_word_bits(0, 0, (i % 64) as u64);
                }
            }
        }
    }

    /// A cleared bitmap of `len` bits, rounded up to whole words.
    pub fn new(len: usize) -> (b: Bitmap)
        requires
            len <= usize::MAX - 64,
        ensures
            b.wf(),
            b.spec_len() == len,
            b.spec_cap() == (len + 63) / 64 * 64,
            forall|i: int| !b.bit(i),
    {
        let mut s = Self::default();
        let ghost before = s;
        s.init(len);
        proof {
            assert forall|i: int| !s.bit(i) by {
                if 0 <= i < s.spec_cap() {
                    assert(!before.bit(i));
                }
            }
        }
        s
    }

    fn _expand_cap_to_bytes(&mut self, new_bytes_len: usize)
        requires
            new_bytes_len >= old(self).inner@.len(),
            new_bytes_len * 64 <= usize::MAX,
        ensures
            final(self).wf(),
            final(self)._len == old(self)._len,
            final(self)@ == spec_padded(old(self)@, new_bytes_len * 64),
    {
        let ghost before = self.inner@;
        self.inner.resize(new_bytes_len, 0u64);
        proof {
            assert(self.inner@.len() == new_bytes_len) by {
                if new_bytes_len == before.len() {
                    assert(self.inner@ == before.subrange(0, new_bytes_len as int));
                }
            }
            assert forall|i: int| 0 <= i < self@.len() implies self@[i] == spec_padded(
                old(self)@,
                new_bytes_len * 64,
            )[i] by {
                let w = i / 64;
                if w < before.len() {
                    if new_bytes_len == before.len() {
                        assert(self.inner@[w] == before.subrange(0, new_bytes_len as int)[w]);
                    } else {
                        assert(self.inner@.subrange(0, before.len() as int)[w] == before[w]);
                    }
                } else {
                    assert(self.inner@[w] == 0u64);
                    lemma_word_bits(0, 0, (i % 64) as u64);
                }
            }
            assert(self@ =~= spec_padded(old(self)@, new_bytes_len * 64));
        }
    }

    fn _expand_cap_double(&mut self)
        requires
            old(self).spec_cap() * 2 <= usize::MAX,
        ensures
            final(self).wf(),
            final(self)._len == old(self)._len,
            final(self)@ == spec_padded(old(self)@, 2 * old(self).spec_cap()),
    {
        let new_len = self.inner.len() * 2;
        self._expand_cap_to_bytes(new_len);
    }

    /// Doubles the capacity until it exceeds `target_pos`.
    pub fn expand_cap_for(&mut self, target_pos: usize)
        requires
            old(self).spec_cap() > 0,
            target_pos <= usize::MAX / 2,
            old(self).wf(),
        ensures
            final(self).wf(),
            final(self).spec_len() == old(self).spec_len(),
            final(self)@ == spec_padded(old(self)@, spec_expanded_cap(old(self).spec_cap(), target_pos as int)),
            final(self).spec_cap() == spec_expanded_cap(old(self).spec_cap(), target_pos as int),
            final(self).spec_cap() > target_pos,
    {
        while target_pos >= self.cap()
            invariant
                self.wf(),
                self.spec_cap() > 0,
                target_pos <= usize::MAX / 2,
                self._len == old(self)._len,
                self.spec_cap() >= old(self).spec_cap(),
                self@ == spec_padded(old(self)@, self.spec_cap()),
                spec_expanded_cap(self.spec_cap(), target_pos as int) == spec_expanded_cap(
                    old(self).spec_cap(),
                    target_pos as int,
                ),
            decreases (if target_pos >= self.spec_cap() { target_pos + 1 - self.spec_cap() } else { 0 }),
        {
            let ghost mid = self@;
            self._expand_cap_double();
            proof {
                assert(self@ =~= spec_padded(old(self)@, self.spec_cap()));
            }
        }
        proof {
            assert(old(self)@ =~= spec_padded(old(self)@, old(self).spec_cap()));
        }
    }

    /// Expands the capacity if `pos` lies at or behind it.
    pub fn auto_expand_cap(&mut self, pos: usize)
        requires
            old(self).spec_cap() > 0,
            pos <= usize::MAX / 2,
            old(self).wf(),
        ensures
            final(self).wf(),
            final(self).spec_len() == old(self).spec_len(),
            final(self)@ == spec_padded(old(self)@, spec_expanded_cap(old(self).spec_cap(), pos as int)),
            final(self).spec_cap() > pos,
    {
        if pos >= self.cap() {
            self.expand_cap_for(pos);
        } else {
            proof {
                assert(self@ =~= spec_padded(old(self)@, spec_expanded_cap(old(self).spec_cap(), pos as int)));
            }
        }
    }

    /// The capacity in bits.
    pub fn cap(&self) -> (c: usize)
        requires
            self.wf(),
        ensures
            c == self.spec_cap(),
    {
        self.inner.len() * 64
    }

    /// The recorded length.
    pub fn len(&self) -> (l: usize)
        ensures
            l == self.spec_len(),
    {
        self._len
    }

    fn _adjust_len(&mut self, pos: usize)
        ensures
            final(self).inner == old(self).inner,
            final(self)._len == if pos > old(self)._len { pos } else { old(self)._len },
    {
        if pos > self.len() {
            self._len = pos;
        }
    }

    /// Sets the bit at `pos`, expanding the capacity first where needed.
    pub fn set(&mut self, pos: usize)
        requires
            old(self).spec_cap() > 0,
            pos <= usize::MAX / 2,
            old(self).wf(),
        ensures
            final(self).wf(),
            final(self)@ == spec_padded(
                old(self)@,
                spec_expanded_cap(old(self).spec_cap(), pos as int),
            ).update(pos as int, true),
            final(self).spec_len() == if pos > old(self).spec_len() { pos as int } else { old(self).spec_len() },
    {
        let pos1 = pos / 64;
        let pos2 = pos % 64;
        self.auto_expand_cap(pos);
        let ghost mid = self@;
        let ghost mid_inner = self.inner@;
        let mut bits = self.inner[pos1];
        let mask = (1 as u64) << (pos2 as u64);
        proof {
            lemma_word_bits(bits, pos2 as u64, pos2 as u64);
        }
        if bits & mask == 0 {
            bits += mask;
            self.inner[pos1] = bits;
        }
        self._adjust_len(pos);
        proof {
            assert forall|i: int| 0 <= i < mid.len() implies self@[i] == mid.update(pos as int, true)[i] by {
                if i / 64 == pos1 as int {
                    lemma_word_bits(mid_inner[pos1 as int], pos2 as u64, (i % 64) as u64);
                }
            }
            assert(self@ =~= mid.update(pos as int, true));
        }
    }

    /// Clears the bit at `pos`. A position at or behind the capacity only
    /// expands the capacity.
    pub fn clear(&mut self, pos: usize)
        requires
            old(self).spec_cap() > 0,
            pos <= usize::MAX / 2,
            old(self).wf(),
        ensures
            final(self).wf(),
            final(self)@ == spec_padded(
                old(self)@,
                spec_expanded_cap(old(self).spec_cap(), pos as int),
            ).update(pos as int, false),
            final(self).spec_len() == if pos > old(self).spec_len() { pos as int } else { old(self).spec_len() },
    {
        let pos1 = pos / 64;
        let pos2 = pos % 64;
        self._adjust_len(pos);
        if pos >= self.cap() {
            self.expand_cap_for(pos);
            proof {
                assert(self@ =~= self@.update(pos as int, false));
            }
            return ;
        }
        let ghost mid = self@;
        let ghost mid_inner = self.inner@;
        let mut bits = self.inner[pos1];
        let mask = !((1 as u64) << (pos2 as u64));
        bits = bits & mask;
        self.inner[pos1] = bits;
        proof {
            assert forall|i: int| 0 <= i < mid.len() implies self@[i] == mid.update(pos as int, false)[i] by {
                if i / 64 == pos1 as int {
                    lemma_word_bits(mid_inner[pos1 as int], pos2 as u64, (i % 64) as u64);
                }
            }
            assert(self@ =~= mid.update(pos as int, false));
            assert(mid =~= spec_padded(old(self)@, spec_expanded_cap(old(self).spec_cap(), pos as int)));
        }
    }

    /// Reads the bit at `pos`. A position at or behind the capacity reads as
    /// cleared and expands the capacity.
    pub fn get(&mut self, pos: usize) -> (b: bool)
        requires
            old(self).spec_cap() > 0,
            pos <= usize::MAX / 2,
            old(self).wf(),
        ensures
            b == old(self).bit(pos as int),
            final(self).wf(),
            final(self)@ == spec_padded(old(self)@, spec_expanded_cap(old(self).spec_cap(), pos as int)),
            final(self).spec_len() == if pos > old(self).spec_len() { pos as int } else { old(self).spec_len() },
    {
        let pos1 = pos / 64;
        let pos2 = pos % 64;
        self._adjust_len(pos);
        if pos < self.cap() {
            let bits = self.inner[pos1];
            let mask = (1 as u64) << (pos2 as u64);
            proof {
                lemma_word_bits(bits, pos2 as u64, pos2 as u64);
                assert(self@ =~= spec_padded(old(self)@, spec_expanded_cap(old(self).spec_cap(), pos as int)));
            }
            if bits & mask != 0 {
                true
            } else {
                false
            }
        } else {
            self.expand_cap_for(pos);
            false
        }
    }

    /// Inverts the bit at `pos`, expanding the capacity first where needed.
    pub fn turn_over(&mut self, pos: usize)
        requires
            old(self).spec_cap() > 0,
            pos <= usize::MAX / 2,
            old(self).wf(),
        ensures
            final(self).wf(),
            final(self)@ == spec_padded(
                old(self)@,
                spec_expanded_cap(old(self).spec_cap(), pos as int),
            ).update(pos as int, !old(self).bit(pos as int)),
            final(self).spec_len() == if pos > old(self).spec_len() { pos as int } else { old(self).spec_len() },
    {
        self._adjust_len(pos);
        if self.get(pos) {
            self.clear(pos);
        } else {
            self.set(pos);
        }
        proof {
            let cap1 = spec_expanded_cap(old(self).spec_cap(), pos as int);
            if pos >= old(self).spec_cap() {
                lemma_expanded_cap_bound(old(self).spec_cap(), pos as int);
            }
            assert(spec_expanded_cap(cap1, pos as int) == cap1);
            assert(spec_padded(spec_padded(old(self)@, cap1), cap1) =~= spec_padded(old(self)@, cap1));
        }
    }
}

} // verus!
