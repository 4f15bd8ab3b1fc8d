//! The buffer of a pipe: a queue of bytes in a ring.
use vstd::prelude::*;

verus! {

/// The number of bytes that the buffer of a pipe holds at most.
pub const RING_BUFFER_SIZE: usize = 1024;

/// Whether a ring is empty, full, or neither.
#[derive(Copy, Clone, PartialEq, Eq, Structural)]
pub enum RingBufferStatus {
    FULL,
    EMPTY,
    NORMAL,
}

/// A queue of at most `RING_BUFFER_SIZE` bytes.
pub struct PipeRingBuffer {
    arr: Vec<u8>,
    head: usize,
    tail: usize,
    status: RingBufferStatus,
}

impl View for PipeRingBuffer {
    type V = Seq<u8>;

    /// The bytes in the queue, the oldest first.
    closed spec fn view(&self) -> Seq<u8> {
        Seq::new(self.spec_count() as nat, |i: int| self.arr@[(self.head + i) % (RING_BUFFER_SIZE as int)])
    }
}

impl PipeRingBuffer {
    /// The number of bytes in the queue, from the fields.
    pub closed spec fn spec_count(&self) -> int {
        if self.status == RingBufferStatus::EMPTY {
            0
        } else if self.tail > self.head {
            self.tail - self.head
        } else {
            self.tail + RING_BUFFER_SIZE - self.head
        }
    }

    /// The invariant: head and tail lie in the ring, and they meet exactly
    /// where the ring is empty or full.
    pub closed spec fn wf(&self) -> bool {
        &&& self.arr@.len() == RING_BUFFER_SIZE
        &&& self.head < RING_BUFFER_SIZE
        &&& self.tail < RING_BUFFER_SIZE
        &&& self.status == RingBufferStatus::NORMAL <==> self.head != self.tail
    }

    /// The queue holds as many bytes as the fields say, and no more than
    /// fit.
    pub proof fn lemma_len(&self)
        requires
            self.wf(),
        ensures
            self@.len() == self.spec_count(),
            0 <= self@.len() <= RING_BUFFER_SIZE,
    {
    }

    /// An empty queue.
    pub fn new() -> (r: Self)
        ensures
            r.wf(),
            r@.len() == 0,
    {
        let mut arr: Vec<u8> = Vec::new();
        let mut i: usize = 0;
        while i < RING_BUFFER_SIZE
            invariant
                i <= RING_BUFFER_SIZE,
                arr@.len() == i,
            decreases RING_BUFFER_SIZE - i,
        {
            arr.push(0);
            i += 1;
        }
        Self { arr, head: 0, tail: 0, status: RingBufferStatus::EMPTY }
    }

    /// Puts `byte` at the end of the queue, which must not be full.
    pub fn write_byte(&mut self, byte: u8)
        requires
            old(self).wf(),
            old(self)@.len() < RING_BUFFER_SIZE,
        ensures
            final(self).wf(),
            final(self)@ == old(self)@.push(byte),
    {
        let ghost before = *self;
        self.status = RingBufferStatus::NORMAL;
        self.arr[self.tail] = byte;
        self.tail = (self.tail + 1) % RING_BUFFER_SIZE;
        if self.tail == self.head {
            self.status = RingBufferStatus::FULL;
        }
        proof {
            let n = RING_BUFFER_SIZE as int;
            let len = before@.len() as int;
            assert(self.spec_count() == len + 1);
            assert forall|i: int| 0 <= i < len + 1 implies self@[i] == before@.push(byte)[i] by {
                let pos = (before.head + i) % n;
                if i < len {
                    assert(pos != before.tail) by {
                        if before.head + i < n {
                            assert(pos == before.head + i);
                        } else {
                            assert(pos == before.head + i - n);
                        }
                    }
                } else {
                    assert(pos == before.tail) by {
                        if before.head + i < n {
                            assert(pos == before.head + i);
                        } else {
                            assert(pos == before.head + i - n);
                        }
                    }
                }
            }
            assert(self@ =~= before@.push(byte));
        }
    }

    /// Takes the first byte out of the queue, which must not be empty.
    pub fn read_byte(&mut self) -> (c: u8)
        requires
            old(self).wf(),
            old(self)@.len() > 0,
        ensures
            final(self).wf(),
            c == old(self)@[0],
            final(self)@ == old(self)@.drop_first(),
    {
        let ghost before = *self;
        self.status = RingBufferStatus::NORMAL;
        let c = self.arr[self.head];
        self.head = (self.head + 1) % RING_BUFFER_SIZE;
        if self.head == self.tail {
            self.status = RingBufferStatus::EMPTY;
        }
        proof {
            let n = RING_BUFFER_SIZE as int;
            let len = before@.len() as int;
            assert((before.head + 0) % n == before.head);
            assert(self.spec_count() == len - 1);
            assert forall|i: int| 0 <= i < len - 1 implies self@[i] == before@.drop_first()[i] by {
                assert((self.head + i) % n == (before.head + (i + 1)) % n) by {
                    if before.head + 1 < n {
                        assert(self.head == before.head + 1);
                    } else {
                        assert(self.head == 0);
                        assert(before.head + (i + 1) == n + i);
                        assert((n + i) % n == i % n);
                    }
                }
            }
            assert(self@ =~= before@.drop_first());
        }
        c
    }

    /// The number of bytes in the queue.
    pub fn available_read(&self) -> (n: usize)
        requires
            self.wf(),
        ensures
            n == self@.len(),
    {
        if self.status == RingBufferStatus::EMPTY {
            0
        } else {
            if self.tail > self.head {
                self.tail - self.head
            } else {
                self.tail + RING_BUFFER_SIZE - self.head
            }
        }
    }

    /// The number of bytes that the queue has room for.
    pub fn available_write(&self) -> (n: usize)
        requires
            self.wf(),
        ensures
            n == RING_BUFFER_SIZE - self@.len(),
    {
        if self.status == RingBufferStatus::FULL {
            0
        } else {
            RING_BUFFER_SIZE - self.available_read()
        }
    }

    /// Takes bytes out of the queue into `buf`, from its start on: as many
    /// as there are, but no more than `buf` is long. Returns their number.
    pub fn read(&mut self, buf: &mut Vec<u8>) -> (n: usize)
        requires
            old(self).wf(),
        ensures
            final(self).wf(),
            n == if old(self)@.len() <= old(buf)@.len() {
                old(self)@.len()
            } else {
                old(buf)@.len()
            },
            final(buf)@.len() == old(buf)@.len(),
            final(buf)@.subrange(0, n as int) == old(self)@.subrange(0, n as int),
            final(buf)@.subrange(n as int, old(buf)@.len() as int) == old(buf)@.subrange(
                n as int,
                old(buf)@.len() as int,
            ),
            final(self)@ == old(self)@.skip(n as int),
    {
        let mut can_read = self.available_read();
        if can_read == 0 {
            proof {
                assert(buf@.subrange(0, 0) =~= self@.subrange(0, 0));
                assert(self@.skip(0) =~= self@);
            }
            return 0;
        }
        if buf.len() < can_read {
            can_read = buf.len();
        }
        let mut i: usize = 0;
        while i < can_read
            invariant
                i <= can_read,
                can_read <= old(self)@.len(),
                can_read <= old(buf)@.len(),
                self.wf(),
                buf@.len() == old(buf)@.len(),
                self@ == old(self)@.skip(i as int),
                forall|j: int| 0 <= j < i ==> #[trigger] buf@[j] == old(self)@[j],
                forall|j: int| i <= j < buf@.len() ==> #[trigger] buf@[j] == old(buf)@[j],
            decreases can_read - i,
        {
            let c = self.read_byte();
            buf[i] = c;
            proof {
                assert(c == old(self)@[i as int]);
                assert(self@ =~= old(self)@.skip(i + 1));
            }
            i += 1;
        }
        proof {
            assert(buf@.subrange(0, can_read as int) =~= old(self)@.subrange(0, can_read as int));
            assert(buf@.subrange(can_read as int, old(buf)@.len() as int) =~= old(buf)@.subrange(
                can_read as int,
                old(buf)@.len() as int,
            ));
        }
        can_read
    }

    /// Puts the bytes of `buf` at the end of the queue, from the first on:
    /// as many as there are, but no more than the queue has room for. Returns
    /// their number.
    pub fn write(&mut self, buf: &[u8]) -> (n: usize)
        requires
            old(self).wf(),
        ensures
            final(self).wf(),
            n == if RING_BUFFER_SIZE - old(self)@.len() <= buf@.len() {
                RING_BUFFER_SIZE - old(self)@.len()
            } else {
                buf@.len() as int
            },
            final(self)@ == old(self)@ + buf@.subrange(0, n as int),
    {
        let mut can_write = self.available_write();
        if can_write == 0 {
            proof {
                assert(self@ + buf@.subrange(0, 0) =~= self@);
            }
            return 0;
        }
        if buf.len() < can_write {
            can_write = buf.len();
        }
        let mut i: usize = 0;
        proof {
            assert(self@ + buf@.subrange(0, 0) =~= self@);
        }
        while i < can_write
            invariant
                i <= can_write,
                can_write <= buf@.len(),
                old(self)@.len() + can_write <= RING_BUFFER_SIZE,
                self.wf(),
                self@ == old(self)@ + buf@.subrange(0, i as int),
            decreases can_write - i,
        {
            let ghost queue = self@;
            self.write_byte(buf[i]);
            proof {
                assert(self@ =~= old(self)@ + buf@.subrange(0, i + 1));
            }
            i += 1;
        }
        can_write
    }
}

} // verus!
