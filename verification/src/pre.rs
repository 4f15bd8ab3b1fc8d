//! Traits shared by the address types and by readable and writable objects.
use vstd::prelude::*;

verus! {

/// A wrapper around one value of type `T`.
pub trait InnerAccess<T>: Copy {
    /// The wrapped value.
    spec fn spec_inner(&self) -> T;

    fn get_inner(&self) -> (val: T)
        ensures
            val == self.spec_inner(),
    ;

    fn set_inner(&mut self, val: T)
        ensures
            final(self).spec_inner() == val,
    ;

    /// Replaces the wrapped value and returns the one it held.
    fn set_and_get_inner(&mut self, val: T) -> (before: T)
        ensures
            before == old(self).spec_inner(),
            final(self).spec_inner() == val,
    {
        let before = self.get_inner();
        self.set_inner(val);
        before
    }
}

/// The arithmetic operators that an address offers with a right-hand side of
/// type `Rhs`.
pub trait OperatorSet<Rhs>: Sized {

}

/// What may be done with an object: reading, writing, executing.
pub trait ShowRdWrEx {
    spec fn spec_readable(&self) -> bool;

    spec fn spec_writeable(&self) -> bool;

    spec fn spec_execable(&self) -> bool;

    fn readable(&self) -> (r: bool)
        ensures
            r == self.spec_readable(),
    ;

    fn writeable(&self) -> (r: bool)
        ensures
            r == self.spec_writeable(),
    ;

    fn execable(&self) -> (r: bool)
        ensures
            r == self.spec_execable(),
    ;

    fn readwriteable(&self) -> (r: bool)
        ensures
            r == (self.spec_readable() && self.spec_writeable()),
    {
        self.readable() && self.writeable()
    }
}

/// A source of `len` zero bytes, of which `cur` have been read.
pub struct FakeReadSource {
    pub len: usize,
    pub cur: usize,
}

impl FakeReadSource {
    /// Fills the front of `buf` with zeros, as far as the source still
    /// reaches, and returns how many bytes that were.
    pub fn read(&mut self, buf: &mut Vec<u8>) -> (r: Result<usize, ()>)
        requires
            old(self).cur <= old(self).len,
        ensures
            r == Ok::<usize, ()>(spec_min(old(buf)@.len() as int, old(self).len - old(self).cur) as usize),
            final(self).len == old(self).len,
            final(self).cur == old(self).cur + r->Ok_0,
            final(buf)@.len() == old(buf)@.len(),
            forall|i: int| 0 <= i < r->Ok_0 ==> final(buf)@[i] == 0,
            forall|i: int| r->Ok_0 <= i < old(buf)@.len() ==> final(buf)@[i] == old(buf)@[i],
    {
        let left = self.len - self.cur;
        let real_read = if buf.len() < left { buf.len() } else { left };
        let mut i: usize = 0;
        while i < real_read
            invariant
                i <= real_read <= buf@.len(),
                buf@.len() == old(buf)@.len(),
                forall|j: int| 0 <= j < i ==> buf@[j] == 0,
                forall|j: int| i <= j < old(buf)@.len() ==> buf@[j] == old(buf)@[j],
            decreases real_read - i,
        {
            buf[i] = 0;
            i += 1;
        }
        self.cur += real_read;
        Ok(real_read)
    }
}

pub open spec fn spec_min(a: int, b: int) -> int {
    if a < b {
        a
    } else {
        b
    }
}

/// A sink that accepts `len` bytes, of which `cur` have been written.
pub struct FakeWriteSource {
    pub len: usize,
    pub cur: usize,
}

impl FakeWriteSource {
    /// Accepts the front of `buf`, as far as the sink still reaches, and
    /// returns how many bytes that were.
    pub fn write(&mut self, buf: &Vec<u8>) -> (r: Result<usize, ()>)
        requires
            old(self).cur <= old(self).len,
        ensures
            r == Ok::<usize, ()>(spec_min(buf@.len() as int, old(self).len - old(self).cur) as usize),
            final(self).len == old(self).len,
            final(self).cur == old(self).cur + r->Ok_0,
    {
        let left = self.len - self.cur;
        let real_write = if buf.len() < left { buf.len() } else { left };
        self.cur += real_write;
        Ok(real_write)
    }

    pub fn flush(&mut self) -> (r: Result<(), ()>)
        ensures
            r is Ok,
            *final(self) == *old(self),
    {
        Ok(())
    }
}

} // verus!
