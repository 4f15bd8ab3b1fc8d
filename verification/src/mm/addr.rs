//! Physical and virtual addresses, and the fixed offset between them.
use vstd::prelude::*;
use vstd::std_specs::ops::{AddSpecImpl, SubSpecImpl, MulSpecImpl, DivSpecImpl, RemSpecImpl};
use vstd::std_specs::convert::FromSpecImpl;
use core::ops::{Add, Sub, Mul, Div, Rem, Deref};
use crate::consts::{PAGE_OFFSET, PAGE_SIZE, PHY_MEM_OFFSET};
use crate::pre::{InnerAccess, OperatorSet};

verus! {

/// The greatest multiple of `PAGE_SIZE` that is not above `a`.
pub open spec fn spec_floor(a: int) -> int {
    a / 4096 * 4096
}

/// The least multiple of `PAGE_SIZE` that is not below `a`.
pub open spec fn spec_ceil(a: int) -> int {
    if a % 4096 == 0 {
        a
    } else {
        a / 4096 * 4096 + 4096
    }
}

/// Alignment to pages.
pub trait PageAlign: Sized {
    /// The address as a number.
    spec fn spec_addr(&self) -> int;

    fn get_page_align(&self) -> (align: usize)
        ensures
            align == PAGE_SIZE,
    {
        PAGE_SIZE
    }

    /// The start of the page that holds the address.
    fn floor(&self) -> (r: Self)
        ensures
            r.spec_addr() == spec_floor(self.spec_addr()),
    ;

    /// The address itself if it starts a page, else the start of the next
    /// page.
    fn ceil(&self) -> (r: Self)
        requires
            spec_ceil(self.spec_addr()) <= u64::MAX,
        ensures
            r.spec_addr() == spec_ceil(self.spec_addr()),
    ;

    fn is_align(&self) -> (r: bool)
        ensures
            r == (self.spec_addr() % 4096 == 0),
    ;

    /// Moves the address down to the start of its page.
    fn align(&mut self)
        ensures
            final(self).spec_addr() == spec_floor(old(self).spec_addr()),
    ;

    /// Whether the address is a multiple of `n`.
    fn is_align_n(&self, n: usize) -> (r: bool)
        requires
            n != 0,
        ensures
            r == (self.spec_addr() % (n as int) == 0),
    ;
}

/// An address: a wrapped number with arithmetic and page alignment.
pub trait Addr<T>: InnerAccess<T> + OperatorSet<u64> + PageAlign {
    fn unwrap(self) -> (val: T)
        ensures
            val == self.spec_inner(),
    {
        self.get_inner()
    }
}

/// Walks from `cur` towards `end` in steps of `step`.
pub struct AddrIterator<T> {
    pub step: u64,
    pub cur: T,
    pub end: T,
}

impl<T: InnerAccess<u64>> AddrIterator<T> {
    /// The current address, if it lies below the end; the iterator then
    /// moves on by one step.
    pub fn next(&mut self) -> (r: Option<T>)
        requires
            old(self).cur.spec_inner() + old(self).step <= u64::MAX,
        ensures
            final(self).step == old(self).step,
            final(self).end == old(self).end,
            old(self).cur.spec_inner() < old(self).end.spec_inner() ==> r == Some(old(self).cur)
                && final(self).cur.spec_inner() == old(self).cur.spec_inner() + old(self).step,
            old(self).cur.spec_inner() >= old(self).end.spec_inner() ==> r is None && final(self).cur == old(
                self,
            ).cur,
    {
        if self.cur.get_inner() < self.end.get_inner() {
            let v = Some(self.cur);
            let moved = self.cur.get_inner() + self.step;
            self.cur.set_inner(moved);
            v
        } else {
            None
        }
    }
}


/// A physical address.
#[derive(Copy, Clone, Debug, Ord, PartialOrd, Eq, PartialEq, Structural)]
pub struct Paddr(pub u64);

impl Default for Paddr {
    fn default() -> (r: Self)
        ensures
            r.0 == 0,
    {
        Paddr(0)
    }
}

impl From<u64> for Paddr {
    fn from(val: u64) -> (r: Self) {
        Paddr(val)
    }
}

impl FromSpecImpl<u64> for Paddr {
    open spec fn obeys_from_spec() -> bool {
        true
    }

    open spec fn from_spec(val: u64) -> Self {
        Paddr(val)
    }
}

impl InnerAccess<u64> for Paddr {
    open spec fn spec_inner(&self) -> u64 {
        self.0
    }

    fn get_inner(&self) -> (val: u64) {
        self.0
    }

    fn set_inner(&mut self, val: u64) {
        self.0 = val;
    }
}

impl OperatorSet<u64> for Paddr {

}

impl Add<u64> for Paddr {
    type Output = Self;

    fn add(self, rhs: u64) -> (r: Self) {
        Paddr(self.0 + rhs)
    }
}

impl AddSpecImpl<u64> for Paddr {
    open spec fn obeys_add_spec() -> bool {
        true
    }

    open spec fn add_req(self, rhs: u64) -> bool {
        self.0 + rhs <= u64::MAX
    }

    open spec fn add_spec(self, rhs: u64) -> Self {
        Paddr((self.0 + rhs) as u64)
    }
}

impl Sub<u64> for Paddr {
    type Output = Self;

    fn sub(self, rhs: u64) -> (r: Self) {
        Paddr(self.0 - rhs)
    }
}

impl SubSpecImpl<u64> for Paddr {
    open spec fn obeys_sub_spec() -> bool {
        true
    }

    open spec fn sub_req(self, rhs: u64) -> bool {
        self.0 >= rhs
    }

    open spec fn sub_spec(self, rhs: u64) -> Self {
        Paddr((self.0 - rhs) as u64)
    }
}

impl Mul<u64> for Paddr {
    type Output = Self;

    fn mul(self, rhs: u64) -> (r: Self) {
        Paddr(self.0 * rhs)
    }
}

impl MulSpecImpl<u64> for Paddr {
    open spec fn obeys_mul_spec() -> bool {
        true
    }

    open spec fn mul_req(self, rhs: u64) -> bool {
        self.0 * rhs <= u64::MAX
    }

    open spec fn mul_spec(self, rhs: u64) -> Self {
        Paddr((self.0 * rhs) as u64)
    }
}

impl Div<u64> for Paddr {
    type Output = Self;

    fn div(self, rhs: u64) -> (r: Self) {
        Paddr(self.0 / rhs)
    }
}

impl DivSpecImpl<u64> for Paddr {
    open spec fn obeys_div_spec() -> bool {
        true
    }

    open spec fn div_req(self, rhs: u64) -> bool {
        rhs != 0
    }

    open spec fn div_spec(self, rhs: u64) -> Self {
        Paddr(self.0 / rhs)
    }
}

impl Rem<u64> for Paddr {
    type Output = Self;

    fn rem(self, rhs: u64) -> (r: Self) {
        Paddr(self.0 % rhs)
    }
}

impl RemSpecImpl<u64> for Paddr {
    open spec fn obeys_rem_spec() -> bool {
        true
    }

    open spec fn rem_req(self, rhs: u64) -> bool {
        rhs != 0
    }

    open spec fn rem_spec(self, rhs: u64) -> Self {
        Paddr(self.0 % rhs)
    }
}

impl Deref for Paddr {
    type Target = u64;

    fn deref(&self) -> (r: &u64)
        ensures
            *r == self.0,
    {
        &self.0
    }
}

impl PageAlign for Paddr {
    open spec fn spec_addr(&self) -> int {
        self.0 as int
    }

    fn floor(&self) -> (r: Self) {
        let align = self.get_page_align() as u64;
        (*self) / align * align
    }

    fn ceil(&self) -> (r: Self) {
        let align = self.get_page_align() as u64;
        if self.is_align() {
            self.floor()
        } else {
            self.floor() + align
        }
    }

    fn is_align(&self) -> (r: bool) {
        self.get_inner() % (self.get_page_align() as u64) == 0
    }

    fn align(&mut self) {
        self.0 = self.floor().get_inner();
    }

    fn is_align_n(&self, n: usize) -> (r: bool) {
        self.get_inner() % (n as u64) == 0
    }
}

impl Addr<u64> for Paddr {

}

impl Paddr {
    /// Adds `rhs` in place.
    pub fn add_assign(&mut self, rhs: u64)
        requires
            old(self).0 + rhs <= u64::MAX,
        ensures
            final(self).0 == old(self).0 + rhs,
    {
        self.0 = self.0 + rhs
    }

    /// Subtracts `rhs` in place.
    pub fn sub_assign(&mut self, rhs: u64)
        requires
            old(self).0 >= rhs,
        ensures
            final(self).0 == old(self).0 - rhs,
    {
        self.0 = self.0 - rhs
    }

    /// Multiplies by `rhs` in place.
    pub fn mul_assign(&mut self, rhs: u64)
        requires
            old(self).0 * rhs <= u64::MAX,
        ensures
            final(self).0 == old(self).0 * rhs,
    {
        self.0 = self.0 * rhs
    }

    /// Divides by `rhs` in place.
    pub fn div_assign(&mut self, rhs: u64)
        requires
            rhs != 0,
        ensures
            final(self).0 == old(self).0 / rhs,
    {
        self.0 = self.0 / rhs
    }

    /// Replaces the address by its remainder modulo `rhs`.
    pub fn rem_assign(&mut self, rhs: u64)
        requires
            rhs != 0,
        ensures
            final(self).0 == old(self).0 % rhs,
    {
        self.0 = self.0 % rhs
    }

    /// The distance from `start` up to `end`, if `end` is not below `start`.
    pub fn steps_between(start: &Self, end: &Self) -> (r: Option<u64>)
        ensures
            start.0 <= end.0 ==> r == Some((end.0 - start.0) as u64),
            start.0 > end.0 ==> r is None,
    {
        if start.0 <= end.0 {
            Some(end.0 - start.0)
        } else {
            None
        }
    }

    /// The address `count` above `start`, unless that overflows.
    pub fn forward_checked(start: Self, count: u64) -> (r: Option<Self>)
        ensures
            start.0 + count <= u64::MAX ==> r == Some(Paddr((start.0 + count) as u64)),
            start.0 + count > u64::MAX ==> r is None,
    {
        match start.0.checked_add(count) {
            None => None,
            Some(v) => Some(Paddr(v)),
        }
    }

    /// The address `count` below `start`, unless that underflows.
    pub fn backward_checked(start: Self, count: u64) -> (r: Option<Self>)
        ensures
            start.0 >= count ==> r == Some(Paddr((start.0 - count) as u64)),
            start.0 < count ==> r is None,
    {
        match start.0.checked_sub(count) {
            None => None,
            Some(v) => Some(Paddr(v)),
        }
    }

    /// An iterator over the addresses from this one up to `len` further, in
    /// steps of `step`.
    pub fn addr_iter(&self, len: u64, step: u64) -> (it: AddrIterator<Self>)
        requires
            self.0 + len <= u64::MAX,
        ensures
            it.step == step,
            it.cur == *self,
            it.end.0 == self.0 + len,
    {
        AddrIterator { step, cur: *self, end: (*self) + len }
    }

    /// An iterator over the starts of the pages from this address up to
    /// `len` further.
    pub fn page_addr_iter(&self, len: u64) -> (it: AddrIterator<Self>)
        requires
            self.0 + len <= u64::MAX,
        ensures
            it.step == PAGE_SIZE,
            it.cur == *self,
            it.end.0 == self.0 + len,
    {
        self.addr_iter(len, self.get_page_align() as u64)
    }

    /// The address of this physical address in the direct map.
    pub fn into(self) -> (v: Vaddr)
        requires
            self.0 + PHY_MEM_OFFSET <= u64::MAX,
        ensures
            v.0 == self.0 + PHY_MEM_OFFSET,
    {
        Vaddr(self.0 + PHY_MEM_OFFSET)
    }

}

/// A virtual address.
#[derive(Copy, Clone, Debug, Ord, PartialOrd, Eq, PartialEq, Structural)]
pub struct Vaddr(pub u64);

impl Default for Vaddr {
    fn default() -> (r: Self)
        ensures
            r.0 == 0,
    {
        Vaddr(0)
    }
}

impl From<u64> for Vaddr {
    fn from(val: u64) -> (r: Self) {
        Vaddr(val)
    }
}

impl FromSpecImpl<u64> for Vaddr {
    open spec fn obeys_from_spec() -> bool {
        true
    }

    open spec fn from_spec(val: u64) -> Self {
        Vaddr(val)
    }
}

impl InnerAccess<u64> for Vaddr {
    open spec fn spec_inner(&self) -> u64 {
        self.0
    }

    fn get_inner(&self) -> (val: u64) {
        self.0
    }

    fn set_inner(&mut self, val: u64) {
        self.0 = val;
    }
}

impl OperatorSet<u64> for Vaddr {

}

impl Add<u64> for Vaddr {
    type Output = Self;

    fn add(self, rhs: u64) -> (r: Self) {
        Vaddr(self.0 + rhs)
    }
}

impl AddSpecImpl<u64> for Vaddr {
    open spec fn obeys_add_spec() -> bool {
        true
    }

    open spec fn add_req(self, rhs: u64) -> bool {
        self.0 + rhs <= u64::MAX
    }

    open spec fn add_spec(self, rhs: u64) -> Self {
        Vaddr((self.0 + rhs) as u64)
    }
}

impl Sub<u64> for Vaddr {
    type Output = Self;

    fn sub(self, rhs: u64) -> (r: Self) {
        Vaddr(self.0 - rhs)
    }
}

impl SubSpecImpl<u64> for Vaddr {
    open spec fn obeys_sub_spec() -> bool {
        true
    }

    open spec fn sub_req(self, rhs: u64) -> bool {
        self.0 >= rhs
    }

    open spec fn sub_spec(self, rhs: u64) -> Self {
        Vaddr((self.0 - rhs) as u64)
    }
}

impl Mul<u64> for Vaddr {
    type Output = Self;

    fn mul(self, rhs: u64) -> (r: Self) {
        Vaddr(self.0 * rhs)
    }
}

impl MulSpecImpl<u64> for Vaddr {
    open spec fn obeys_mul_spec() -> bool {
        true
    }

    open spec fn mul_req(self, rhs: u64) -> bool {
        self.0 * rhs <= u64::MAX
    }

    open spec fn mul_spec(self, rhs: u64) -> Self {
        Vaddr((self.0 * rhs) as u64)
    }
}

impl Div<u64> for Vaddr {
    type Output = Self;

    fn div(self, rhs: u64) -> (r: Self) {
        Vaddr(self.0 / rhs)
    }
}

impl DivSpecImpl<u64> for Vaddr {
    open spec fn obeys_div_spec() -> bool {
        true
    }

    open spec fn div_req(self, rhs: u64) -> bool {
        rhs != 0
    }

    open spec fn div_spec(self, rhs: u64) -> Self {
        Vaddr(self.0 / rhs)
    }
}

impl Rem<u64> for Vaddr {
    type Output = Self;

    fn rem(self, rhs: u64) -> (r: Self) {
        Vaddr(self.0 % rhs)
    }
}

impl RemSpecImpl<u64> for Vaddr {
    open spec fn obeys_rem_spec() -> bool {
        true
    }

    open spec fn rem_req(self, rhs: u64) -> bool {
        rhs != 0
    }

    open spec fn rem_spec(self, rhs: u64) -> Self {
        Vaddr(self.0 % rhs)
    }
}

impl Deref for Vaddr {
    type Target = u64;

    fn deref(&self) -> (r: &u64)
        ensures
            *r == self.0,
    {
        &self.0
    }
}

impl PageAlign for Vaddr {
    open spec fn spec_addr(&self) -> int {
        self.0 as int
    }

    fn floor(&self) -> (r: Self) {
        let align = self.get_page_align() as u64;
        (*self) / align * align
    }

    fn ceil(&self) -> (r: Self) {
        let align = self.get_page_align() as u64;
        if self.is_align() {
            self.floor()
        } else {
            self.floor() + align
        }
    }

    fn is_align(&self) -> (r: bool) {
        self.get_inner() % (self.get_page_align() as u64) == 0
    }

    fn align(&mut self) {
        self.0 = self.floor().get_inner();
    }

    fn is_align_n(&self, n: usize) -> (r: bool) {
        self.get_inner() % (n as u64) == 0
    }
}

impl Addr<u64> for Vaddr {

}

impl Vaddr {
    /// Adds `rhs` in place.
    pub fn add_assign(&mut self, rhs: u64)
        requires
            old(self).0 + rhs <= u64::MAX,
        ensures
            final(self).0 == old(self).0 + rhs,
    {
        self.0 = self.0 + rhs
    }

    /// Subtracts `rhs` in place.
    pub fn sub_assign(&mut self, rhs: u64)
        requires
            old(self).0 >= rhs,
        ensures
            final(self).0 == old(self).0 - rhs,
    {
        self.0 = self.0 - rhs
    }

    /// Multiplies by `rhs` in place.
    pub fn mul_assign(&mut self, rhs: u64)
        requires
            old(self).0 * rhs <= u64::MAX,
        ensures
            final(self).0 == old(self).0 * rhs,
    {
        self.0 = self.0 * rhs
    }

    /// Divides by `rhs` in place.
    pub fn div_assign(&mut self, rhs: u64)
        requires
            rhs != 0,
        ensures
            final(self).0 == old(self).0 / rhs,
    {
        self.0 = self.0 / rhs
    }

    /// Replaces the address by its remainder modulo `rhs`.
    pub fn rem_assign(&mut self, rhs: u64)
        requires
            rhs != 0,
        ensures
            final(self).0 == old(self).0 % rhs,
    {
        self.0 = self.0 % rhs
    }

    /// The distance from `start` up to `end`, if `end` is not below `start`.
    pub fn steps_between(start: &Self, end: &Self) -> (r: Option<u64>)
        ensures
            start.0 <= end.0 ==> r == Some((end.0 - start.0) as u64),
            start.0 > end.0 ==> r is None,
    {
        if start.0 <= end.0 {
            Some(end.0 - start.0)
        } else {
            None
        }
    }

    /// The address `count` above `start`, unless that overflows.
    pub fn forward_checked(start: Self, count: u64) -> (r: Option<Self>)
        ensures
            start.0 + count <= u64::MAX ==> r == Some(Vaddr((start.0 + count) as u64)),
            start.0 + count > u64::MAX ==> r is None,
    {
        match start.0.checked_add(count) {
            None => None,
            Some(v) => Some(Vaddr(v)),
        }
    }

    /// The address `count` below `start`, unless that underflows.
    pub fn backward_checked(start: Self, count: u64) -> (r: Option<Self>)
        ensures
            start.0 >= count ==> r == Some(Vaddr((start.0 - count) as u64)),
            start.0 < count ==> r is None,
    {
        match start.0.checked_sub(count) {
            None => None,
            Some(v) => Some(Vaddr(v)),
        }
    }

    /// An iterator over the addresses from this one up to `len` further, in
    /// steps of `step`.
    pub fn addr_iter(&self, len: u64, step: u64) -> (it: AddrIterator<Self>)
        requires
            self.0 + len <= u64::MAX,
        ensures
            it.step == step,
            it.cur == *self,
            it.end.0 == self.0 + len,
    {
        AddrIterator { step, cur: *self, end: (*self) + len }
    }

    /// An iterator over the starts of the pages from this address up to
    /// `len` further.
    pub fn page_addr_iter(&self, len: u64) -> (it: AddrIterator<Self>)
        requires
            self.0 + len <= u64::MAX,
        ensures
            it.step == PAGE_SIZE,
            it.cur == *self,
            it.end.0 == self.0 + len,
    {
        self.addr_iter(len, self.get_page_align() as u64)
    }

    /// The physical address behind this address of the direct map.
    pub fn into(self) -> (p: Paddr)
        requires
            self.0 >= PHY_MEM_OFFSET,
        ensures
            p.0 == self.0 - PHY_MEM_OFFSET,
    {
        Paddr(self.0 - PHY_MEM_OFFSET)
    }

    /// Moves the address by a signed offset and returns the new address.
    /// Only a move relative to the current address is defined.
    pub fn seek(&mut self, pos: SeekFrom) -> (r: Result<u64, ()>)
        requires
            pos matches SeekFrom::Current(v) && 0 <= old(self).0 + v <= u64::MAX,
        ensures
            r == Ok::<u64, ()>(final(self).0),
            final(self).0 == old(self).0 + pos->Current_0,
    {
        match pos {
            SeekFrom::Current(v) => {
                if v > 0 {
                    self.add_assign(v as u64);
                } else {
                    let back: u64 = if v == i64::MIN { 0x8000_0000_0000_0000u64 } else { (-v) as u64 };
                    self.sub_assign(back);
                }
                Ok(self.get_inner())
            },
            _ => Err(()),
        }
    }

}

/// A position to move to: from the start, from the end, or from the current
/// position.
pub enum SeekFrom {
    Start(u64),
    End(i64),
    Current(i64),
}

/// An address without a kind, as older code uses it.
#[derive(Copy, Clone, Debug, Ord, PartialOrd, Eq, PartialEq, Structural)]
pub struct OldAddr(pub u64);

impl Default for OldAddr {
    fn default() -> (r: Self)
        ensures
            r.0 == 0,
    {
        OldAddr(0)
    }
}

/// A page frame number: an address without its lowest `PAGE_OFFSET` bits.
#[derive(Copy, Clone, Debug, Ord, PartialOrd, Eq, PartialEq, Structural)]
pub struct PFN(pub u64);

/// Walks page by page from `cur` towards `end`.
pub struct AddrPageIter {
    pub end: OldAddr,
    pub cur: OldAddr,
}

impl AddrPageIter {
    /// The current address, if it lies below the end. The iterator moves on
    /// by one page in either case.
    pub fn next(&mut self) -> (r: Option<OldAddr>)
        requires
            old(self).cur.0 + PAGE_SIZE <= u64::MAX,
        ensures
            final(self).end == old(self).end,
            final(self).cur.0 == old(self).cur.0 + PAGE_SIZE,
            r == if old(self).cur.0 < old(self).end.0 { Some(old(self).cur) } else { None },
    {
        let ret = if self.cur.0 < self.end.0 {
            Some(self.cur)
        } else {
            None
        };
        self.cur.add_assign(OldAddr(PAGE_SIZE as u64));
        ret
    }
}

impl OldAddr {
    pub fn from(v: u64) -> (r: Self)
        ensures
            r.0 == v,
    {
        OldAddr(v)
    }

    /// The address of the first byte of page frame `pfn`.
    pub fn from_pfn(pfn: PFN) -> (r: Self)
        requires
            pfn.0 < 0x10_0000_0000_0000,
        ensures
            r.0 == pfn.0 * 4096,
    {
        OldAddr(pfn.get_addr_usize())
    }

    pub fn add(self, rhs: Self) -> (r: Self)
        requires
            self.0 + rhs.0 <= u64::MAX,
        ensures
            r.0 == self.0 + rhs.0,
    {
        OldAddr(self.0 + rhs.0)
    }

    pub fn sub(self, rhs: Self) -> (r: Self)
        requires
            self.0 >= rhs.0,
        ensures
            r.0 == self.0 - rhs.0,
    {
        OldAddr(self.0 - rhs.0)
    }

    pub fn add_assign(&mut self, rhs: Self)
        requires
            old(self).0 + rhs.0 <= u64::MAX,
        ensures
            final(self).0 == old(self).0 + rhs.0,
    {
        self.0 += rhs.0
    }

    pub fn sub_assign(&mut self, rhs: Self)
        requires
            old(self).0 >= rhs.0,
        ensures
            final(self).0 == old(self).0 - rhs.0,
    {
        self.0 -= rhs.0
    }

    pub fn steps_between(start: &Self, end: &Self) -> (r: Option<u64>)
        ensures
            start.0 <= end.0 ==> r == Some((end.0 - start.0) as u64),
            start.0 > end.0 ==> r is None,
    {
        if start.0 <= end.0 {
            Some(end.0 - start.0)
        } else {
            None
        }
    }

    pub fn forward_checked(start: Self, count: u64) -> (r: Option<Self>)
        ensures
            start.0 + count <= u64::MAX ==> r == Some(OldAddr((start.0 + count) as u64)),
            start.0 + count > u64::MAX ==> r is None,
    {
        match start.0.checked_add(count) {
            None => None,
            Some(v) => Some(OldAddr(v)),
        }
    }

    pub fn backward_checked(start: Self, count: u64) -> (r: Option<Self>)
        ensures
            start.0 >= count ==> r == Some(OldAddr((start.0 - count) as u64)),
            start.0 < count ==> r is None,
    {
        match start.0.checked_sub(count) {
            None => None,
            Some(v) => Some(OldAddr(v)),
        }
    }

    /// The start of the page that holds the address.
    pub fn floor(&self) -> (r: OldAddr)
        ensures
            r.0 == spec_floor(self.0 as int),
    {
        OldAddr::from((self.0 / (PAGE_SIZE as u64)) * (PAGE_SIZE as u64))
    }

    /// The address itself if it starts a page, else the start of the next
    /// page.
    pub fn ceil(&self) -> (r: OldAddr)
        requires
            spec_ceil(self.0 as int) <= u64::MAX,
        ensures
            r.0 == spec_ceil(self.0 as int),
    {
        OldAddr::from(
            if self.0 % (PAGE_SIZE as u64) == 0 {
                self.floor().0
            } else {
                self.floor().0 + PAGE_SIZE as u64
            },
        )
    }

    pub fn is_align(&self) -> (r: bool)
        ensures
            r == (self.0 % 4096 == 0),
    {
        self.0 % (PAGE_SIZE as u64) == 0
    }

    /// Number of whole pages below the address.
    pub fn get_pg_cnt(&self) -> (r: u64)
        ensures
            r == self.0 / 4096,
    {
        return self.0 / (PAGE_SIZE as u64);
    }

    /// The physical address behind this address of the direct map.
    pub fn get_paddr(&self) -> (r: u64)
        requires
            self.0 >= PHY_MEM_OFFSET,
        ensures
            r == self.0 - PHY_MEM_OFFSET,
    {
        self.0 - PHY_MEM_OFFSET
    }

    /// The address of this physical address in the direct map.
    pub fn get_vaddr(&self) -> (r: u64)
        requires
            self.0 + PHY_MEM_OFFSET <= u64::MAX,
        ensures
            r == self.0 + PHY_MEM_OFFSET,
    {
        self.0 + PHY_MEM_OFFSET
    }

    /// An iterator over the starts of the pages from this address, which
    /// starts a page, up to `len` further.
    pub fn page_iter(&self, len: u64) -> (it: AddrPageIter)
        requires
            self.0 % 4096 == 0,
            self.0 + len <= u64::MAX,
        ensures
            it.cur == *self,
            it.end.0 == self.0 + len,
    {
        AddrPageIter { end: (*self).add(OldAddr(len)), cur: *self }
    }
}

impl PFN {
    /// The page frame number of the address `v`.
    pub fn from(v: u64) -> (r: Self)
        ensures
            r.0 == v / 4096,
    {
        assert(v >> 12 == v / 4096) by (bit_vector);
        PFN(v >> (PAGE_OFFSET as u64))
    }

    /// The page frame number of the address `v`.
    pub fn from_addr(v: OldAddr) -> (r: Self)
        ensures
            r.0 == v.0 / 4096,
    {
        Self::from(v.0)
    }

    pub fn add(self, rhs: Self) -> (r: Self)
        requires
            self.0 + rhs.0 <= u64::MAX,
        ensures
            r.0 == self.0 + rhs.0,
    {
        PFN(self.0 + rhs.0)
    }

    pub fn sub(self, rhs: Self) -> (r: Self)
        requires
            self.0 >= rhs.0,
        ensures
            r.0 == self.0 - rhs.0,
    {
        PFN(self.0 - rhs.0)
    }

    /// Moves `n` frames up and returns the new number.
    pub fn step_n(&mut self, n: u64) -> (r: Self)
        requires
            old(self).0 + n <= u64::MAX,
        ensures
            final(self).0 == old(self).0 + n,
            r == *final(self),
    {
        self.0 += n;
        *self
    }

    /// Moves one frame up and returns the new number.
    pub fn step_one(&mut self) -> (r: Self)
        requires
            old(self).0 + 1 <= u64::MAX,
        ensures
            final(self).0 == old(self).0 + 1,
            r == *final(self),
    {
        self.0 += 1;
        *self
    }

    /// The address of the first byte of the frame.
    pub fn get_addr_usize(&self) -> (r: u64)
        requires
            self.0 < 0x10_0000_0000_0000,
        ensures
            r == self.0 * 4096,
    {
        let v = self.0;
        assert(v < 0x10_0000_0000_0000 ==> (v << 12) == v * 4096) by (bit_vector);
        self.0 << (PAGE_OFFSET as u64)
    }
}

} // verus!
