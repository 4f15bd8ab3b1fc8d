//! What the trap handler hands to the rest of the kernel.
use vstd::prelude::*;

verus! {

/// The kind of access that a page fault came from.
#[derive(Clone, Copy, Debug, PartialEq, Eq, Structural)]
pub enum PgFaultProt {
    Read,
    Write,
    EXEC,
}


/// The registers of a task as they were when it trapped: the program
/// counter, the general registers, and what the trap was about.
#[derive(Clone, Copy)]
pub struct TrapFrame {
    pub sepc: usize,
    pub x1: usize,
    pub x2: usize,
    pub x3: usize,
    pub x4: usize,
    pub x5: usize,
    pub x6: usize,
    pub x7: usize,
    pub x8: usize,
    pub x9: usize,
    pub x10: usize,
    pub x11: usize,
    pub x12: usize,
    pub x13: usize,
    pub x14: usize,
    pub x15: usize,
    pub x16: usize,
    pub x17: usize,
    pub x18: usize,
    pub x19: usize,
    pub x20: usize,
    pub x21: usize,
    pub x22: usize,
    pub x23: usize,
    pub x24: usize,
    pub x25: usize,
    pub x26: usize,
    pub x27: usize,
    pub x28: usize,
    pub x29: usize,
    pub x30: usize,
    pub x31: usize,
    pub scause: usize,
    pub sscratch: usize,
    pub sstatus: usize,
}

impl TrapFrame {
    /// A frame with every register 0.
    pub fn new_empty() -> (t: Self)
        ensures
            t.sepc == 0,
            t.x1 == 0,
            t.x2 == 0,
            t.x3 == 0,
            t.x4 == 0,
            t.x5 == 0,
            t.x6 == 0,
            t.x7 == 0,
            t.x8 == 0,
            t.x9 == 0,
            t.x10 == 0,
            t.x11 == 0,
            t.x12 == 0,
            t.x13 == 0,
            t.x14 == 0,
            t.x15 == 0,
            t.x16 == 0,
            t.x17 == 0,
            t.x18 == 0,
            t.x19 == 0,
            t.x20 == 0,
            t.x21 == 0,
            t.x22 == 0,
            t.x23 == 0,
            t.x24 == 0,
            t.x25 == 0,
            t.x26 == 0,
            t.x27 == 0,
            t.x28 == 0,
            t.x29 == 0,
            t.x30 == 0,
            t.x31 == 0,
            t.scause == 0,
            t.sscratch == 0,
            t.sstatus == 0,
    {
        TrapFrame {
            sepc: 0,
            x1: 0,
            x2: 0,
            x3: 0,
            x4: 0,
            x5: 0,
            x6: 0,
            x7: 0,
            x8: 0,
            x9: 0,
            x10: 0,
            x11: 0,
            x12: 0,
            x13: 0,
            x14: 0,
            x15: 0,
            x16: 0,
            x17: 0,
            x18: 0,
            x19: 0,
            x20: 0,
            x21: 0,
            x22: 0,
            x23: 0,
            x24: 0,
            x25: 0,
            x26: 0,
            x27: 0,
            x28: 0,
            x29: 0,
            x30: 0,
            x31: 0,
            scause: 0,
            sscratch: 0,
            sstatus: 0,
        }
    }

    /// Sets the result of the call that trapped to 0, which stands for
    /// success.
    pub fn ok(&mut self)
        ensures
            *final(self) == (TrapFrame { x10: 0, ..*old(self) }),
    {
        self.x10 = 0;
    }

    /// Sets the result of the call that trapped.
    pub fn ret(&mut self, val: usize)
        ensures
            *final(self) == (TrapFrame { x10: val, ..*old(self) }),
    {
        self.x10 = val;
    }

    /// Sets the result of the call that trapped to -1, which stands for
    /// failure.
    pub fn err(&mut self)
        ensures
            *final(self) == (TrapFrame { x10: usize::MAX, ..*old(self) }),
    {
        self.x10 = usize::MAX;
    }

    /// The first argument of the call that trapped.
    pub fn arg0(&self) -> (a: usize)
        ensures
            a == self.x10,
    {
        self.x10
    }

    /// The second argument of the call that trapped.
    pub fn arg1(&self) -> (a: usize)
        ensures
            a == self.x11,
    {
        self.x11
    }

    /// The third argument of the call that trapped.
    pub fn arg2(&self) -> (a: usize)
        ensures
            a == self.x12,
    {
        self.x12
    }

    /// The fourth argument of the call that trapped.
    pub fn arg3(&self) -> (a: usize)
        ensures
            a == self.x13,
    {
        self.x13
    }

    /// The fifth argument of the call that trapped.
    pub fn arg4(&self) -> (a: usize)
        ensures
            a == self.x14,
    {
        self.x14
    }

    /// The sixth argument of the call that trapped.
    pub fn arg5(&self) -> (a: usize)
        ensures
            a == self.x15,
    {
        self.x15
    }
}

} // verus!
