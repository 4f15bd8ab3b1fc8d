//! How a file is opened.
use vstd::prelude::*;

verus! {

/// The working directory, where a path is given relative to a directory.
pub const AT_FDCWD: isize = -100;

/// Open for reading only.
pub const O_RDONLY: u32 = 0;

/// Open for writing only.
pub const O_WRONLY: u32 = 1;

/// Open for reading and writing.
pub const O_RDWR: u32 = 2;

/// Make the file if it is not there.
pub const O_CREATE: u32 = 64;

/// Cut the file to no bytes.
pub const O_TRUNC: u32 = 1024;

/// The path must name a directory.
pub const O_DIRECTROY: u32 = 200000;

/// The file may be large.
pub const O_LARGEFILE: u32 = 100000;

/// Close the file when a program is executed.
pub const O_CLOEXEC: u32 = 2000000;

/// The flags with which a file is opened.
#[derive(Clone, Copy, Debug, PartialEq, Eq, Structural)]
pub struct OpenFlags {
    pub bits: u32,
}

impl OpenFlags {
    /// Whether all bits of `flag` are set.
    pub open spec fn spec_contains(&self, flag: u32) -> bool {
        self.bits & flag == flag
    }

    /// Whether all bits of `flag` are set.
    pub fn contains(&self, flag: u32) -> (b: bool)
        ensures
            b == self.spec_contains(flag),
    {
        self.bits & flag == flag
    }

    /// Whether the file is open for reading and writing.
    pub fn readwriteable(&self) -> (b: bool)
        ensures
            b == self.spec_contains(O_RDWR),
    {
        self.contains(O_RDWR)
    }

    /// Whether the file may be read: it is open for reading and writing,
    /// or not for writing only.
    pub fn readable(&self) -> (b: bool)
        ensures
            b == (self.spec_contains(O_RDWR) || !self.spec_contains(O_WRONLY)),
    {
        if self.readwriteable() {
            true
        } else {
            !self.contains(O_WRONLY)
        }
    }

    /// Whether the file may be written: it is open for reading and
    /// writing, or for writing only.
    pub fn writeable(&self) -> (b: bool)
        ensures
            b == (self.spec_contains(O_RDWR) || self.spec_contains(O_WRONLY)),
    {
        if self.readwriteable() {
            true
        } else {
            self.contains(O_WRONLY)
        }
    }
}

} // verus!
