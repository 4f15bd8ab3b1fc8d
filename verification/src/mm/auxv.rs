//! The auxiliary vector that a new program finds above its arguments.
use vstd::prelude::*;

verus! {

/// End of the vector.
pub const AT_NULL: usize = 0;

/// Entry should be ignored.
pub const AT_IGNORE: usize = 1;

/// File descriptor of the program.
pub const AT_EXECFD: usize = 2;

/// Program headers of the program.
pub const AT_PHDR: usize = 3;

/// Size of a program header.
pub const AT_PHENT: usize = 4;

/// Number of program headers.
pub const AT_PHNUM: usize = 5;

/// Size of a page.
pub const AT_PAGESZ: usize = 6;

/// Base address of the interpreter.
pub const AT_BASE: usize = 7;

/// Flags.
pub const AT_FLAGS: usize = 8;

/// Entry point of the program.
pub const AT_ENTRY: usize = 9;

/// The program is not an ELF file.
pub const AT_NOTELF: usize = 10;

/// Real user id.
pub const AT_UID: usize = 11;

/// Effective user id.
pub const AT_EUID: usize = 12;

/// Real group id.
pub const AT_GID: usize = 13;

/// Effective group id.
pub const AT_EGID: usize = 14;

/// String that names the platform.
pub const AT_PLATFORM: usize = 15;

/// What the processor can do.
pub const AT_HWCAP: usize = 16;

/// Frequency of the clock that `times` counts in.
pub const AT_CLKTCK: usize = 17;

/// Whether the program runs with raised rights.
pub const AT_SECURE: usize = 23;

/// One entry of the auxiliary vector.
#[derive(Clone, Copy, Debug, PartialEq, Eq, Structural)]
pub struct AuxHeader {
    pub aux_type: usize,
    pub value: usize,
}

/// The auxiliary vector of a program with the given entry point and size of
/// a program header.
pub open spec fn spec_auxv(entry: usize, ph_entry_size: usize) -> Seq<AuxHeader> {
    seq![
        AuxHeader { aux_type: AT_PHENT, value: ph_entry_size },
        AuxHeader { aux_type: AT_PHNUM, value: 0 },
        AuxHeader { aux_type: AT_PAGESZ, value: 4096 },
        AuxHeader { aux_type: AT_BASE, value: 0 },
        AuxHeader { aux_type: AT_FLAGS, value: 0 },
        AuxHeader { aux_type: AT_ENTRY, value: entry },
        AuxHeader { aux_type: AT_UID, value: 0 },
        AuxHeader { aux_type: AT_EUID, value: 0 },
        AuxHeader { aux_type: AT_GID, value: 0 },
        AuxHeader { aux_type: AT_EGID, value: 0 },
        AuxHeader { aux_type: AT_PLATFORM, value: 0 },
        AuxHeader { aux_type: AT_HWCAP, value: 0 },
        AuxHeader { aux_type: AT_CLKTCK, value: 100 },
        AuxHeader { aux_type: AT_SECURE, value: 0 },
        AuxHeader { aux_type: AT_NOTELF, value: 0x112d },
        AuxHeader { aux_type: AT_NULL, value: 0 },
    ]
}

/// The auxiliary vector of a program with the given entry point and size of
/// a program header.
pub fn make_auxv(entry: usize, ph_entry_size: usize) -> (auxv: Vec<AuxHeader>)
    ensures
        auxv@ == spec_auxv(entry, ph_entry_size),
{
    let mut auxv: Vec<AuxHeader> = Vec::new();
    auxv.push(AuxHeader { aux_type: AT_PHENT, value: ph_entry_size });
    auxv.push(AuxHeader { aux_type: AT_PHNUM, value: 0 });
    auxv.push(AuxHeader { aux_type: AT_PAGESZ, value: 4096 });
    auxv.push(AuxHeader { aux_type: AT_BASE, value: 0 });
    auxv.push(AuxHeader { aux_type: AT_FLAGS, value: 0 });
    auxv.push(AuxHeader { aux_type: AT_ENTRY, value: entry });
    auxv.push(AuxHeader { aux_type: AT_UID, value: 0 });
    auxv.push(AuxHeader { aux_type: AT_EUID, value: 0 });
    auxv.push(AuxHeader { aux_type: AT_GID, value: 0 });
    auxv.push(AuxHeader { aux_type: AT_EGID, value: 0 });
    auxv.push(AuxHeader { aux_type: AT_PLATFORM, value: 0 });
    auxv.push(AuxHeader { aux_type: AT_HWCAP, value: 0 });
    auxv.push(AuxHeader { aux_type: AT_CLKTCK, value: 100 });
    auxv.push(AuxHeader { aux_type: AT_SECURE, value: 0 });
    auxv.push(AuxHeader { aux_type: AT_NOTELF, value: 0x112d });
    auxv.push(AuxHeader { aux_type: AT_NULL, value: 0 });
    proof {
        assert(auxv@ =~= spec_auxv(entry, ph_entry_size));
    }
    auxv
}

} // verus!
