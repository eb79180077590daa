//! Memory-protection flags for [`Process::allocate`](crate::Process::allocate).
//!
//! These mirror the `PROT_*` bits and can be OR-ed together; the [`RWX`] and
//! [`RW`] combinations are provided for convenience.
use vstd::prelude::*;

verus! {

/// Pages may be read (`PROT_READ`).
pub const READ: i32 = 1;

/// Pages may be written (`PROT_WRITE`).
pub const WRITE: i32 = 2;

/// Pages may be executed (`PROT_EXEC`).
pub const EXEC: i32 = 4;

/// Read + write + execute: a classic code cave.
pub const RWX: i32 = 7;

/// Read + write: a data scratch buffer.
pub const RW: i32 = 3;

/// The combinations hold the bits that their names say.
pub proof fn law_combinations()
    ensures
        RWX == READ | WRITE | EXEC,
        RW == READ | WRITE,
{
    assert(7i32 == 1i32 | 2i32 | 4i32) by (bit_vector);
    assert(3i32 == 1i32 | 2i32) by (bit_vector);
}

/// The flags are the bits of the kernel's interface.
pub proof fn law_kernel_bits()
    ensures
        READ == 0x1,
        WRITE == 0x2,
        EXEC == 0x4,
        RW == 0x3,
        RWX == 0x7,
{
}

} // verus!
