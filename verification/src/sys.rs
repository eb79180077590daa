//! Linux error numbers that carry a meaning of their own here.
use vstd::prelude::*;

verus! {

/// Operation not permitted.
pub const EPERM: i32 = 1;

/// Interrupted system call.
pub const EINTR: i32 = 4;

/// Input/output error.
pub const EIO: i32 = 5;

/// Out of memory.
pub const ENOMEM: i32 = 12;

/// Permission denied.
pub const EACCES: i32 = 13;

/// Bad address.
pub const EFAULT: i32 = 14;

} // verus!
