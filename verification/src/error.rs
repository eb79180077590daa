//! The library's [`Error`] taxonomy.
use vstd::prelude::*;

use crate::text;

verus! {

/// An operating-system or I/O error, as plain values.
#[derive(Debug)]
pub enum IoError {
    /// The system reported this error number.
    Os(i32),
    /// The file ended too early; in words.
    UnexpectedEof(String),
    /// The file took no more bytes; in words.
    WriteZero(String),
    /// What was read is not text; in words.
    InvalidData(String),
    /// Something else that has no error number, in words.
    Other(String),
}

/// Errors produced by this library.
///
/// This enum is `#[non_exhaustive]`: matching on it must have a `_` arm so that
/// future additions are not breaking changes.
#[derive(Debug)]
#[non_exhaustive]
pub enum Error {
    /// No process matched the requested name or pid.
    ProcessNotFound(String),
    /// The named module is not mapped in the target process.
    ModuleNotFound {
        /// The module basename that was searched for.
        module: String,
        /// The target pid that was searched.
        pid: i32,
    },
    /// `EPERM`/`EACCES`. Usually Yama: see
    /// `/proc/sys/kernel/yama/ptrace_scope`, grant `cap_sys_ptrace`, or elevate.
    Permission {
        /// The target pid that could not be accessed.
        pid: i32,
    },
    /// The address (or part of the range) is not mapped in the target.
    Unmapped {
        /// Start of the offending range.
        addr: usize,
        /// Length of the offending range, in bytes.
        len: usize,
    },
    /// The kernel transferred fewer bytes than requested (a short read/write,
    /// typically because the range straddles a mapped/unmapped boundary).
    Partial {
        /// Start of the transfer.
        addr: usize,
        /// Bytes requested.
        wanted: usize,
        /// Bytes actually moved.
        moved: usize,
    },
    /// A signature scan found no match.
    PatternNotFound(String),
    /// A signature or mask string was malformed: a bad hex token in
    /// [`Pattern::parse`](crate::Pattern::parse), or a pattern/mask length
    /// mismatch in [`Pattern::from_mask`](crate::Pattern::from_mask).
    InvalidPattern(String),
    /// A `rel32` relative branch cannot reach its target (more than 2 GiB away);
    /// use an absolute jump instead.
    BranchTooFar {
        /// Source address of the branch.
        from: usize,
        /// Destination address of the branch.
        to: usize,
    },
    /// The region to patch is smaller than the encoding requires.
    PatchTooSmall {
        /// Minimum number of bytes required.
        need: usize,
        /// Number of bytes available.
        got: usize,
    },
    /// An underlying OS/I/O error not covered by a more specific variant.
    Io(IoError),
}

impl Error {
    /// The error in words; nothing for an error number, whose wording is the
    /// system's.
    pub open spec fn text(self) -> Option<Seq<char>> {
        match self {
            Error::ProcessNotFound(name) => Some("process '"@ + name@ + "' not found"@),
            Error::ModuleNotFound { module, pid } => Some(
                "module '"@ + module@ + "' not found in pid "@ + text::decimal(pid as int),
            ),
            Error::Permission { pid } => Some(
                "permission denied accessing pid "@ + text::decimal(pid as int)
                    + " (check /proc/sys/kernel/yama/ptrace_scope or grant cap_sys_ptrace)"@,
            ),
            Error::Unmapped { addr, len } => Some(
                "address "@ + text::hexadecimal(addr as nat) + " (+"@ + text::decimal(len as int)
                    + ") is not fully mapped in the target"@,
            ),
            Error::Partial { addr, wanted, moved } => Some(
                "partial transfer at "@ + text::hexadecimal(addr as nat) + ": wanted "@
                    + text::decimal(wanted as int) + " bytes, moved "@ + text::decimal(
                    moved as int,
                ),
            ),
            Error::PatternNotFound(sig) => Some("pattern '"@ + sig@ + "' not found"@),
            Error::InvalidPattern(why) => Some("invalid pattern: "@ + why@),
            Error::BranchTooFar { from, to } => Some(
                "rel32 from "@ + text::hexadecimal(from as nat) + " to "@ + text::hexadecimal(
                    to as nat,
                ) + " is out of range; use an absolute jmp"@,
            ),
            Error::PatchTooSmall { need, got } => Some(
                "patch region of "@ + text::decimal(got as int)
                    + " byte(s) is too small; need at least "@ + text::decimal(need as int),
            ),
            Error::Io(IoError::Os(_)) => None,
            Error::Io(IoError::UnexpectedEof(why)) => Some(why@),
            Error::Io(IoError::WriteZero(why)) => Some(why@),
            Error::Io(IoError::InvalidData(why)) => Some(why@),
            Error::Io(IoError::Other(why)) => Some(why@),
        }
    }

    /// The error in words; nothing for an error number, whose wording is the
    /// system's.
    pub fn message(&self) -> (r: Option<String>)
        ensures
            match r {
                Some(s) => self.text() == Some(s@),
                None => self.text() is None,
            },
    {
        let mut s: String = String::new();
        match self {
            Error::ProcessNotFound(name) => {
                s.append("process '");
                s.append(name.as_str());
                s.append("' not found");
            },
            Error::ModuleNotFound { module, pid } => {
                s.append("module '");
                s.append(module.as_str());
                s.append("' not found in pid ");
                text::push_decimal(&mut s, *pid as i64);
            },
            Error::Permission { pid } => {
                s.append("permission denied accessing pid ");
                text::push_decimal(&mut s, *pid as i64);
                s.append(" (check /proc/sys/kernel/yama/ptrace_scope or grant cap_sys_ptrace)");
            },
            Error::Unmapped { addr, len } => {
                s.append("address ");
                text::push_hexadecimal(&mut s, *addr);
                s.append(" (+");
                text::push_count(&mut s, *len);
                s.append(") is not fully mapped in the target");
            },
            Error::Partial { addr, wanted, moved } => {
                s.append("partial transfer at ");
                text::push_hexadecimal(&mut s, *addr);
                s.append(": wanted ");
                text::push_count(&mut s, *wanted);
                s.append(" bytes, moved ");
                text::push_count(&mut s, *moved);
            },
            Error::PatternNotFound(sig) => {
                s.append("pattern '");
                s.append(sig.as_str());
                s.append("' not found");
            },
            Error::InvalidPattern(why) => {
                s.append("invalid pattern: ");
                s.append(why.as_str());
            },
            Error::BranchTooFar { from, to } => {
                s.append("rel32 from ");
                text::push_hexadecimal(&mut s, *from);
                s.append(" to ");
                text::push_hexadecimal(&mut s, *to);
                s.append(" is out of range; use an absolute jmp");
            },
            Error::PatchTooSmall { need, got } => {
                s.append("patch region of ");
                text::push_count(&mut s, *got);
                s.append(" byte(s) is too small; need at least ");
                text::push_count(&mut s, *need);
            },
            Error::Io(IoError::Os(_)) => {
                return None;
            },
            Error::Io(IoError::UnexpectedEof(why)) => {
                s.append(why.as_str());
            },
            Error::Io(IoError::WriteZero(why)) => {
                s.append(why.as_str());
            },
            Error::Io(IoError::InvalidData(why)) => {
                s.append(why.as_str());
            },
            Error::Io(IoError::Other(why)) => {
                s.append(why.as_str());
            },
        }
        assert(s@ =~= self.text()->0);
        Some(s)
    }
}

/// Addresses are told in hexadecimal behind `0x`, and numbers in decimal, whatever
/// their size.
pub proof fn law_messages_tell_the_numbers(e: Error, r: Option<String>)
    requires
        call_ensures(Error::message, (&e,), r),
    ensures
        r is None <==> (e matches Error::Io(IoError::Os(_))),
        e matches Error::Unmapped { addr, len } ==> (r matches Some(s) && s@ == "address "@ + (seq![
            '0',
            'x',
        ] + text::in_hex(addr as nat)) + " (+"@ + text::in_decimal(len as nat)
            + ") is not fully mapped in the target"@),
        e matches Error::Partial { addr, wanted, moved } ==> (r matches Some(s) && s@
            == "partial transfer at "@ + (seq!['0', 'x'] + text::in_hex(addr as nat)) + ": wanted "@
            + text::in_decimal(wanted as nat) + " bytes, moved "@ + text::in_decimal(
            moved as nat,
        )),
        e matches Error::BranchTooFar { from, to } ==> (r matches Some(s) && s@ == "rel32 from "@
            + (seq!['0', 'x'] + text::in_hex(from as nat)) + " to "@ + (seq!['0', 'x']
            + text::in_hex(to as nat)) + " is out of range; use an absolute jmp"@),
        e matches Error::PatchTooSmall { need, got } ==> (r matches Some(s) && s@
            == "patch region of "@ + text::in_decimal(got as nat)
            + " byte(s) is too small; need at least "@ + text::in_decimal(need as nat)),
        e matches Error::ProcessNotFound(name) ==> (r matches Some(s) && s@ == "process '"@ + name@
            + "' not found"@),
        e matches Error::ModuleNotFound { module, pid } ==> (0 <= pid ==> (r matches Some(s) && s@
            == "module '"@ + module@ + "' not found in pid "@ + text::in_decimal(pid as nat))),
        e matches Error::PatternNotFound(sig) ==> (r matches Some(s) && s@ == "pattern '"@ + sig@
            + "' not found"@),
        e matches Error::InvalidPattern(why) ==> (r matches Some(s) && s@ == "invalid pattern: "@
            + why@),
{
    match e {
        Error::Unmapped { addr, len } => {
            text::law_numbers_are_written_in_digits(addr as nat);
            text::law_numbers_are_written_in_digits(len as nat);
        },
        Error::Partial { addr, wanted, moved } => {
            text::law_numbers_are_written_in_digits(addr as nat);
            text::law_numbers_are_written_in_digits(wanted as nat);
            text::law_numbers_are_written_in_digits(moved as nat);
        },
        Error::BranchTooFar { from, to } => {
            text::law_numbers_are_written_in_digits(from as nat);
            text::law_numbers_are_written_in_digits(to as nat);
        },
        Error::PatchTooSmall { need, got } => {
            text::law_numbers_are_written_in_digits(need as nat);
            text::law_numbers_are_written_in_digits(got as nat);
        },
        Error::ModuleNotFound { module, pid } => {
            if 0 <= pid {
                text::law_numbers_are_written_in_digits(pid as nat);
            }
        },
        _ => {},
    }
}

} // verus!
