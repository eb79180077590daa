//! Backend selection: userspace system calls or the `/dev/vmem` kernel driver.
use vstd::prelude::*;

use crate::step::Step;
use crate::text;

verus! {

/// The memory-access backend of this process.
#[derive(Clone, Copy, Debug, PartialEq, Eq, Structural)]
pub enum Backend {
    /// `process_vm_readv`/`writev` + `/proc/<pid>/mem`.
    Syscall,
    /// The loaded `/dev/vmem` kernel module.
    Kernel,
}

/// A selection that depends on whether the device can be opened.
#[derive(Debug)]
pub struct Probe {}

impl Probe {
    /// Finish the selection: the driver if the device could be opened, else
    /// system calls.
    pub fn resume(self, opened: bool) -> (r: Backend)
        ensures
            r == (if opened {
                Backend::Kernel
            } else {
                Backend::Syscall
            }),
    {
        if opened {
            Backend::Kernel
        } else {
            Backend::Syscall
        }
    }
}

/// Select the backend by the value of `VMEM_BACKEND`, if that is set.
///
/// Selection order:
/// 1. `syscall` forces the userspace path.
/// 2. `kernel` forces the driver (falling back to system calls if `/dev/vmem`
///    cannot be opened).
/// 3. Otherwise: use the driver if `/dev/vmem` is present, else system calls.
///
/// The action is the path of the device to open for reading and writing.
pub fn select(var: Option<&str>) -> (r: Step<String, Probe, Backend>)
    ensures
        if var matches Some(v) && v@ == "syscall"@ {
            r == Step::<String, Probe, Backend>::Done(Backend::Syscall)
        } else {
            r matches Step::Do(path, _) && path@ == "/dev/vmem"@
        },
{
    let forced = match var {
        Some(v) => text::same(
            text::chars_of(v).as_slice(),
            text::chars_of("syscall").as_slice(),
        ),
        None => false,
    };
    if forced {
        return Step::Done(Backend::Syscall);
    }
    Step::Do("/dev/vmem".to_owned(), Probe {  })
}

/// Only the value `syscall` keeps the driver from being tried; the driver is used
/// if and only if it is tried and its device can be opened.
pub proof fn law_backend_is_chosen(
    var: Option<&str>,
    r: Step<String, Probe, Backend>,
    opened: bool,
    b: Backend,
)
    requires
        call_ensures(select, (var,), r),
        r matches Step::Do(_, probe) ==> call_ensures(Probe::resume, (probe, opened), b),
    ensures
        r is Done <==> (var matches Some(v) && v@ == "syscall"@),
        r matches Step::Done(x) ==> x == Backend::Syscall,
        r matches Step::Do(path, _) ==> path@ == "/dev/vmem"@ && (b == Backend::Kernel <==> opened)
            && (b == Backend::Syscall <==> !opened),
{
}

} // verus!
