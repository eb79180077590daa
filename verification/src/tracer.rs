//! Running a system call in a stopped target.
//!
//! The target is attached and stopped; a `syscall` instruction is planted at
//! the stopped thread's RIP and run by a single step; then the code and the
//! registers are put back.
use vstd::prelude::*;

use crate::assembler;
use crate::error::{Error, IoError};
use crate::io;
use crate::io::{ReadRequest, WriteRequest};
use crate::machine;
use crate::memory;
use crate::step::Step;
use crate::sys;

verus! {

/// The registers of a thread.
#[derive(Clone, Copy, Debug, PartialEq, Eq, Structural)]
pub struct Regs {
    pub r15: u64,
    pub r14: u64,
    pub r13: u64,
    pub r12: u64,
    pub rbp: u64,
    pub rbx: u64,
    pub r11: u64,
    pub r10: u64,
    pub r9: u64,
    pub r8: u64,
    pub rax: u64,
    pub rcx: u64,
    pub rdx: u64,
    pub rsi: u64,
    pub rdi: u64,
    pub orig_rax: u64,
    pub rip: u64,
    pub cs: u64,
    pub eflags: u64,
    pub rsp: u64,
    pub ss: u64,
    pub fs_base: u64,
    pub gs_base: u64,
    pub ds: u64,
    pub es: u64,
    pub fs: u64,
    pub gs: u64,
}

/// A system call: its number and arguments.
#[derive(Clone, Copy, Debug, PartialEq, Eq)]
pub struct Syscall {
    /// The number.
    pub nr: u64,
    /// The arguments, as far as it takes any.
    pub args: [u64; 6],
}

impl Syscall {
    /// Whether this is system call `nr` on `args`.
    pub open spec fn is(self, nr: u64, args: Seq<u64>) -> bool {
        self.nr == nr && self.args@ == args
    }
}

/// `libc::WIFEXITED`: whether a wait status says that the process exited, which
/// is when its seven low bits are zero.
#[verifier::external_body]
fn wifexited(status: i32) -> (r: bool)
    ensures
        r == (status as int % 128 == 0),
{
    libc::WIFEXITED(status)
}

/// `libc::WIFSIGNALED`: whether a wait status says that a signal ended the
/// process, which is when its seven low bits are neither zero nor all ones.
#[verifier::external_body]
fn wifsignaled(status: i32) -> (r: bool)
    ensures
        r == (1 <= status as int % 128 <= 126),
{
    libc::WIFSIGNALED(status)
}

/// Whether a wait status says that the process is gone.
pub open spec fn is_gone(status: i32) -> bool {
    status as int % 128 <= 126
}

/// A wait for the target to stop.
#[derive(Debug)]
pub struct AwaitStop {}

impl AwaitStop {
    /// Go on with what `waitpid` reported: its result, the error number if that
    /// is negative, and the status otherwise. The action is to wait once more.
    ///
    /// Retries across `EINTR` and turns an unexpected exit into an error instead
    /// of silently proceeding with stale register state.
    ///
    /// # Errors
    /// [`Error::Io`] if the wait failed or the target exited.
    pub fn resume(self, result: i32, errno: i32, status: i32) -> (r: Step<
        (),
        AwaitStop,
        Result<(), Error>,
    >)
        ensures
            if result < 0 && errno == sys::EINTR {
                r is Do
            } else if result < 0 {
                r == Step::<(), AwaitStop, Result<(), Error>>::Done(
                    Err(Error::Io(IoError::Os(errno))),
                )
            } else if is_gone(status) {
                &&& r matches Step::Done(Err(Error::Io(IoError::Other(why))))
                &&& why@ == "target process exited during ptrace operation"@
            } else {
                r == Step::<(), AwaitStop, Result<(), Error>>::Done(Ok(()))
            },
    {
        if result < 0 {
            if errno == sys::EINTR {
                return Step::Do((), self);
            }
            return Step::Done(Err(Error::Io(IoError::Os(errno))));
        }
        if wifexited(status) || wifsignaled(status) {
            return Step::Done(
                Err(
                    Error::Io(
                        IoError::Other("target process exited during ptrace operation".to_owned()),
                    ),
                ),
            );
        }
        Step::Done(Ok(()))
    }
}

/// What comes of a `ptrace` request that reported `result`.
pub open spec fn ptrace_result(result: i64, errno: i32) -> Result<(), Error> {
    if result < 0 {
        Err(Error::Io(IoError::Os(errno)))
    } else {
        Ok(())
    }
}

/// An attach/detach session over a target thread: what the answers to its
/// `ptrace` requests mean. Each is given with its error number, which counts if
/// the result is negative.
#[derive(Debug)]
pub struct Tracer {
    pid: i32,
}

impl View for Tracer {
    type V = i32;

    /// The pid.
    closed spec fn view(&self) -> i32 {
        self.pid
    }
}

impl Tracer {
    /// A session over the thread.
    pub fn new(pid: i32) -> (r: Self)
        ensures
            r@ == pid,
    {
        Tracer { pid }
    }

    /// The answer to `PTRACE_ATTACH`; the target has then to be waited for.
    ///
    /// # Errors
    /// [`Error::Permission`] if the target may not be traced, or [`Error::Io`].
    pub fn attach(&self, result: i64, errno: i32) -> (r: Result<AwaitStop, Error>)
        ensures
            if result < 0 && (errno == sys::EPERM || errno == sys::EACCES) {
                r == Err::<AwaitStop, Error>(Error::Permission { pid: self@ })
            } else if result < 0 {
                r == Err::<AwaitStop, Error>(Error::Io(IoError::Os(errno)))
            } else {
                r is Ok
            },
    {
        if result < 0 {
            if errno == sys::EPERM || errno == sys::EACCES {
                return Err(Error::Permission { pid: self.pid });
            }
            return Err(Error::Io(IoError::Os(errno)));
        }
        Ok(AwaitStop {  })
    }

    /// The answer to `PTRACE_GETREGS`, with the registers that it gave.
    ///
    /// # Errors
    /// [`Error::Io`].
    pub fn getregs(&self, result: i64, errno: i32, regs: Regs) -> (r: Result<Regs, Error>)
        ensures
            match ptrace_result(result, errno) {
                Ok(()) => r == Ok::<Regs, Error>(regs),
                Err(e) => r == Err::<Regs, Error>(e),
            },
    {
        if result < 0 {
            return Err(Error::Io(IoError::Os(errno)));
        }
        Ok(regs)
    }

    /// The answer to `PTRACE_SETREGS`.
    ///
    /// # Errors
    /// [`Error::Io`].
    pub fn setregs(&self, result: i64, errno: i32) -> (r: Result<(), Error>)
        ensures
            r == ptrace_result(result, errno),
    {
        if result < 0 {
            return Err(Error::Io(IoError::Os(errno)));
        }
        Ok(())
    }

    /// The answer to `PTRACE_SINGLESTEP`; the target has then to be waited for.
    ///
    /// # Errors
    /// [`Error::Io`].
    pub fn singlestep(&self, result: i64, errno: i32) -> (r: Result<AwaitStop, Error>)
        ensures
            match ptrace_result(result, errno) {
                Ok(()) => r is Ok,
                Err(e) => r == Err::<AwaitStop, Error>(e),
            },
    {
        if result < 0 {
            return Err(Error::Io(IoError::Os(errno)));
        }
        Ok(AwaitStop {  })
    }

    /// Execute one system call in the target with up to 6 arguments, which gives
    /// RAX in the end. It starts with a read of the registers.
    pub fn inject_syscall(&self, call: Syscall) -> (r: Inject)
        ensures
            r@ == call,
    {
        Inject { call }
    }
}

/// What an injection has to know until it is done.
#[verifier::ext_equal]
pub struct Job {
    pub call: Syscall,
    /// The registers of the target as they were.
    pub saved: Regs,
    /// The code at RIP as it was.
    pub backup: Seq<u8>,
}

/// The `syscall` instruction.
pub open spec fn syscall_code() -> Seq<u8> {
    seq![0x0Fu8, 0x05]
}

impl Job {
    /// Where the instruction is planted.
    pub open spec fn site(self) -> usize {
        self.saved.rip as usize
    }

    /// The registers with which the system call runs. An original RAX of minus
    /// one keeps the kernel from restarting an interrupted call.
    pub open spec fn loaded(self) -> Regs {
        Regs {
            rax: self.call.nr,
            orig_rax: 0xFFFF_FFFF_FFFF_FFFF,
            rdi: self.call.args@[0],
            rsi: self.call.args@[1],
            rdx: self.call.args@[2],
            r10: self.call.args@[3],
            r8: self.call.args@[4],
            r9: self.call.args@[5],
            ..self.saved
        }
    }
}

/// An injection that wants the registers of the target.
#[derive(Debug)]
pub struct Inject {
    call: Syscall,
}

impl View for Inject {
    type V = Syscall;

    closed spec fn view(&self) -> Syscall {
        self.call
    }
}

/// An injection that wants the code at RIP.
#[derive(Debug)]
pub struct BackUp {
    call: Syscall,
    saved: Regs,
}

impl View for BackUp {
    type V = (Syscall, Regs);

    closed spec fn view(&self) -> (Syscall, Regs) {
        (self.call, self.saved)
    }
}

#[derive(Debug)]
struct Held {
    call: Syscall,
    saved: Regs,
    backup: Vec<u8>,
}

impl Held {
    spec fn job(self) -> Job {
        Job { call: self.call, saved: self.saved, backup: self.backup@ }
    }
}

/// An injection that plants the instruction.
#[derive(Debug)]
pub struct Plant {
    held: Held,
}

impl View for Plant {
    type V = Job;

    closed spec fn view(&self) -> Job {
        self.held.job()
    }
}

/// An injection that loads the registers of the system call.
#[derive(Debug)]
pub struct Load {
    held: Held,
}

impl View for Load {
    type V = Job;

    closed spec fn view(&self) -> Job {
        self.held.job()
    }
}

/// An injection that runs the instruction by a single step.
#[derive(Debug)]
pub struct Run {
    held: Held,
}

impl View for Run {
    type V = Job;

    closed spec fn view(&self) -> Job {
        self.held.job()
    }
}

/// An injection that wants the registers behind the system call.
#[derive(Debug)]
pub struct Collect {
    held: Held,
}

impl View for Collect {
    type V = Job;

    closed spec fn view(&self) -> Job {
        self.held.job()
    }
}

/// An injection that puts the code back.
#[derive(Debug)]
pub struct RestoreCode {
    held: Held,
    rax: u64,
}

impl View for RestoreCode {
    type V = (Job, u64);

    closed spec fn view(&self) -> (Job, u64) {
        (self.held.job(), self.rax)
    }
}

/// An injection that puts the registers back.
#[derive(Debug)]
pub struct RestoreRegs {
    rax: u64,
}

impl View for RestoreRegs {
    type V = u64;

    closed spec fn view(&self) -> u64 {
        self.rax
    }
}

impl Inject {
    /// Go on with the registers: read the two bytes of code at RIP.
    ///
    /// # Errors
    /// The error of the request.
    pub fn resume(self, regs: Result<Regs, Error>) -> (r: Result<(ReadRequest, BackUp), Error>)
        ensures
            match regs {
                Err(e) => r == Err::<(ReadRequest, BackUp), Error>(e),
                Ok(saved) => {
                    &&& r matches Ok((req, next))
                    &&& req == (ReadRequest { addr: saved.rip as usize, len: 2 })
                    &&& next@ == (self@, saved)
                },
            },
    {
        match regs {
            Err(e) => Err(e),
            Ok(saved) => Ok(
                (
                    ReadRequest { addr: saved.rip as usize, len: 2 },
                    BackUp { call: self.call, saved },
                ),
            ),
        }
    }
}

impl BackUp {
    /// Go on with the code: plant the instruction, as
    /// [`Process::write_bytes_mem`](crate::Process::write_bytes_mem) writes.
    ///
    /// # Errors
    /// The error of the read.
    pub fn resume(self, code: Result<Vec<u8>, Error>) -> (r: Result<(WriteRequest, Plant), Error>)
        requires
            code matches Ok(b) ==> b@.len() == 2,
        ensures
            match code {
                Err(e) => r == Err::<(WriteRequest, Plant), Error>(e),
                Ok(b) => {
                    &&& r matches Ok((w, next))
                    &&& next@ == (Job { call: self@.0, saved: self@.1, backup: b@ })
                    &&& w.writes(next@.site(), syscall_code())
                },
            },
    {
        match code {
            Err(e) => Err(e),
            Ok(backup) => {
                let mut bytes: Vec<u8> = Vec::new();
                bytes.push(0x0F);
                bytes.push(0x05);
                assert(bytes@ =~= syscall_code());
                let w = WriteRequest { addr: self.saved.rip as usize, bytes };
                Ok((w, Plant { held: Held { call: self.call, saved: self.saved, backup } }))
            },
        }
    }
}

impl Plant {
    /// Go on with the result of the write: load the registers.
    ///
    /// # Errors
    /// The error of the write.
    pub fn resume(self, result: Result<(), Error>) -> (r: Result<(Regs, Load), Error>)
        ensures
            match result {
                Err(e) => r == Err::<(Regs, Load), Error>(e),
                Ok(()) => r matches Ok((regs, next)) && regs == self@.loaded() && next@ == self@,
            },
    {
        match result {
            Err(e) => Err(e),
            Ok(()) => {
                let held = self.held;
                let args = held.call.args;
                let regs = Regs {
                    rax: held.call.nr,
                    orig_rax: 0xFFFF_FFFF_FFFF_FFFF,
                    rdi: args[0],
                    rsi: args[1],
                    rdx: args[2],
                    r10: args[3],
                    r8: args[4],
                    r9: args[5],
                    ..held.saved
                };
                Ok((regs, Load { held }))
            },
        }
    }
}

impl Load {
    /// Go on with the result of the request: run the instruction by a single
    /// step.
    ///
    /// # Errors
    /// The error of the request.
    pub fn resume(self, result: Result<(), Error>) -> (r: Result<Run, Error>)
        ensures
            match result {
                Err(e) => r == Err::<Run, Error>(e),
                Ok(()) => r matches Ok(next) && next@ == self@,
            },
    {
        match result {
            Err(e) => Err(e),
            Ok(()) => Ok(Run { held: self.held }),
        }
    }
}

impl Run {
    /// Go on with the result of the single step: read the registers.
    ///
    /// # Errors
    /// The error of the step.
    pub fn resume(self, result: Result<(), Error>) -> (r: Result<Collect, Error>)
        ensures
            match result {
                Err(e) => r == Err::<Collect, Error>(e),
                Ok(()) => r matches Ok(next) && next@ == self@,
            },
    {
        match result {
            Err(e) => Err(e),
            Ok(()) => Ok(Collect { held: self.held }),
        }
    }
}

impl Collect {
    /// Go on with the registers: put the code back, as
    /// [`Process::write_bytes_mem`](crate::Process::write_bytes_mem) writes.
    ///
    /// # Errors
    /// The error of the request.
    pub fn resume(self, regs: Result<Regs, Error>) -> (r: Result<(WriteRequest, RestoreCode), Error>)
        ensures
            match regs {
                Err(e) => r == Err::<(WriteRequest, RestoreCode), Error>(e),
                Ok(after) => {
                    &&& r matches Ok((w, next))
                    &&& w.writes(self@.site(), self@.backup)
                    &&& next@ == (self@, after.rax)
                },
            },
    {
        match regs {
            Err(e) => Err(e),
            Ok(after) => {
                let w = WriteRequest {
                    addr: self.held.saved.rip as usize,
                    bytes: io::copy_of(self.held.backup.as_slice()),
                };
                Ok((w, RestoreCode { held: self.held, rax: after.rax }))
            },
        }
    }
}

impl RestoreCode {
    /// Go on with the result of the write: put the registers back.
    ///
    /// # Errors
    /// The error of the write.
    pub fn resume(self, result: Result<(), Error>) -> (r: Result<(Regs, RestoreRegs), Error>)
        ensures
            match result {
                Err(e) => r == Err::<(Regs, RestoreRegs), Error>(e),
                Ok(()) => r matches Ok((regs, next)) && regs == self@.0.saved && next@ == self@.1,
            },
    {
        match result {
            Err(e) => Err(e),
            Ok(()) => Ok((self.held.saved, RestoreRegs { rax: self.rax })),
        }
    }
}

impl RestoreRegs {
    /// Finish with the result of the request: what the system call returned.
    ///
    /// # Errors
    /// The error of the request.
    pub fn resume(self, result: Result<(), Error>) -> (r: Result<i64, Error>)
        ensures
            match result {
                Err(e) => r == Err::<i64, Error>(e),
                Ok(()) => r == Ok::<i64, Error>(
                    assembler::signed64(self@ as int) as i64,
                ),
            },
    {
        match result {
            Err(e) => Err(e),
            Ok(()) => Ok(assembler::as_signed(self.rax)),
        }
    }
}

/// What the writes of an injection make of the target's code, with what the
/// system call itself made of memory in between.
pub open spec fn code_after(m: Map<int, u8>, job: Job, work: spec_fn(Map<int, u8>) -> Map<int, u8>) -> Map<
    int,
    u8,
> {
    memory::poke(
        work(memory::poke(m, job.site() as int, syscall_code())),
        job.site() as int,
        job.backup,
    )
}

/// An injection that backed up what was there leaves the code at RIP as it was,
/// whatever the system call does to the rest of memory, and runs with no
/// register changed but those of the call.
pub proof fn law_injection_restores_code(
    m: Map<int, u8>,
    job: Job,
    work: spec_fn(Map<int, u8>) -> Map<int, u8>,
)
    requires
        memory::mapped(m, job.site() as int, 2),
        job.backup == memory::peek(m, job.site() as int, 2),
        memory::mapped(
            work(memory::poke(m, job.site() as int, syscall_code())),
            job.site() as int,
            2,
        ),
    ensures
        memory::peek(code_after(m, job, work), job.site() as int, 2) == job.backup,
        work == (|x: Map<int, u8>| x) ==> code_after(m, job, work) == m,
        job.loaded().rip == job.saved.rip,
        job.loaded().rsp == job.saved.rsp,
{
    let at = job.site() as int;
    let mid = work(memory::poke(m, at, syscall_code()));
    memory::law_peek_after_poke(mid, at, job.backup);
    memory::law_writing_back_restores(m, at, syscall_code());
}

/// A system call runs with its number and arguments in the registers that the
/// kernel takes them from, with no call to restart, and with every other register
/// as it was.
pub proof fn law_registers_carry_the_call(
    t: &Tracer,
    call: Syscall,
    start: Inject,
    saved: Regs,
    req: ReadRequest,
    backing: BackUp,
    code: Vec<u8>,
    w: WriteRequest,
    planting: Plant,
    loaded: Regs,
    loading: Load,
)
    requires
        call_ensures(Tracer::inject_syscall, (t, call), start),
        call_ensures(
            Inject::resume,
            (start, Ok::<Regs, Error>(saved)),
            Ok::<(ReadRequest, BackUp), Error>((req, backing)),
        ),
        code@.len() == 2,
        call_ensures(
            BackUp::resume,
            (backing, Ok::<Vec<u8>, Error>(code)),
            Ok::<(WriteRequest, Plant), Error>((w, planting)),
        ),
        call_ensures(
            Plant::resume,
            (planting, Ok::<(), Error>(())),
            Ok::<(Regs, Load), Error>((loaded, loading)),
        ),
    ensures
        req.addr == saved.rip as usize,
        req.len == 2,
        w.addr == saved.rip as usize,
        machine::decode(w.bytes@) == Some((machine::Instr::Syscall, 2int)),
        w.bytes@.len() == 2,
        loaded.rax == call.nr,
        loaded.rdi == call.args@[0],
        loaded.rsi == call.args@[1],
        loaded.rdx == call.args@[2],
        loaded.r10 == call.args@[3],
        loaded.r8 == call.args@[4],
        loaded.r9 == call.args@[5],
        loaded.orig_rax == 0xFFFF_FFFF_FFFF_FFFF,
        loaded.r15 == saved.r15 && loaded.r14 == saved.r14 && loaded.r13 == saved.r13 && loaded.r12
            == saved.r12,
        loaded.rbp == saved.rbp && loaded.rbx == saved.rbx && loaded.r11 == saved.r11 && loaded.rcx
            == saved.rcx,
        loaded.rip == saved.rip && loaded.rsp == saved.rsp && loaded.eflags == saved.eflags,
        loaded.cs == saved.cs && loaded.ss == saved.ss && loaded.ds == saved.ds && loaded.es
            == saved.es && loaded.fs == saved.fs && loaded.gs == saved.gs,
        loaded.fs_base == saved.fs_base && loaded.gs_base == saved.gs_base,
        loading@ == (Job { call, saved, backup: code@ }),
{
    reveal(machine::decode_behind);
}

/// Once the call has run, the code that was displaced is written back to where it
/// was, every register gets back the value it had, and the result is what the
/// call left in RAX, as a signed number.
pub proof fn law_injection_puts_everything_back(
    loading: Load,
    running: Run,
    collecting: Collect,
    after: Regs,
    w: WriteRequest,
    restoring: RestoreCode,
    regs: Regs,
    ending: RestoreRegs,
    r: Result<i64, Error>,
)
    requires
        call_ensures(Load::resume, (loading, Ok::<(), Error>(())), Ok::<Run, Error>(running)),
        call_ensures(Run::resume, (running, Ok::<(), Error>(())), Ok::<Collect, Error>(collecting)),
        call_ensures(
            Collect::resume,
            (collecting, Ok::<Regs, Error>(after)),
            Ok::<(WriteRequest, RestoreCode), Error>((w, restoring)),
        ),
        call_ensures(
            RestoreCode::resume,
            (restoring, Ok::<(), Error>(())),
            Ok::<(Regs, RestoreRegs), Error>((regs, ending)),
        ),
        call_ensures(RestoreRegs::resume, (ending, Ok::<(), Error>(())), r),
    ensures
        w.addr == loading@.saved.rip as usize,
        w.bytes@ == loading@.backup,
        regs == loading@.saved,
        r matches Ok(ret) && (after.rax < 0x8000_0000_0000_0000 ==> ret == after.rax) && (after.rax
            >= 0x8000_0000_0000_0000 ==> ret == after.rax - 0x1_0000_0000_0000_0000),
{
}

/// A wait is over when the target has stopped, is repeated if it was interrupted,
/// and fails if the target is gone: by its status, unless the low seven bits of it
/// are all set, it exited or a signal ended it.
pub proof fn law_wait_ends_with_the_stop(
    w: AwaitStop,
    result: i32,
    errno: i32,
    status: i32,
    r: Step<(), AwaitStop, Result<(), Error>>,
)
    requires
        call_ensures(AwaitStop::resume, (w, result, errno, status), r),
    ensures
        r is Do <==> result < 0 && errno == 4,
        result < 0 && errno != 4 ==> r == Step::<(), AwaitStop, Result<(), Error>>::Done(
            Err(Error::Io(IoError::Os(errno))),
        ),
        result >= 0 && status as int % 128 == 127 ==> r == Step::<
            (),
            AwaitStop,
            Result<(), Error>,
        >::Done(Ok(())),
        result >= 0 && status as int % 128 != 127 ==> (r matches Step::Done(Err(e)) && e is Io),
{
}

/// A target that may not be traced is a matter of permission, and any other
/// refusal is an error of the system; else the target has to be waited for.
pub proof fn law_attaching(
    t: &Tracer,
    result: i64,
    errno: i32,
    attached: Result<AwaitStop, Error>,
    stepped: Result<AwaitStop, Error>,
    set: Result<(), Error>,
    regs: Regs,
    got: Result<Regs, Error>,
)
    requires
        call_ensures(Tracer::attach, (t, result, errno), attached),
        call_ensures(Tracer::singlestep, (t, result, errno), stepped),
        call_ensures(Tracer::setregs, (t, result, errno), set),
        call_ensures(Tracer::getregs, (t, result, errno, regs), got),
    ensures
        attached is Ok <==> result >= 0,
        stepped is Ok <==> result >= 0,
        set is Ok <==> result >= 0,
        got is Ok <==> result >= 0,
        result < 0 && (errno == 1 || errno == 13) ==> attached == Err::<AwaitStop, Error>(
            Error::Permission { pid: t@ },
        ),
        result < 0 && errno != 1 && errno != 13 ==> attached == Err::<AwaitStop, Error>(
            Error::Io(IoError::Os(errno)),
        ),
        result < 0 ==> stepped == Err::<AwaitStop, Error>(Error::Io(IoError::Os(errno))) && set
            == Err::<(), Error>(Error::Io(IoError::Os(errno))) && got == Err::<Regs, Error>(
            Error::Io(IoError::Os(errno)),
        ),
        result >= 0 ==> got == Ok::<Regs, Error>(regs),
{
}

/// An error on the way ends an injection, and is what comes of it.
pub proof fn law_errors_end_an_injection(
    e: Error,
    start: Inject,
    started: Result<(ReadRequest, BackUp), Error>,
    backing: BackUp,
    backed: Result<(WriteRequest, Plant), Error>,
    planting: Plant,
    planted: Result<(Regs, Load), Error>,
    loading: Load,
    loaded: Result<Run, Error>,
    running: Run,
    ran: Result<Collect, Error>,
    collecting: Collect,
    collected: Result<(WriteRequest, RestoreCode), Error>,
    restoring: RestoreCode,
    restored: Result<(Regs, RestoreRegs), Error>,
    ending: RestoreRegs,
    ended: Result<i64, Error>,
)
    requires
        call_ensures(Inject::resume, (start, Err::<Regs, Error>(e)), started),
        call_ensures(BackUp::resume, (backing, Err::<Vec<u8>, Error>(e)), backed),
        call_ensures(Plant::resume, (planting, Err::<(), Error>(e)), planted),
        call_ensures(Load::resume, (loading, Err::<(), Error>(e)), loaded),
        call_ensures(Run::resume, (running, Err::<(), Error>(e)), ran),
        call_ensures(Collect::resume, (collecting, Err::<Regs, Error>(e)), collected),
        call_ensures(RestoreCode::resume, (restoring, Err::<(), Error>(e)), restored),
        call_ensures(RestoreRegs::resume, (ending, Err::<(), Error>(e)), ended),
    ensures
        started == Err::<(ReadRequest, BackUp), Error>(e),
        backed == Err::<(WriteRequest, Plant), Error>(e),
        planted == Err::<(Regs, Load), Error>(e),
        loaded == Err::<Run, Error>(e),
        ran == Err::<Collect, Error>(e),
        collected == Err::<(WriteRequest, RestoreCode), Error>(e),
        restored == Err::<(Regs, RestoreRegs), Error>(e),
        ended == Err::<i64, Error>(e),
{
}

} // verus!
