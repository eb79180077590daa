//! Memory access: what each call asks of the system, and what its answer means.
use vstd::prelude::*;

use crate::error::{Error, IoError};
use crate::memory;
use crate::process;
use crate::process::Process;
use crate::step::Step;
use crate::sys;
use crate::text;

verus! {

/// A range of the target's memory to be read.
#[derive(Clone, Copy, Debug, PartialEq, Eq, Structural)]
pub struct ReadRequest {
    /// Start of the range.
    pub addr: usize,
    /// Length of the range, in bytes.
    pub len: usize,
}

/// Bytes to be written to the target's memory.
#[derive(Debug, PartialEq, Eq)]
pub struct WriteRequest {
    /// Where the first byte goes.
    pub addr: usize,
    /// The bytes.
    pub bytes: Vec<u8>,
}

impl ReadRequest {
    /// What the read gives on memory `m`.
    pub open spec fn on(self, m: Map<int, u8>) -> Result<Seq<u8>, Error> {
        if memory::mapped(m, self.addr as int, self.len as int) {
            Ok(memory::peek(m, self.addr as int, self.len as nat))
        } else {
            Err(Error::Unmapped { addr: self.addr, len: self.len })
        }
    }
}

impl WriteRequest {
    /// Whether this is a write of `s` to `addr`.
    pub open spec fn writes(self, addr: usize, s: Seq<u8>) -> bool {
        self.addr == addr && self.bytes@ == s
    }

    /// What the write makes of memory `m`.
    pub open spec fn on(self, m: Map<int, u8>) -> Map<int, u8> {
        memory::poke(m, self.addr as int, self.bytes@)
    }
}

/// A read gives back what a write to mapped memory wrote.
pub proof fn law_read_after_write(m: Map<int, u8>, w: WriteRequest)
    requires
        memory::mapped(m, w.addr as int, w.bytes@.len() as int),
    ensures
        (ReadRequest { addr: w.addr, len: w.bytes@.len() as usize }).on(w.on(m)) == Ok::<
            Seq<u8>,
            Error,
        >(w.bytes@),
{
    memory::law_peek_after_poke(m, w.addr as int, w.bytes@);
    assert(w.bytes.len() == w.bytes@.len());
    assert(memory::mapped(w.on(m), w.addr as int, w.bytes@.len() as int));
}

/// What a read gave, by its view.
pub open spec fn bytes_read(reply: Result<Vec<u8>, Error>) -> Result<Seq<u8>, Error> {
    match reply {
        Ok(b) => Ok(b@),
        Err(e) => Err(e),
    }
}

/// A copy of `s`.
pub(crate) fn copy_of(s: &[u8]) -> (r: Vec<u8>)
    ensures
        r@ == s@,
{
    let mut v: Vec<u8> = Vec::new();
    v.extend_from_slice(s);
    assert(v@ =~= s@);
    v
}

/// What an error number of a memory access means.
pub open spec fn classified(pid: i32, addr: usize, len: usize, errno: i32) -> Error {
    if errno == sys::EPERM || errno == sys::EACCES {
        Error::Permission { pid }
    } else if errno == sys::EFAULT || errno == sys::ENOMEM || errno == sys::EIO {
        Error::Unmapped { addr, len }
    } else {
        Error::Io(IoError::Os(errno))
    }
}

/// Map an error number from a memory-access system call or the kernel driver
/// onto the library's taxonomy, so that the same failure yields the same
/// [`Error`] whichever path served the request.
pub fn classify(pid: i32, addr: usize, len: usize, errno: i32) -> (r: Error)
    ensures
        r == classified(pid, addr, len, errno),
{
    if errno == sys::EPERM || errno == sys::EACCES {
        Error::Permission { pid }
    } else if errno == sys::EFAULT || errno == sys::ENOMEM || errno == sys::EIO {
        Error::Unmapped { addr, len }
    } else {
        Error::Io(IoError::Os(errno))
    }
}

/// What comes of a transfer of `len` bytes that reported `n`: an error if it is
/// negative, else the number of bytes moved.
pub open spec fn transfer_result(pid: i32, addr: usize, len: usize, n: isize, errno: i32) -> Result<
    (),
    Error,
> {
    if n < 0 {
        Err(classified(pid, addr, len, errno))
    } else if n != len {
        Err(Error::Partial { addr, wanted: len, moved: n as usize })
    } else {
        Ok(())
    }
}

/// A transfer between this process and the target that is under way.
#[derive(Debug)]
pub struct Transfer {
    pid: i32,
    addr: usize,
    len: usize,
}

/// The pid, start and length of a transfer.
pub struct Range {
    pub pid: i32,
    pub addr: usize,
    pub len: usize,
}

impl View for Transfer {
    type V = Range;

    closed spec fn view(&self) -> Range {
        Range { pid: self.pid, addr: self.addr, len: self.len }
    }
}

impl Transfer {
    /// Finish a transfer that reported `n`, with the error number if that is
    /// negative.
    ///
    /// # Errors
    /// [`Error::Permission`] if `ptrace` access is denied, [`Error::Unmapped`]
    /// if the range is not mapped, [`Error::Partial`] on a short transfer, or
    /// [`Error::Io`] for any other OS error.
    pub fn resume(self, n: isize, errno: i32) -> (r: Result<(), Error>)
        ensures
            r == transfer_result(self@.pid, self@.addr, self@.len, n, errno),
    {
        if n < 0 {
            return Err(classify(self.pid, self.addr, self.len, errno));
        }
        if n as usize != self.len {
            return Err(
                Error::Partial { addr: self.addr, wanted: self.len, moved: n as usize },
            );
        }
        Ok(())
    }
}

/// A read into a fresh buffer that is under way.
#[derive(Debug)]
pub struct ReadVec {
    transfer: Transfer,
}

impl View for ReadVec {
    type V = Range;

    closed spec fn view(&self) -> Range {
        self.transfer@
    }
}

impl ReadVec {
    /// Finish a read into `buf` that reported `n`, with the error number if
    /// that is negative.
    ///
    /// # Errors
    /// As [`Transfer::resume`].
    pub fn resume(self, n: isize, errno: i32, buf: Vec<u8>) -> (r: Result<Vec<u8>, Error>)
        requires
            buf@.len() == self@.len,
        ensures
            match transfer_result(self@.pid, self@.addr, self@.len, n, errno) {
                Ok(()) => r == Ok::<Vec<u8>, Error>(buf) && buf@.len() == self@.len,
                Err(e) => r == Err::<Vec<u8>, Error>(e),
            },
    {
        match self.transfer.resume(n, errno) {
            Ok(()) => Ok(buf),
            Err(e) => Err(e),
        }
    }
}

/// A read of `/proc/<pid>/mem`.
#[derive(Debug, PartialEq, Eq)]
pub struct MemRead {
    /// The file to open.
    pub path: String,
    /// The position to read from.
    pub offset: u64,
    /// How many bytes to read.
    pub len: usize,
}

/// A write to `/proc/<pid>/mem`.
#[derive(Debug, PartialEq, Eq)]
pub struct MemWrite {
    /// The file to open.
    pub path: String,
    /// The position to write to.
    pub offset: u64,
    /// The bytes to write.
    pub bytes: Vec<u8>,
}

/// How an access to `/proc/<pid>/mem` went.
#[derive(Debug)]
pub enum MemEvent {
    /// The file could not be opened.
    OpenFailed(IoError),
    /// The position could not be set.
    SeekFailed(IoError),
    /// Not all bytes could be moved.
    MoveFailed(IoError),
    /// All bytes were moved.
    Moved,
}

/// What comes of an access to `/proc/<pid>/mem`.
pub open spec fn mem_result(range: Range, writing: bool, ev: MemEvent) -> Result<(), Error> {
    match ev {
        MemEvent::OpenFailed(IoError::Os(e)) if e == sys::EACCES || e == sys::EPERM => Err(
            Error::Permission { pid: range.pid },
        ),
        MemEvent::OpenFailed(e) => Err(Error::Io(e)),
        MemEvent::SeekFailed(e) => Err(Error::Io(e)),
        MemEvent::MoveFailed(IoError::Os(e)) if e == sys::EIO || (writing && e == sys::EFAULT) => Err(
            Error::Unmapped { addr: range.addr, len: range.len },
        ),
        MemEvent::MoveFailed(e) => Err(Error::Io(e)),
        MemEvent::Moved => Ok(()),
    }
}

/// An access to `/proc/<pid>/mem` that is under way.
#[derive(Debug)]
pub struct MemTransfer {
    pid: i32,
    addr: usize,
    len: usize,
    writing: bool,
}

impl View for MemTransfer {
    type V = (Range, bool);

    /// The range, and whether it is written.
    closed spec fn view(&self) -> (Range, bool) {
        (Range { pid: self.pid, addr: self.addr, len: self.len }, self.writing)
    }
}

impl MemTransfer {
    /// Finish the access.
    ///
    /// # Errors
    /// [`Error::Permission`] if the mem file cannot be opened for want of
    /// rights, [`Error::Unmapped`] if the range is not mapped, or [`Error::Io`]
    /// for any other OS error.
    pub fn resume(self, ev: MemEvent) -> (r: Result<(), Error>)
        ensures
            r == mem_result(self@.0, self@.1, ev),
    {
        match ev {
            MemEvent::OpenFailed(IoError::Os(e)) => if e == sys::EACCES || e == sys::EPERM {
                Err(Error::Permission { pid: self.pid })
            } else {
                Err(Error::Io(IoError::Os(e)))
            },
            MemEvent::OpenFailed(e) => Err(Error::Io(e)),
            MemEvent::SeekFailed(e) => Err(Error::Io(e)),
            MemEvent::MoveFailed(IoError::Os(e)) => if e == sys::EIO || (self.writing && e
                == sys::EFAULT) {
                Err(Error::Unmapped { addr: self.addr, len: self.len })
            } else {
                Err(Error::Io(IoError::Os(e)))
            },
            MemEvent::MoveFailed(e) => Err(Error::Io(e)),
            MemEvent::Moved => Ok(()),
        }
    }
}

/// One way of writing to the target.
#[derive(Debug, PartialEq, Eq)]
pub enum WriteCall {
    /// As [`Process::write_bytes`] does.
    Bytes(WriteRequest),
    /// As [`Process::write_bytes_mem`] does.
    Mem(WriteRequest),
}

/// A forced write that is under way.
#[derive(Debug)]
pub struct WriteForce {
    addr: usize,
    bytes: Vec<u8>,
    fell_back: bool,
}

/// Where a forced write stands.
#[verifier::ext_equal]
pub struct Forcing {
    pub addr: usize,
    pub bytes: Seq<u8>,
    /// Whether the write goes through `/proc/<pid>/mem` by now.
    pub fell_back: bool,
}

impl View for WriteForce {
    type V = Forcing;

    closed spec fn view(&self) -> Forcing {
        Forcing { addr: self.addr, bytes: self.bytes@, fell_back: self.fell_back }
    }
}

impl WriteForce {
    /// Go on with the result of the write.
    ///
    /// The first one counts unless it is [`Error::Unmapped`], which is also
    /// what a page that is not writable gives; then the same bytes are written
    /// through `/proc/<pid>/mem`.
    pub fn resume(self, result: Result<(), Error>) -> (r: Step<
        WriteCall,
        WriteForce,
        Result<(), Error>,
    >)
        ensures
            if !self@.fell_back && result matches Err(Error::Unmapped { .. }) {
                &&& r matches Step::Do(WriteCall::Mem(req), s)
                &&& req.writes(self@.addr, self@.bytes)
                &&& s@ == (Forcing { fell_back: true, ..self@ })
            } else {
                r == Step::<WriteCall, WriteForce, Result<(), Error>>::Done(result)
            },
    {
        if !self.fell_back && matches!(result, Err(Error::Unmapped { .. })) {
            let req = WriteRequest { addr: self.addr, bytes: copy_of(self.bytes.as_slice()) };
            Step::Do(WriteCall::Mem(req), WriteForce { fell_back: true, ..self })
        } else {
            Step::Done(result)
        }
    }
}

impl Process {
    /// Read `len` bytes from `addr`, with one `process_vm_readv` and no
    /// `ptrace`-stop. Reading zero bytes always succeeds.
    pub fn read_bytes(&self, addr: usize, len: usize) -> (r: Step<
        ReadRequest,
        Transfer,
        Result<(), Error>,
    >)
        ensures
            if len == 0 {
                r == Step::<ReadRequest, Transfer, Result<(), Error>>::Done(Ok(()))
            } else {
                &&& r matches Step::Do(req, t)
                &&& req == (ReadRequest { addr, len })
                &&& t@ == (Range { pid: self@, addr, len })
            },
    {
        if len == 0 {
            return Step::Done(Ok(()));
        }
        Step::Do(ReadRequest { addr, len }, Transfer { pid: self.pid(), addr, len })
    }

    /// Read `len` bytes from `addr` into a fresh `Vec`, as
    /// [`read_bytes`](Self::read_bytes) does.
    pub fn read_vec(&self, addr: usize, len: usize) -> (r: Step<
        ReadRequest,
        ReadVec,
        Result<Vec<u8>, Error>,
    >)
        ensures
            if len == 0 {
                r matches Step::Done(Ok(v)) && v@.len() == 0
            } else {
                &&& r matches Step::Do(req, t)
                &&& req == (ReadRequest { addr, len })
                &&& t@ == (Range { pid: self@, addr, len })
            },
    {
        match self.read_bytes(addr, len) {
            Step::Do(req, transfer) => Step::Do(req, ReadVec { transfer }),
            Step::Done(Ok(())) => Step::Done(Ok(Vec::new())),
            Step::Done(Err(e)) => Step::Done(Err(e)),
        }
    }

    /// Write `buf` to `addr`, with one `process_vm_writev`.
    ///
    /// This path cannot write to read-only pages (e.g. `.text`); use
    /// [`write_force`](Self::write_force) or
    /// [`write_bytes_mem`](Self::write_bytes_mem) for those. Writing zero bytes
    /// always succeeds.
    pub fn write_bytes(&self, addr: usize, buf: &[u8]) -> (r: Step<
        WriteRequest,
        Transfer,
        Result<(), Error>,
    >)
        ensures
            if buf@.len() == 0 {
                r == Step::<WriteRequest, Transfer, Result<(), Error>>::Done(Ok(()))
            } else {
                &&& r matches Step::Do(req, t)
                &&& req.writes(addr, buf@)
                &&& t@ == (Range { pid: self@, addr, len: buf@.len() as usize })
            },
    {
        if buf.len() == 0 {
            return Step::Done(Ok(()));
        }
        Step::Do(
            WriteRequest { addr, bytes: copy_of(buf) },
            Transfer { pid: self.pid(), addr, len: buf.len() },
        )
    }

    /// Read `len` bytes from `addr` via `/proc/<pid>/mem`.
    ///
    /// Same permission rules as the `vm_*` system calls, but works when those
    /// are unavailable (old kernels, seccomp filters).
    pub fn read_bytes_mem(&self, addr: usize, len: usize) -> (r: (MemRead, MemTransfer))
        ensures
            r.0.path@ == process::spec_proc_file(self@, "mem"@),
            r.0.offset == addr,
            r.0.len == len,
            r.1@ == (Range { pid: self@, addr, len }, false),
    {
        let path = process::proc_file(self.pid(), "mem");
        (
            MemRead { path, offset: addr as u64, len },
            MemTransfer { pid: self.pid(), addr, len, writing: false },
        )
    }

    /// Write `buf` to `addr` via `/proc/<pid>/mem`.
    ///
    /// Unlike [`write_bytes`](Self::write_bytes), this path can modify
    /// read-only mappings such as `.text`, exactly how a debugger writes a
    /// breakpoint. This is what makes code patching work.
    pub fn write_bytes_mem(&self, addr: usize, buf: &[u8]) -> (r: (MemWrite, MemTransfer))
        ensures
            r.0.path@ == process::spec_proc_file(self@, "mem"@),
            r.0.offset == addr,
            r.0.bytes@ == buf@,
            r.1@ == (Range { pid: self@, addr, len: buf@.len() as usize }, true),
    {
        let path = process::proc_file(self.pid(), "mem");
        (
            MemWrite { path, offset: addr as u64, bytes: copy_of(buf) },
            MemTransfer { pid: self.pid(), addr, len: buf.len(), writing: true },
        )
    }

    /// Write that succeeds even on read-only code pages: tries
    /// [`write_bytes`](Self::write_bytes) first. All patching goes through
    /// here.
    pub fn write_force(&self, addr: usize, buf: &[u8]) -> (r: (WriteCall, WriteForce))
        ensures
            r.0 matches WriteCall::Bytes(req) && req.writes(addr, buf@),
            r.1@ == (Forcing { addr, bytes: buf@, fell_back: false }),
    {
        (
            WriteCall::Bytes(WriteRequest { addr, bytes: copy_of(buf) }),
            WriteForce { addr, bytes: copy_of(buf), fell_back: false },
        )
    }
}

/// Whether `reply` is what a read gives on memory `m`: all the bytes if every one
/// of them is mapped, and the error for unmapped memory if not.
pub open spec fn answered(m: Map<int, u8>, req: ReadRequest, reply: Result<Vec<u8>, Error>) -> bool {
    if memory::mapped(m, req.addr as int, req.len as int) {
        reply matches Ok(b) && b@ == memory::peek(m, req.addr as int, req.len as nat)
    } else {
        reply matches Err(Error::Unmapped { addr, len }) && addr == req.addr && len == req.len
    }
}

/// A failed access is a matter of permission for error numbers 1 and 13, one of
/// unmapped memory for 5, 12 and 14, and an error of the system for any other.
pub proof fn law_error_numbers(pid: i32, addr: usize, len: usize, errno: i32, r: Error)
    requires
        call_ensures(classify, (pid, addr, len, errno), r),
    ensures
        match r {
            Error::Permission { pid: p } => (errno == 1 || errno == 13) && p == pid,
            Error::Unmapped { addr: a, len: l } => (errno == 5 || errno == 12 || errno == 14) && a
                == addr && l == len,
            Error::Io(IoError::Os(e)) => e == errno && errno != 1 && errno != 13 && errno != 5
                && errno != 12 && errno != 14,
            _ => false,
        },
{
}

/// A read asks for just the range that is wanted. It is given if and only if all of
/// the range was moved; then it is what was read.
pub proof fn law_read_is_all_or_error(
    p: &Process,
    addr: usize,
    len: usize,
    started: Step<ReadRequest, ReadVec, Result<Vec<u8>, Error>>,
    n: isize,
    errno: i32,
    buf: Vec<u8>,
    r: Result<Vec<u8>, Error>,
)
    requires
        call_ensures(Process::read_vec, (p, addr, len), started),
        buf@.len() == len,
        started matches Step::Do(_, t) && call_ensures(ReadVec::resume, (t, n, errno, buf), r),
    ensures
        len > 0,
        started matches Step::Do(req, _) && req.addr == addr && req.len == len,
        r is Ok <==> n == len,
        r matches Ok(b) ==> b@ == buf@,
        n >= 0 && n != len ==> r == Err::<Vec<u8>, Error>(
            Error::Partial { addr, wanted: len, moved: n as usize },
        ),
        n < 0 ==> r == Err::<Vec<u8>, Error>(classified(p@, addr, len, errno)),
{
}

/// A read or a write of nothing succeeds at once, and none other does.
pub proof fn law_nothing_needs_no_call(
    p: &Process,
    addr: usize,
    len: usize,
    buf: &[u8],
    read: Step<ReadRequest, Transfer, Result<(), Error>>,
    fresh: Step<ReadRequest, ReadVec, Result<Vec<u8>, Error>>,
    write: Step<WriteRequest, Transfer, Result<(), Error>>,
)
    requires
        call_ensures(Process::read_bytes, (p, addr, len), read),
        call_ensures(Process::read_vec, (p, addr, len), fresh),
        call_ensures(Process::write_bytes, (p, addr, buf), write),
    ensures
        read is Done <==> len == 0,
        fresh is Done <==> len == 0,
        write is Done <==> buf@.len() == 0,
        read matches Step::Done(r) ==> r is Ok,
        fresh matches Step::Done(r) ==> (r matches Ok(v) && v@.len() == 0),
        write matches Step::Done(r) ==> r is Ok,
        read matches Step::Do(req, _) ==> req.addr == addr && req.len == len,
        write matches Step::Do(req, _) ==> req.addr == addr && req.bytes@ == buf@,
{
}

/// A transfer succeeds if and only if all of its bytes were moved.
pub proof fn law_write_is_all_or_error(
    p: &Process,
    addr: usize,
    buf: &[u8],
    req: WriteRequest,
    t: Transfer,
    n: isize,
    errno: i32,
    r: Result<(), Error>,
)
    requires
        call_ensures(
            Process::write_bytes,
            (p, addr, buf),
            Step::<WriteRequest, Transfer, Result<(), Error>>::Do(req, t),
        ),
        call_ensures(Transfer::resume, (t, n, errno), r),
    ensures
        req.addr == addr,
        req.bytes@ == buf@,
        r is Ok <==> n == buf@.len(),
        n >= 0 && n != buf@.len() ==> r == Err::<(), Error>(
            Error::Partial { addr, wanted: buf@.len() as usize, moved: n as usize },
        ),
        n < 0 ==> r == Err::<(), Error>(classified(p@, addr, buf@.len() as usize, errno)),
{
    assert(buf@.len() == buf.len());
}

/// A forced write asks for an ordinary write first. Only if that found the memory
/// not mapped, as it does of pages that may not be written, are the same bytes
/// written to the same place through the memory file; what comes of that is what
/// comes of all.
pub proof fn law_forced_write_falls_back_once(
    p: &Process,
    addr: usize,
    buf: &[u8],
    started: (WriteCall, WriteForce),
    first: Result<(), Error>,
    r: Step<WriteCall, WriteForce, Result<(), Error>>,
    second: Result<(), Error>,
    end: Step<WriteCall, WriteForce, Result<(), Error>>,
)
    requires
        call_ensures(Process::write_force, (p, addr, buf), started),
        call_ensures(WriteForce::resume, (started.1, first), r),
        r matches Step::Do(_, t) ==> call_ensures(WriteForce::resume, (t, second), end),
    ensures
        started.0 matches WriteCall::Bytes(w) && w.addr == addr && w.bytes@ == buf@,
        r is Do <==> first matches Err(Error::Unmapped { .. }),
        r matches Step::Do(call, _) ==> (call matches WriteCall::Mem(w) && w.addr == addr
            && w.bytes@ == buf@),
        r matches Step::Done(x) ==> x == first,
        r is Do ==> end == Step::<WriteCall, WriteForce, Result<(), Error>>::Done(second),
{
}

/// The memory file of a process is opened at the address, to move all of the
/// bytes.
pub proof fn law_memory_file(
    p: &Process,
    addr: usize,
    len: usize,
    buf: &[u8],
    read: (MemRead, MemTransfer),
    write: (MemWrite, MemTransfer),
)
    requires
        call_ensures(Process::read_bytes_mem, (p, addr, len), read),
        call_ensures(Process::write_bytes_mem, (p, addr, buf), write),
    ensures
        0 <= p@ ==> read.0.path@ == "/proc/"@ + text::in_decimal(p@ as nat) + "/"@ + "mem"@,
        read.0.offset == addr,
        read.0.len == len,
        write.0.path@ == read.0.path@,
        write.0.offset == addr,
        write.0.bytes@ == buf@,
{
    if 0 <= p@ {
        text::law_numbers_are_written_in_digits(p@ as nat);
    }
}

/// An access through the memory file fails for want of permission if the file may
/// not be opened, and for unmapped memory if the bytes cannot be moved there; it
/// succeeds if and only if they were moved.
pub proof fn law_memory_file_errors(
    p: &Process,
    addr: usize,
    len: usize,
    buf: &[u8],
    read: (MemRead, MemTransfer),
    write: (MemWrite, MemTransfer),
    ev: MemEvent,
    r: Result<(), Error>,
    w: Result<(), Error>,
)
    requires
        call_ensures(Process::read_bytes_mem, (p, addr, len), read),
        call_ensures(Process::write_bytes_mem, (p, addr, buf), write),
        call_ensures(MemTransfer::resume, (read.1, ev), r),
        call_ensures(MemTransfer::resume, (write.1, ev), w),
    ensures
        r is Ok <==> ev is Moved,
        w is Ok <==> ev is Moved,
        ev matches MemEvent::OpenFailed(IoError::Os(e)) ==> ((e == 1 || e == 13) ==> r == Err::<
            (),
            Error,
        >(Error::Permission { pid: p@ }) && w == r) && (e != 1 && e != 13 ==> r == Err::<
            (),
            Error,
        >(Error::Io(IoError::Os(e))) && w == r),
        ev matches MemEvent::MoveFailed(IoError::Os(e)) ==> (e == 5 ==> r == Err::<(), Error>(
            Error::Unmapped { addr, len },
        )) && (e == 5 || e == 14 ==> w == Err::<(), Error>(
            Error::Unmapped { addr, len: buf@.len() as usize },
        )) && (e != 5 ==> r == Err::<(), Error>(Error::Io(IoError::Os(e)))) && (e != 5 && e != 14
            ==> w == Err::<(), Error>(Error::Io(IoError::Os(e)))),
        ev matches MemEvent::SeekFailed(e) ==> r == Err::<(), Error>(Error::Io(e)) && w == r,
{
    assert(buf@.len() == buf.len());
}

} // verus!
