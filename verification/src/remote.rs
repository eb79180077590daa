//! Remote allocation ([`RemoteMem`]).
//!
//! Writing to another process cannot allocate memory in it, so to get a scratch
//! or code region in the target an `mmap` is run there (see
//! [`Tracer::inject_syscall`](crate::tracer::Tracer::inject_syscall)).
use vstd::prelude::*;

use crate::bytes;
use crate::error::{Error, IoError};
use crate::io;
use crate::io::{ReadRequest, WriteRequest};
use crate::process::Process;
use crate::prot;
use crate::tracer::Syscall;

verus! {

/// The number of `mmap`.
pub const SYS_MMAP: u64 = 9;

/// The number of `munmap`.
pub const SYS_MUNMAP: u64 = 11;

/// `MAP_PRIVATE | MAP_ANONYMOUS`.
pub const MAP_FLAGS: u64 = 0x22;

/// The error number that a system call returned, if it returned one.
pub open spec fn returned_errno(ret: i64) -> Option<i32> {
    if -4096 < ret < 0 {
        Some((-ret) as i32)
    } else {
        None
    }
}

fn errno_of(ret: i64) -> (r: Option<i32>)
    ensures
        r == returned_errno(ret),
{
    if ret < 0 && ret > -4096 {
        Some((-ret) as i32)
    } else {
        None
    }
}

/// A region allocated inside the target process.
///
/// Its owner has to free it (by an injected `munmap`) when it is dropped, unless
/// it is [`leak`](Self::leak)ed (see [`on_drop`](Self::on_drop)). Because
/// dropping frees the region, and any code or hook that points into it, you must
/// keep it for as long as you need it.
#[derive(Debug)]
#[must_use]
pub struct RemoteMem<'p> {
    proc: &'p Process,
    /// Base address of the region in the target.
    pub addr: usize,
    /// Length of the region in bytes.
    pub len: usize,
    freed: bool,
}

/// A region of the target.
#[verifier::ext_equal]
pub struct Holding {
    pub pid: i32,
    pub addr: usize,
    pub len: usize,
    /// Whether it was given back.
    pub freed: bool,
}

impl<'p> View for RemoteMem<'p> {
    type V = Holding;

    closed spec fn view(&self) -> Holding {
        Holding { pid: self.proc@, addr: self.addr, len: self.len, freed: self.freed }
    }
}

/// The arguments of the `munmap` that frees the region.
pub open spec fn unmap_args(h: Holding) -> Seq<u64> {
    seq![h.addr as u64, h.len as u64, 0, 0, 0, 0]
}

/// Whether a `munmap` of the region is asked for, which is so unless it was
/// freed.
pub open spec fn frees(r: Option<Syscall>, h: Holding) -> bool {
    if h.freed {
        r is None
    } else {
        r matches Some(call) && call.is(SYS_MUNMAP, unmap_args(h))
    }
}

impl<'p> RemoteMem<'p> {
    /// The process that the region is in.
    pub fn process(&self) -> (r: &'p Process)
        ensures
            r@ == self@.pid,
    {
        self.proc
    }

    /// Base address of the region in the target.
    pub fn base(&self) -> (r: usize)
        ensures
            r == self@.addr,
    {
        self.addr
    }

    /// Write `bytes` at `offset` within the region, as [`Process::write_force`]
    /// does.
    pub fn write(&self, offset: usize, bytes: &[u8]) -> (r: WriteRequest)
        ensures
            r.writes(self@.addr.wrapping_add(offset), bytes@),
    {
        WriteRequest { addr: self.addr.wrapping_add(offset), bytes: io::copy_of(bytes) }
    }

    /// Read `len` bytes from `offset` within the region, as
    /// [`Process::read_vec`] does.
    pub fn read(&self, offset: usize, len: usize) -> (r: ReadRequest)
        ensures
            r == (ReadRequest { addr: self@.addr.wrapping_add(offset), len }),
    {
        ReadRequest { addr: self.addr.wrapping_add(offset), len }
    }

    /// Free the region now: the system call that does so, or nothing if it was
    /// freed before.
    pub fn free(&self) -> (r: Option<Syscall>)
        ensures
            frees(r, self@),
    {
        if self.freed {
            return None;
        }
        let args: [u64; 6] = [self.addr as u64, self.len as u64, 0, 0, 0, 0];
        assert(args@ =~= unmap_args(self@));
        Some(Syscall { nr: SYS_MUNMAP, args })
    }

    /// Finish [`free`](Self::free) with what the system call gave.
    ///
    /// # Errors
    /// The error of the injection, or [`Error::Io`] carrying the `munmap` error
    /// number; the region is then not freed.
    pub fn settle(&mut self, result: Result<i64, Error>) -> (r: Result<(), Error>)
        ensures
            match result {
                Err(e) => r == Err::<(), Error>(e) && final(self)@ == old(self)@,
                Ok(ret) => match returned_errno(ret) {
                    Some(errno) => r == Err::<(), Error>(Error::Io(IoError::Os(errno)))
                        && final(self)@ == old(self)@,
                    None => r == Ok::<(), Error>(()) && final(self)@ == (Holding {
                        freed: true,
                        ..old(self)@
                    }),
                },
            },
    {
        match result {
            Err(e) => Err(e),
            Ok(ret) => match errno_of(ret) {
                Some(errno) => Err(Error::Io(IoError::Os(errno))),
                None => {
                    self.freed = true;
                    Ok(())
                },
            },
        }
    }

    /// Keep the allocation alive past this handle, and return its base address.
    pub fn leak(self) -> (r: usize)
        ensures
            r == self@.addr,
    {
        self.addr
    }

    /// The system call that has to be run when this handle is dropped.
    pub fn on_drop(&self) -> (r: Option<Syscall>)
        ensures
            frees(r, self@),
    {
        self.free()
    }
}

/// An allocation whose `mmap` is under way.
#[derive(Debug)]
pub struct Alloc<'p> {
    proc: &'p Process,
    len: usize,
}

impl<'p> View for Alloc<'p> {
    type V = (i32, usize);

    /// The pid, and the length of the region.
    closed spec fn view(&self) -> (i32, usize) {
        (self.proc@, self.len)
    }
}

impl<'p> Alloc<'p> {
    /// Finish with what the system call gave.
    ///
    /// # Errors
    /// The error of the injection, or [`Error::Io`] carrying the `mmap` error
    /// number.
    pub fn resume(self, result: Result<i64, Error>) -> (r: Result<RemoteMem<'p>, Error>)
        ensures
            match result {
                Err(e) => r == Err::<RemoteMem<'p>, Error>(e),
                Ok(ret) => match returned_errno(ret) {
                    Some(errno) => r == Err::<RemoteMem<'p>, Error>(
                        Error::Io(IoError::Os(errno)),
                    ),
                    None => r matches Ok(mem) && mem@ == (Holding {
                        pid: self@.0,
                        addr: ret as usize,
                        len: self@.1,
                        freed: false,
                    }),
                },
            },
    {
        match result {
            Err(e) => Err(e),
            Ok(ret) => match errno_of(ret) {
                Some(errno) => Err(Error::Io(IoError::Os(errno))),
                None => Ok(
                    RemoteMem { proc: self.proc, addr: ret as usize, len: self.len, freed: false },
                ),
            },
        }
    }
}

/// The arguments of the `mmap` that allocates `len` bytes.
pub open spec fn map_args(len: usize, protection: i32) -> Seq<u64> {
    seq![0, len as u64, protection as u64, MAP_FLAGS, 0xFFFF_FFFF_FFFF_FFFF, 0]
}

/// Whether an allocation starts as it has to.
pub open spec fn allocates(r: (Syscall, Alloc<'_>), pid: i32, len: usize, protection: i32) -> bool {
    &&& r.0.is(SYS_MMAP, map_args(len, protection))
    &&& r.1@ == (pid, len)
}

impl Process {
    /// Allocate `len` bytes in the target with the given protection (see
    /// [`prot`]): the `mmap(MAP_PRIVATE | MAP_ANONYMOUS)` to run there.
    pub fn allocate(&self, len: usize, protection: i32) -> (r: (Syscall, Alloc<'_>))
        ensures
            allocates(r, self@, len, protection),
    {
        let args: [u64; 6] = [
            0,
            len as u64,
            protection as u64,
            MAP_FLAGS,
            0xFFFF_FFFF_FFFF_FFFF,
            0,
        ];
        assert(args@ =~= map_args(len, protection));
        (Syscall { nr: SYS_MMAP, args }, Alloc { proc: self, len })
    }

    /// Allocate read/write/execute memory (a code cave).
    ///
    /// Shorthand for [`allocate(len, prot::RWX)`](Self::allocate).
    pub fn alloc_rwx(&self, len: usize) -> (r: (Syscall, Alloc<'_>))
        ensures
            allocates(r, self@, len, prot::RWX),
    {
        self.allocate(len, prot::RWX)
    }
}

/// An allocation asks for an anonymous private mapping of just the length and
/// protection that are wanted, wherever the kernel likes. If the kernel grants it
/// at `ret`, the region that is held starts there and is just as long.
pub proof fn law_allocation_maps_what_is_asked(
    p: &Process,
    len: usize,
    protection: i32,
    r: (Syscall, Alloc<'_>),
    ret: i64,
    mem: Result<RemoteMem<'_>, Error>,
)
    requires
        call_ensures(Process::allocate, (p, len, protection), r),
        ret >= 0,
        call_ensures(Alloc::resume, (r.1, Ok::<i64, Error>(ret)), mem),
    ensures
        r.0.nr == 9,
        r.0.args@.len() == 6,
        r.0.args@[0] == 0,
        r.0.args@[1] == len,
        0 <= protection ==> r.0.args@[2] == protection,
        r.0.args@[3] == 0x22,
        r.0.args@[4] == 0xFFFF_FFFF_FFFF_FFFF,
        r.0.args@[5] == 0,
        mem matches Ok(h) && h@.len == len && h@.addr == ret as usize && h@.pid == p@ && !h@.freed,
{
}

/// Allocating code memory asks for pages that can be read, written and executed.
pub proof fn law_rwx_asks_for_all_rights(p: &Process, len: usize, r: (Syscall, Alloc<'_>))
    requires
        call_ensures(Process::alloc_rwx, (p, len), r),
    ensures
        r.0.nr == 9,
        r.0.args@[0] == 0,
        r.0.args@[1] == len,
        r.0.args@[2] == 7,
        r.0.args@[3] == 0x22,
        r.0.args@[4] == 0xFFFF_FFFF_FFFF_FFFF,
        r.0.args@[5] == 0,
        r.1@ == (p@, len),
{
}

/// The `munmap` of a region gives back what its `mmap` mapped: the address that
/// the kernel chose, and the length that was asked for.
pub proof fn law_freeing_unmaps_what_was_mapped(
    p: &Process,
    len: usize,
    protection: i32,
    r: (Syscall, Alloc<'_>),
    ret: i64,
    mem: RemoteMem<'_>,
    freed: Option<Syscall>,
    dropped: Option<Syscall>,
)
    requires
        call_ensures(Process::allocate, (p, len, protection), r),
        ret >= 0,
        call_ensures(Alloc::resume, (r.1, Ok::<i64, Error>(ret)), Ok::<RemoteMem<'_>, Error>(mem)),
        call_ensures(RemoteMem::free, (&mem,), freed),
        call_ensures(RemoteMem::on_drop, (&mem,), dropped),
    ensures
        freed matches Some(call) && call.nr == 11 && call.args@[0] == ret as usize && call.args@[1]
            == r.0.args@[1] && call.args@[1] == len,
        dropped matches Some(call) && call.nr == 11 && call.args@[0] == ret as usize
            && call.args@[1] == r.0.args@[1] && call.args@[1] == len,
{
}

/// A region that was freed is not freed again: once its `munmap` went well there
/// is no more to do, and one that failed leaves all to be done.
pub proof fn law_freed_once(
    mem: &mut RemoteMem<'_>,
    result: Result<i64, Error>,
    r: Result<(), Error>,
    again: Option<Syscall>,
)
    requires
        call_ensures(RemoteMem::settle, (mem, result), r),
        call_ensures(RemoteMem::free, (final(mem),), again),
    ensures
        r is Ok <==> (result matches Ok(ret) && !(-4095 <= ret <= -1)),
        r is Ok ==> again is None && final(mem)@.freed,
        r is Err ==> final(mem)@ == old(mem)@,
        final(mem)@.addr == old(mem)@.addr,
        final(mem)@.len == old(mem)@.len,
        result matches Ok(ret) ==> (-4095 <= ret <= -1 ==> r == Err::<(), Error>(
            Error::Io(IoError::Os((-ret) as i32)),
        )),
        result matches Err(e) ==> r == Err::<(), Error>(e),
{
}

/// A system call failed if and only if it returned one of -4095 to -1; the error
/// number is what that takes the sign off. An allocation fails just then.
pub proof fn law_allocation_fails_with_the_call(
    a: Alloc<'_>,
    result: Result<i64, Error>,
    r: Result<RemoteMem<'_>, Error>,
)
    requires
        call_ensures(Alloc::resume, (a, result), r),
    ensures
        r is Ok <==> (result matches Ok(ret) && !(-4095 <= ret <= -1)),
        result matches Ok(ret) ==> (-4095 <= ret <= -1 ==> r == Err::<RemoteMem<'_>, Error>(
            Error::Io(IoError::Os((-ret) as i32)),
        )),
        result matches Err(e) ==> r == Err::<RemoteMem<'_>, Error>(e),
{
}

/// What is written at an offset of a region is read at that offset, and offset 0
/// is the start of the region.
pub proof fn law_offsets_count_from_the_base(
    mem: &RemoteMem<'_>,
    offset: usize,
    data: &[u8],
    len: usize,
    w: WriteRequest,
    req: ReadRequest,
)
    requires
        call_ensures(RemoteMem::write, (mem, offset, data), w),
        call_ensures(RemoteMem::read, (mem, offset, len), req),
    ensures
        w.addr == (mem@.addr + offset) % (usize::MAX + 1),
        w.bytes@ == data@,
        req.addr == (mem@.addr + offset) % (usize::MAX + 1),
        req.len == len,
{
    bytes::lemma_wraps(mem@.addr, offset);
}

/// A region that is leaked is known by its base.
pub proof fn law_leaking_gives_the_base(mem: RemoteMem<'_>, addr: usize, base: usize)
    requires
        call_ensures(RemoteMem::leak, (mem,), addr),
        call_ensures(RemoteMem::base, (&mem,), base),
    ensures
        addr == mem@.addr,
        base == mem@.addr,
{
}

} // verus!
