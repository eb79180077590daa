//! The protocol of the `/dev/vmem` kernel module.
//!
//! The [`VmemIo`] fields and the [`VMEM_RW`] ioctl number are the contract with
//! the module; they must match byte for byte.
use vstd::prelude::*;

use crate::bytes;
use crate::error::Error;
use crate::io;
use crate::step::Step;

verus! {

/// The ioctl request payload.
#[derive(Clone, Copy, Debug, PartialEq, Eq, Structural)]
pub struct VmemIo {
    /// The target.
    pub pid: i32,
    /// 0 = read, 1 = write.
    pub write: u32,
    /// Address in the target.
    pub addr: u64,
    /// How many bytes to move.
    pub len: u64,
    /// Userspace pointer to the data buffer.
    pub ubuf: u64,
}

/// The number of an ioctl of group `V` that reads and writes `size` bytes.
pub open spec fn spec_iowr(nr: u32, size: usize) -> u64 {
    ((3u32 << 30) | (0x56u32 << 8) | nr | ((size as u32) << 16)) as u64
}

/// `_IOWR('V', nr, struct vmem_io)`: the generic Linux ioctl encoding.
pub fn iowr(nr: u32, size: usize) -> (r: u64)
    ensures
        r == spec_iowr(nr, size),
{
    ((3u32 << 30) | (0x56u32 << 8) | nr | ((size as u32) << 16)) as u64
}

/// The fields of an ioctl number do not overlap: two bits of direction, 14 of
/// size, 8 of group and 8 of number.
pub proof fn law_iowr_fields(nr: u32, size: u32)
    requires
        nr < 0x100,
        size < 0x4000,
    ensures
        spec_iowr(nr, size as usize) == 0xC000_0000 + size * 0x1_0000 + 0x5600 + nr,
{
    assert(((3u32 << 30) | (0x56u32 << 8) | nr | (size << 16)) == 0xC000_0000u32 + size * 0x1_0000
        + 0x5600 + nr) by (bit_vector)
        requires
            nr < 0x100,
            size < 0x4000,
    ;
    assert((size as usize) as u32 == size);
}

/// The ioctl that moves memory.
pub const VMEM_RW: u64 = 0xC020_5600;

/// [`VMEM_RW`] is ioctl 0 of group `V`, with a payload of 32 bytes.
pub proof fn law_vmem_rw()
    ensures
        VMEM_RW == spec_iowr(0, 32),
{
    law_iowr_fields(0, 32);
}

/// Maximum bytes per ioctl; larger transfers are chunked. Matches the module's
/// cap, so a single request never allocates an unbounded kernel bounce buffer.
pub const MAX_LEN: usize = 0x10_0000;

/// Direction of a [`VMEM_RW`] transfer.
#[derive(Clone, Copy, Debug, PartialEq, Eq, Structural)]
pub enum Direction {
    /// From the target.
    Read,
    /// To the target (read-only pages included).
    Write,
}

impl Direction {
    /// Whether the target is written.
    pub fn is_write(self) -> (r: bool)
        ensures
            r == (self == Direction::Write),
    {
        matches!(self, Direction::Write)
    }
}

/// A transfer as it stands.
#[verifier::ext_equal]
pub struct Progress {
    pub pid: i32,
    pub addr: usize,
    pub ubuf: u64,
    pub len: usize,
    pub dir: Direction,
    /// How many bytes were moved so far.
    pub done: usize,
}

impl Progress {
    /// How many bytes are moved next.
    pub open spec fn chunk(self) -> int {
        if self.len - self.done < MAX_LEN {
            self.len - self.done
        } else {
            MAX_LEN as int
        }
    }

    /// The next request.
    pub open spec fn request(self) -> VmemIo {
        VmemIo {
            pid: self.pid,
            write: if self.dir == Direction::Write {
                1
            } else {
                0
            },
            addr: self.addr.wrapping_add(self.done) as u64,
            len: self.chunk() as u64,
            ubuf: self.ubuf.wrapping_add(self.done as u64),
        }
    }

    /// What is known once the driver answered `n`, with the error number if that
    /// is negative: the end of the transfer, or how many bytes were moved by
    /// then.
    pub open spec fn after(self, n: isize, errno: i32) -> Result<usize, Error> {
        let moved = self.done.wrapping_add(n as usize);
        if n < 0 && self.done > 0 {
            Err(Error::Partial { addr: self.addr, wanted: self.len, moved: self.done })
        } else if n < 0 {
            Err(io::classified(self.pid, self.addr, self.len, errno))
        } else if n != self.chunk() {
            Err(Error::Partial { addr: self.addr, wanted: self.len, moved })
        } else {
            Ok(moved)
        }
    }
}

/// Whether a transfer goes on as it has to.
pub open spec fn goes_on(r: Step<VmemIo, Rw, Result<(), Error>>, s: Progress) -> bool {
    if s.done >= s.len {
        r == Step::<VmemIo, Rw, Result<(), Error>>::Done(Ok(()))
    } else {
        &&& r matches Step::Do(req, rw)
        &&& rw@ == s
        &&& req == s.request()
    }
}

/// A transfer that is under way.
#[derive(Debug)]
pub struct Rw {
    pid: i32,
    addr: usize,
    ubuf: u64,
    len: usize,
    dir: Direction,
    done: usize,
}

impl View for Rw {
    type V = Progress;

    closed spec fn view(&self) -> Progress {
        Progress {
            pid: self.pid,
            addr: self.addr,
            ubuf: self.ubuf,
            len: self.len,
            dir: self.dir,
            done: self.done,
        }
    }
}

impl Rw {
    #[verifier::type_invariant]
    spec fn inv(self) -> bool {
        self.done < self.len
    }

    fn chunk(&self) -> (r: usize)
        ensures
            r == self@.chunk(),
            0 < r <= self@.len - self@.done,
    {
        proof {
            use_type_invariant(self);
        }
        if self.len - self.done < MAX_LEN {
            self.len - self.done
        } else {
            MAX_LEN
        }
    }

    fn ioctl_once(&self) -> (r: VmemIo)
        ensures
            r == self@.request(),
    {
        VmemIo {
            pid: self.pid,
            write: if self.dir.is_write() {
                1
            } else {
                0
            },
            addr: self.addr.wrapping_add(self.done) as u64,
            len: self.chunk() as u64,
            ubuf: self.ubuf.wrapping_add(self.done as u64),
        }
    }

    /// Go on with what the driver answered: how many bytes it moved, or a
    /// negative number, and the error number in that case.
    ///
    /// # Errors
    /// [`Error::Partial`] once any bytes have moved, otherwise a classified
    /// error.
    pub fn resume(self, n: isize, errno: i32) -> (r: Step<VmemIo, Rw, Result<(), Error>>)
        ensures
            match self@.after(n, errno) {
                Ok(done) => goes_on(r, (Progress { done, ..self@ })),
                Err(e) => r == Step::<VmemIo, Rw, Result<(), Error>>::Done(Err(e)),
            },
    {
        let chunk: usize = self.chunk();
        if n < 0 {
            if self.done > 0 {
                return Step::Done(
                    Err(Error::Partial { addr: self.addr, wanted: self.len, moved: self.done }),
                );
            }
            return Step::Done(Err(io::classify(self.pid, self.addr, self.len, errno)));
        }
        let done: usize = self.done.wrapping_add(n as usize);
        if n as usize != chunk {
            return Step::Done(
                Err(Error::Partial { addr: self.addr, wanted: self.len, moved: done }),
            );
        }
        if done >= self.len {
            return Step::Done(Ok(()));
        }
        let next = Rw { done, ..self };
        let req = next.ioctl_once();
        Step::Do(req, next)
    }
}

/// Transfer `len` bytes between the buffer at `ubuf` and the target's `addr`,
/// chunked at [`MAX_LEN`].
pub fn rw(pid: i32, addr: usize, ubuf: u64, len: usize, dir: Direction) -> (r: Step<
    VmemIo,
    Rw,
    Result<(), Error>,
>)
    ensures
        goes_on(r, (Progress { pid, addr, ubuf, len, dir, done: 0 })),
{
    if len == 0 {
        return Step::Done(Ok(()));
    }
    let state = Rw { pid, addr, ubuf, len, dir, done: 0 };
    let req = state.ioctl_once();
    Step::Do(req, state)
}

/// A transfer that fits in one request ends just as the system call for it
/// would: the same answer gives the same success or the same error.
pub proof fn law_backends_agree(s: Progress, n: isize, errno: i32)
    requires
        s.done == 0,
        0 < s.len <= MAX_LEN,
    ensures
        match s.after(n, errno) {
            Ok(done) => done == s.len && io::transfer_result(s.pid, s.addr, s.len, n, errno)
                == Ok::<(), Error>(()),
            Err(e) => io::transfer_result(s.pid, s.addr, s.len, n, errno) == Err::<(), Error>(e),
        },
{
}

/// A transfer whose first request fails gives the error that the system call
/// would give, whatever its length.
pub proof fn law_first_failure_is_classified(s: Progress, n: isize, errno: i32)
    requires
        s.done == 0,
        n < 0,
    ensures
        s.after(n, errno) == Err::<usize, Error>(
            io::classified(s.pid, s.addr, s.len, errno),
        ),
        io::transfer_result(s.pid, s.addr, s.len, n, errno) == Err::<(), Error>(
            io::classified(s.pid, s.addr, s.len, errno),
        ),
{
}

/// The number of the request as the kernel's macro builds it: both directions, the
/// group `V`, the number, and the size of what is passed.
pub proof fn law_iowr_number(nr: u32, size: u32, r: u64)
    requires
        nr < 0x100,
        size < 0x4000,
        call_ensures(iowr, (nr, size as usize), r),
    ensures
        r == 0xC000_0000 + size * 0x1_0000 + 0x5600 + nr,
        VMEM_RW == 0xC000_0000 + 32 * 0x1_0000 + 0x5600,
{
    law_iowr_fields(nr, size);
}

/// Whether a request moves the part of a transfer that comes next, when `done` bytes
/// of it were moved.
pub open spec fn moves_next(
    req: VmemIo,
    pid: i32,
    addr: usize,
    ubuf: u64,
    len: usize,
    dir: Direction,
    done: int,
) -> bool {
    &&& req.pid == pid
    &&& req.write == (if dir == Direction::Write {
        1u32
    } else {
        0
    })
    &&& req.addr == (addr + done) % (usize::MAX + 1)
    &&& req.ubuf == (ubuf + done) % 0x1_0000_0000_0000_0000
    &&& 0 < req.len <= 0x10_0000
    &&& req.len <= len - done
    &&& req.len == 0x10_0000 || req.len == len - done
}

proof fn lemma_moves_next(s: Progress)
    requires
        s.done < s.len,
    ensures
        moves_next(s.request(), s.pid, s.addr, s.ubuf, s.len, s.dir, s.done as int),
{
    bytes::lemma_wraps(s.addr, s.done);
}

/// A transfer is made piece by piece, each no longer than the driver takes, and
/// each where the one before it ended, on both sides. It is done when and only when
/// all of it was moved.
pub proof fn law_transfer_goes_piece_by_piece(
    pid: i32,
    addr: usize,
    ubuf: u64,
    len: usize,
    dir: Direction,
    started: Step<VmemIo, Rw, Result<(), Error>>,
    s: Rw,
    n: isize,
    errno: i32,
    next: Step<VmemIo, Rw, Result<(), Error>>,
)
    requires
        call_ensures(rw, (pid, addr, ubuf, len, dir), started),
        s@.done < s@.len,
        call_ensures(Rw::resume, (s, n, errno), next),
    ensures
        match started {
            Step::Do(req, t) => len > 0 && moves_next(req, pid, addr, ubuf, len, dir, 0) && t@
                == (Progress { pid, addr, ubuf, len, dir, done: 0 }),
            Step::Done(r) => len == 0 && r is Ok,
        },
        match next {
            Step::Do(req, t) => {
                &&& n == s@.request().len
                &&& t@.done == s@.done + n
                &&& t@ == (Progress { done: t@.done, ..s@ })
                &&& moves_next(req, s@.pid, s@.addr, s@.ubuf, s@.len, s@.dir, s@.done + n)
            },
            Step::Done(Ok(())) => n == s@.request().len && s@.done + n == s@.len,
            Step::Done(Err(Error::Partial { addr: a, wanted, moved })) => {
                &&& a == s@.addr && wanted == s@.len
                &&& n < 0 ==> s@.done > 0 && moved == s@.done
                &&& n >= 0 ==> n != s@.request().len && moved == (s@.done + n) % (usize::MAX + 1)
            },
            Step::Done(Err(e)) => n < 0 && s@.done == 0 && e == io::classified(
                s@.pid,
                s@.addr,
                s@.len,
                errno,
            ),
        },
{
    lemma_moves_next(s@);
    if let Step::Do(_, t) = started {
        lemma_moves_next(t@);
    }
    if let Step::Do(_, t) = next {
        lemma_moves_next(t@);
    }
    if n >= 0 {
        bytes::lemma_wraps(s@.done, n as usize);
        vstd::arithmetic::div_mod::lemma_small_mod(s@.done as nat, (usize::MAX + 1) as nat);
    }
}

} // verus!
