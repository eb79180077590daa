//! Code-cave hooks ([`Hook`]).
use vstd::prelude::*;

use crate::assembler;
use crate::assembler::{Asm, AsmError, Listing};
use crate::bytes;
use crate::error::{Error, IoError};
use crate::io::{ReadRequest, WriteRequest};
use crate::machine;
use crate::machine::Instr;
use crate::patch;
use crate::patch::{Patch, PatchRead, PatchWrite, Plan, Site, Switch};
use crate::process::Process;
use crate::prot;
use crate::remote;
use crate::remote::{Alloc, Holding, RemoteMem};
use crate::tracer::Syscall;

verus! {

/// How large the cave of a hook is.
pub const CAVE_LEN: usize = 0x1000;

/// An installed detour into an allocated code cave: the CE auto-assembler
/// pattern.
///
/// The cave runs your code, then the stolen original instructions, then jumps
/// back. Its owner has to revert the detour, and then free the cave, when it is
/// dropped, unless it is [`persist`](Self::persist)ed (see
/// [`on_drop`](Self::on_drop)).
#[derive(Debug)]
#[must_use]
pub struct Hook<'p> {
    detour: Patch<'p>,
    cave: Option<RemoteMem<'p>>,
    target: usize,
    cave_addr: usize,
}

/// What a hook is made of.
#[verifier::ext_equal]
pub struct Installed {
    /// The detour.
    pub detour: Site,
    /// The cave, unless it is to be kept.
    pub cave: Option<Holding>,
    /// The detoured site.
    pub target: usize,
    /// Where the detour leads.
    pub cave_addr: usize,
}

impl<'p> View for Hook<'p> {
    type V = Installed;

    closed spec fn view(&self) -> Installed {
        Installed {
            detour: self.detour@,
            cave: match self.cave {
                Some(c) => Some(c@),
                None => None,
            },
            target: self.target,
            cave_addr: self.cave_addr,
        }
    }
}

impl<'p> Hook<'p> {
    /// The process that is hooked.
    pub fn process(&self) -> (r: &'p Process)
        ensures
            r@ == self@.detour.pid,
    {
        self.detour.process()
    }

    /// Address of the detoured site in the target.
    pub fn target(&self) -> (r: usize)
        ensures
            r == self@.target,
    {
        self.target
    }

    /// Address of the injected cave the detour jumps to.
    pub fn cave_addr(&self) -> (r: usize)
        ensures
            r == self@.cave_addr,
    {
        self.cave_addr
    }

    /// Whether the detour jump is currently installed.
    pub fn is_enabled(&self) -> (r: bool)
        ensures
            r == self@.detour.enabled,
    {
        self.detour.is_enabled()
    }

    /// Re-install the jump, as [`Patch::enable`] does.
    pub fn enable(&self) -> (r: (WriteRequest, Switch))
        ensures
            r.0.writes(self@.detour.addr, self@.detour.bytes_when(true)),
            r.1@ == true,
    {
        self.detour.enable()
    }

    /// Remove the jump (restore original bytes), as [`Patch::disable`] does; the
    /// cave stays allocated.
    pub fn disable(&self) -> (r: (WriteRequest, Switch))
        ensures
            r.0.writes(self@.detour.addr, self@.detour.bytes_when(false)),
            r.1@ == false,
    {
        self.detour.disable()
    }

    /// Flip the detour between installed and removed, as [`Patch::toggle`] does.
    pub fn toggle(&self) -> (r: (WriteRequest, Switch))
        ensures
            r.0.writes(self@.detour.addr, self@.detour.bytes_when(!self@.detour.enabled)),
            r.1@ == !self@.detour.enabled,
    {
        self.detour.toggle()
    }

    /// Finish a switch with the result of its write.
    ///
    /// # Errors
    /// The error of the write; the hook is then as it was.
    pub fn settle(&mut self, switch: Switch, result: Result<(), Error>) -> (r: Result<(), Error>)
        ensures
            r == result,
            final(self)@ == (if result is Ok {
                Installed { detour: old(self)@.detour.turned(switch@), ..old(self)@ }
            } else {
                old(self)@
            }),
    {
        self.detour.settle(switch, result)
    }

    /// Keep the hook and cave in place after this handle drops.
    pub fn persist(&mut self)
        ensures
            final(self)@ == (Installed {
                detour: Site { restore_on_drop: false, ..old(self)@.detour },
                cave: None,
                ..old(self)@
            }),
    {
        self.detour.persist();
        self.cave = None;
    }

    /// What has to be done when this handle is dropped, in this order: the write
    /// that removes the detour (as [`Process::write_force`] does it), then the
    /// system call that frees the cave.
    pub fn on_drop(&self) -> (r: (Option<WriteRequest>, Option<Syscall>))
        ensures
            patch::pays(r.0, self@.detour),
            match self@.cave {
                Some(h) => remote::frees(r.1, h),
                None => r.1 is None,
            },
    {
        let free: Option<Syscall> = match &self.cave {
            Some(cave) => cave.on_drop(),
            None => None,
        };
        (self.detour.on_drop(), free)
    }
}

/// What a hook is to be.
#[verifier::ext_equal]
pub struct Blueprint {
    pub pid: i32,
    pub target: usize,
    pub steal_len: usize,
}

impl Blueprint {
    /// Where the cave jumps back to.
    pub open spec fn back(self) -> u64 {
        self.target.wrapping_add(self.steal_len) as u64
    }

    /// The code of the cave: the custom code, then the stolen instructions, then
    /// the jump back.
    pub open spec fn trampoline(self, custom: Listing, stolen: Seq<u8>) -> Listing {
        custom.emit(stolen).emit(assembler::enc_jmp_abs(self.back()))
    }
}

#[derive(Clone, Copy, Debug)]
struct Order<'p> {
    proc: &'p Process,
    target: usize,
    steal_len: usize,
}

impl<'p> Order<'p> {
    spec fn blueprint(self) -> Blueprint {
        Blueprint { pid: self.proc@, target: self.target, steal_len: self.steal_len }
    }
}

/// A hook that wants the instructions it displaces.
#[derive(Debug)]
pub struct HookRead<'p> {
    order: Order<'p>,
}

impl<'p> View for HookRead<'p> {
    type V = Blueprint;

    closed spec fn view(&self) -> Blueprint {
        self.order.blueprint()
    }
}

/// A hook that wants a cave.
#[derive(Debug)]
pub struct HookCave<'p> {
    order: Order<'p>,
    stolen: Vec<u8>,
}

impl<'p> View for HookCave<'p> {
    type V = (Blueprint, Seq<u8>);

    /// What the hook is to be, and the stolen instructions.
    closed spec fn view(&self) -> (Blueprint, Seq<u8>) {
        (self.order.blueprint(), self.stolen@)
    }
}

/// A hook that wants its custom code.
#[derive(Debug)]
pub struct HookBuild<'p> {
    order: Order<'p>,
    stolen: Vec<u8>,
    cave: RemoteMem<'p>,
}

impl<'p> View for HookBuild<'p> {
    type V = (Blueprint, Seq<u8>, Holding);

    /// What the hook is to be, the stolen instructions, and the cave.
    closed spec fn view(&self) -> (Blueprint, Seq<u8>, Holding) {
        (self.order.blueprint(), self.stolen@, self.cave@)
    }
}

/// A hook whose cave is being written.
#[derive(Debug)]
pub struct HookWrite<'p> {
    order: Order<'p>,
    cave: RemoteMem<'p>,
}

impl<'p> View for HookWrite<'p> {
    type V = (Blueprint, Holding);

    /// What the hook is to be, and the cave.
    closed spec fn view(&self) -> (Blueprint, Holding) {
        (self.order.blueprint(), self.cave@)
    }
}

/// A hook whose detour wants the bytes that it replaces.
#[derive(Debug)]
pub struct HookDetour<'p> {
    target: usize,
    detour: PatchRead<'p>,
    cave: RemoteMem<'p>,
}

impl<'p> View for HookDetour<'p> {
    type V = (usize, Plan, Holding);

    /// The detoured site, the detour, and the cave.
    closed spec fn view(&self) -> (usize, Plan, Holding) {
        (self.target, self.detour@, self.cave@)
    }
}

/// A hook whose detour is being written.
#[derive(Debug)]
pub struct HookInstall<'p> {
    target: usize,
    detour: PatchWrite<'p>,
    cave: RemoteMem<'p>,
}

impl<'p> View for HookInstall<'p> {
    type V = (usize, Site, Holding);

    /// The detoured site, the detour, and the cave.
    closed spec fn view(&self) -> (usize, Site, Holding) {
        (self.target, self.detour@, self.cave@)
    }
}

/// Whether a hook failed with `e` and hands back its cave, which its owner then
/// has to free.
pub open spec fn gives_up<T>(r: Result<T, (Error, RemoteMem<'_>)>, e: Error, cave: Holding) -> bool {
    &&& r matches Err(failure)
    &&& failure.0 == e
    &&& failure.1@ == cave
}

impl<'p> HookRead<'p> {
    /// Go on with the displaced instructions: allocate a cave of [`CAVE_LEN`]
    /// bytes, as [`Process::alloc_rwx`] does.
    ///
    /// # Errors
    /// The error of the read.
    pub fn resume(self, stolen: Result<Vec<u8>, Error>) -> (r: Result<
        (Syscall, Alloc<'p>, HookCave<'p>),
        Error,
    >)
        requires
            stolen matches Ok(b) ==> b@.len() == self@.steal_len,
        ensures
            match stolen {
                Err(e) => r == Err::<(Syscall, Alloc<'p>, HookCave<'p>), Error>(e),
                Ok(b) => {
                    &&& r matches Ok((call, growing, next))
                    &&& remote::allocates((call, growing), self@.pid, CAVE_LEN, prot::RWX)
                    &&& next@ == (self@, b@)
                },
            },
    {
        match stolen {
            Err(e) => Err(e),
            Ok(stolen) => {
                let (call, growing) = self.order.proc.alloc_rwx(CAVE_LEN);
                Ok((call, growing, HookCave { order: self.order, stolen }))
            },
        }
    }
}

impl<'p> HookCave<'p> {
    /// Go on with the cave.
    ///
    /// # Errors
    /// The error of the allocation.
    pub fn resume(self, cave: Result<RemoteMem<'p>, Error>) -> (r: Result<HookBuild<'p>, Error>)
        ensures
            match cave {
                Err(e) => r == Err::<HookBuild<'p>, Error>(e),
                Ok(c) => r matches Ok(next) && next@ == (self@.0, self@.1, c@),
            },
    {
        match cave {
            Err(e) => Err(e),
            Ok(cave) => Ok(HookBuild { order: self.order, stolen: self.stolen, cave }),
        }
    }
}

impl<'p> HookBuild<'p> {
    /// Go on with the custom code: write it to the cave, with the stolen
    /// original instructions and a jump back behind it, as
    /// [`RemoteMem::write`] does.
    ///
    /// # Errors
    /// [`Error::Io`] with the words of the
    /// [`AsmError`](crate::assembler::AsmError) if the code cannot be assembled
    /// at the cave.
    pub fn build(self, custom: Asm) -> (r: Result<
        (WriteRequest, HookWrite<'p>),
        (Error, RemoteMem<'p>),
    >)
        requires
            custom@.wf(),
        ensures
            ({
                let code = self@.0.trampoline(custom@, self@.1);
                let base = self@.2.addr as u64;
                match code.first_fault(base, 0) {
                    None => {
                        &&& r matches Ok((w, next))
                        &&& w.writes(
                            self@.2.addr,
                            code.linked(base, code.branches.len() as int),
                        )
                        &&& next@ == (self@.0, self@.2)
                    },
                    Some(fault) => {
                        &&& r matches Err(failure)
                        &&& failure.0 matches Error::Io(IoError::Other(why))
                        &&& why@ == fault.text()
                        &&& failure.1@ == self@.2
                    },
                }
            }),
    {
        let ghost user = custom@;
        let mut a = custom;
        a.raw(self.stolen.as_slice());
        a.jmp_abs(self.order.target.wrapping_add(self.order.steal_len) as u64);
        assert(a@ == self@.0.trampoline(user, self@.1));
        match a.assemble(self.cave.base() as u64) {
            Ok(code) => {
                let w = self.cave.write(0, code.as_slice());
                Ok((w, HookWrite { order: self.order, cave: self.cave }))
            },
            Err(e) => Err((Error::Io(IoError::Other(e.message())), self.cave)),
        }
    }
}

impl<'p> HookWrite<'p> {
    /// Go on with the result of the write: install the detour, as
    /// [`Process::detour`] does.
    ///
    /// # Errors
    /// The error of the write, or anything [`Process::detour`] returns.
    pub fn resume(self, result: Result<(), Error>) -> (r: Result<
        (ReadRequest, HookDetour<'p>),
        (Error, RemoteMem<'p>),
    >)
        ensures
            ({
                let (plan, cave) = self@;
                let near = assembler::fits_rel32(
                    patch::branch_distance(plan.target, cave.addr),
                );
                let need: usize = if near {
                    5
                } else {
                    14
                };
                match result {
                    Err(e) => gives_up(r, e, cave),
                    Ok(()) => if plan.steal_len < need {
                        gives_up(r, Error::PatchTooSmall { need, got: plan.steal_len }, cave)
                    } else {
                        &&& r matches Ok((req, next))
                        &&& req == (ReadRequest { addr: plan.target, len: plan.steal_len })
                        &&& next@ == (
                            plan.target,
                            Plan {
                                pid: plan.pid,
                                addr: plan.target,
                                new: if near {
                                    patch::near_branch(
                                        0xE9,
                                        patch::branch_distance(plan.target, cave.addr),
                                        plan.steal_len as int,
                                    )
                                } else {
                                    patch::far_jump(cave.addr, plan.steal_len as int)
                                },
                            },
                            cave,
                        )
                    },
                }
            }),
    {
        if let Err(e) = result {
            return Err((e, self.cave));
        }
        let order = self.order;
        let to: usize = self.cave.base();
        proof {
            if order.steal_len >= 5 && assembler::fits_rel32(
                patch::branch_distance(order.target, to),
            ) {
                patch::law_near_branch_lands(0xE9, order.target, to, order.steal_len as int);
            }
            if order.steal_len >= 14 {
                patch::law_far_jump_lands(to, order.steal_len as int);
            }
        }
        match order.proc.detour(order.target, to, order.steal_len) {
            Ok((req, detour)) => Ok(
                (req, HookDetour { target: order.target, detour, cave: self.cave }),
            ),
            Err(e) => Err((e, self.cave)),
        }
    }
}

impl<'p> HookDetour<'p> {
    /// Go on with the bytes that the detour replaces: write it, as
    /// [`Process::write_force`] does.
    ///
    /// # Errors
    /// The error of the read.
    pub fn resume(self, original: Result<Vec<u8>, Error>) -> (r: Result<
        (WriteRequest, HookInstall<'p>),
        (Error, RemoteMem<'p>),
    >)
        requires
            original matches Ok(b) ==> b@.len() == self@.1.new.len(),
        ensures
            match original {
                Err(e) => gives_up(r, e, self@.2),
                Ok(b) => {
                    &&& r matches Ok((w, next))
                    &&& w.writes(self@.1.addr, self@.1.new)
                    &&& next@ == (
                        self@.0,
                        Site {
                            pid: self@.1.pid,
                            addr: self@.1.addr,
                            original: b@,
                            patched: self@.1.new,
                            enabled: true,
                            restore_on_drop: true,
                        },
                        self@.2,
                    )
                },
            },
    {
        match self.detour.resume(original) {
            Ok((w, detour)) => Ok(
                (w, HookInstall { target: self.target, detour, cave: self.cave }),
            ),
            Err(e) => Err((e, self.cave)),
        }
    }
}

impl<'p> HookInstall<'p> {
    /// Finish with the result of the write.
    ///
    /// # Errors
    /// The error of the write.
    pub fn resume(self, result: Result<(), Error>) -> (r: Result<Hook<'p>, (Error, RemoteMem<'p>)>)
        ensures
            match result {
                Err(e) => gives_up(r, e, self@.2),
                Ok(()) => {
                    &&& r matches Ok(hook)
                    &&& hook@ == (Installed {
                        detour: self@.1,
                        cave: Some(self@.2),
                        target: self@.0,
                        cave_addr: self@.2.addr,
                    })
                    &&& hook@.detour.original.len() == hook@.detour.patched.len()
                },
            },
    {
        match self.detour.resume(result) {
            Ok(detour) => {
                let cave_addr: usize = self.cave.base();
                Ok(Hook { detour, cave: Some(self.cave), target: self.target, cave_addr })
            },
            Err(e) => Err((e, self.cave)),
        }
    }
}

impl Process {
    /// Install a code-cave hook at `target`, stealing `steal_len` bytes.
    ///
    /// It starts with a read of those bytes, as [`read_vec`](Self::read_vec)
    /// does it. You give your custom assembly when it wants it
    /// ([`HookBuild::build`]); the stolen original instructions and a jump back
    /// are appended. `steal_len` must be at least 5 (for a `rel32` jump) and must
    /// land on an instruction boundary, and the stolen bytes must be
    /// position-independent (no RIP-relative operands), as they execute from the
    /// cave. If `target` and the cave are more than 2 GiB apart, use
    /// `steal_len >= 14` so an absolute jump fits.
    ///
    /// # Errors
    /// [`Error::PatchTooSmall`] if `steal_len < 5`.
    pub fn hook(&self, target: usize, steal_len: usize) -> (r: Result<
        (ReadRequest, HookRead<'_>),
        Error,
    >)
        ensures
            if steal_len < 5 {
                r matches Err(Error::PatchTooSmall { need, got }) && need == 5 && got == steal_len
            } else {
                &&& r matches Ok((req, next))
                &&& req == (ReadRequest { addr: target, len: steal_len })
                &&& next@ == (Blueprint { pid: self@, target, steal_len })
            },
    {
        if steal_len < 5 {
            return Err(Error::PatchTooSmall { need: 5, got: steal_len });
        }
        let req = ReadRequest { addr: target, len: steal_len };
        Ok((req, HookRead { order: Order { proc: self, target, steal_len } }))
    }
}

/// The cave ends with the stolen instructions, just as they were, and the jump
/// back to the instruction behind them, whatever the custom code is and wherever
/// the cave lies.
pub proof fn law_cave_runs_the_stolen_code(
    plan: Blueprint,
    custom: Listing,
    stolen: Seq<u8>,
    base: u64,
)
    requires
        custom.wf(),
    ensures
        ({
            let code = plan.trampoline(custom, stolen);
            let n = custom.code.len() as int;
            let out = code.linked(base, code.branches.len() as int);
            &&& out.len() == n + stolen.len() + 14
            &&& out.subrange(n, n + stolen.len()) == stolen
            &&& out.subrange(n + stolen.len(), n + stolen.len() + 14) == assembler::enc_jmp_abs(
                plan.back(),
            )
        }),
{
    let code = plan.trampoline(custom, stolen);
    let n = custom.code.len() as int;
    let jump = assembler::enc_jmp_abs(plan.back());
    bytes::lemma_le_bytes_len(plan.back() as nat, 8);
    assert(code.wf());
    assembler::law_linking_fills_the_fields(code, base, code.branches.len() as int);
    let out = code.linked(base, code.branches.len() as int);
    assert forall|i: int| n <= i < code.code.len() implies #[trigger] out[i] == code.code[i] by {
        assert forall|k: int| 0 <= k < code.branches.len() implies !((#[trigger] code.branches[k]).at
            <= i < code.branches[k].at + 4) by {
            assert(custom.branches[k].at + 4 <= n);
        }
    }
    assert(out.subrange(n, n + stolen.len()) =~= stolen);
    assert(out.subrange(n + stolen.len(), n + stolen.len() + 14) =~= jump);
}

/// What a listing is linked to does not depend on bytes that are emitted behind
/// it.
proof fn lemma_linked_prefix(l: Listing, more: Listing, base: u64)
    requires
        l.wf(),
        more.wf(),
        more.labels == l.labels,
        more.branches == l.branches,
        l.code.len() <= more.code.len(),
        more.code.take(l.code.len() as int) == l.code,
    ensures
        more.linked(base, more.branches.len() as int).take(l.code.len() as int) == l.linked(
            base,
            l.branches.len() as int,
        ),
{
    let n = l.branches.len() as int;
    let (x, y) = (l.linked(base, n), more.linked(base, n));
    assembler::law_linking_fills_the_fields(l, base, n);
    assembler::law_linking_fills_the_fields(more, base, n);
    assert forall|i: int| 0 <= i < l.code.len() implies #[trigger] y[i] == x[i] by {
        if exists|k: int|
            0 <= k < n && (#[trigger] l.branches[k]).at <= i < l.branches[k].at + 4 {
            let k = choose|k: int|
                0 <= k < n && (#[trigger] l.branches[k]).at <= i < l.branches[k].at + 4;
            let at = l.branches[k].at as int;
            assert(l.distance(base, k) == more.distance(base, k));
            assert(x.subrange(at, at + 4)[i - at] == x[i]);
            assert(more.branches[k].at == at);
            assert(y.subrange(at, at + 4)[i - at] == y[i]);
        } else {
            assert(more.code.take(l.code.len() as int)[i] == more.code[i]);
            assert(x[i] == l.code[i]);
            assert(y[i] == more.code[i]);
        }
    }
    assert(y.take(l.code.len() as int) =~= x);
}

/// What is written to the cave is the custom code, just as it is assembled there
/// by itself, then the stolen bytes as they were, then a jump through the eight
/// bytes at the end. Those hold the address right behind the stolen bytes: the
/// target's own and as many more as were stolen, around the address space.
pub proof fn law_cave_returns_behind_the_stolen_bytes(
    b: HookBuild<'_>,
    custom: Asm,
    alone: Result<Vec<u8>, AsmError>,
    r: Result<(WriteRequest, HookWrite<'_>), (Error, RemoteMem<'_>)>,
)
    requires
        custom@.wf(),
        call_ensures(HookBuild::build, (b, custom), r),
        call_ensures(Asm::assemble, (&custom, b@.2.addr as u64), alone),
    ensures
        r is Ok <==> alone is Ok,
        match r {
            Ok((w, _)) => {
                let c = w.bytes@;
                let n = custom@.code.len() as int;
                let k = n + b@.1.len();
                &&& w.addr == b@.2.addr
                &&& c.len() == k + 14
                &&& c.take(n) == (alone->Ok_0)@
                &&& c.subrange(n, k) == b@.1
                &&& machine::decode(c.skip(k)) == Some((Instr::JumpThrough(0), 6int))
                &&& machine::u64_at(c, c.len() - 8) == (b@.0.target + b@.0.steal_len) % (usize::MAX
                    + 1)
            },
            Err((e, cave)) => cave@ == b@.2 && (e matches Error::Io(IoError::Other(why)) && why@
                == (alone->Err_0).fault().text()),
        },
{
    let plan = b@.0;
    let stolen = b@.1;
    let base = b@.2.addr as u64;
    let code = plan.trampoline(custom@, stolen);
    let n = custom@.code.len() as int;
    lemma_same_faults(custom@, code, base, 0);
    if let Ok((w, _)) = r {
        law_cave_runs_the_stolen_code(plan, custom@, stolen, base);
        let c = w.bytes@;
        let k = n + stolen.len();
        let back = plan.back();
        assert(code.wf());
        assert(code.code.take(n) =~= custom@.code);
        lemma_linked_prefix(custom@, code, base);
        assert(c.skip(k) =~= assembler::enc_jmp_abs(back));
        assembler::lemma_decode_jmp_abs(back);
        assert(machine::u64_at(c, k + 6) == machine::u64_at(c.skip(k), 6)) by {
            assert forall|i: int| 6 <= i < 14 implies #[trigger] c.skip(k)[i] == c[k + i] by {}
        }
        bytes::lemma_wraps(plan.target, plan.steal_len);
    }
}

proof fn lemma_same_faults(l: Listing, more: Listing, base: u64, k: int)
    requires
        more.labels == l.labels,
        more.branches == l.branches,
    ensures
        more.first_fault(base, k) == l.first_fault(base, k),
    decreases l.branches.len() - k,
{
    if k < l.branches.len() {
        assert(more.fault(base, k) == l.fault(base, k));
        lemma_same_faults(l, more, base, k + 1);
    }
}

/// A hook reads just the bytes that it steals, and asks for a cave of one page
/// that can be read, written and executed. With the cave at `ret`, the code goes
/// there, and its jump back leads right behind the stolen bytes.
pub proof fn law_hook_fills_its_cave(
    p: &Process,
    target: usize,
    steal_len: usize,
    req: ReadRequest,
    reading: HookRead<'_>,
    stolen: Vec<u8>,
    call: Syscall,
    growing: Alloc<'_>,
    waiting: HookCave<'_>,
    ret: i64,
    cave: RemoteMem<'_>,
    building: HookBuild<'_>,
    custom: Asm,
    w: WriteRequest,
    writing: HookWrite<'_>,
)
    requires
        call_ensures(
            Process::hook,
            (p, target, steal_len),
            Ok::<(ReadRequest, HookRead<'_>), Error>((req, reading)),
        ),
        stolen@.len() == req.len,
        call_ensures(
            HookRead::resume,
            (reading, Ok::<Vec<u8>, Error>(stolen)),
            Ok::<(Syscall, Alloc<'_>, HookCave<'_>), Error>((call, growing, waiting)),
        ),
        ret >= 0,
        call_ensures(
            Alloc::resume,
            (growing, Ok::<i64, Error>(ret)),
            Ok::<RemoteMem<'_>, Error>(cave),
        ),
        call_ensures(
            HookCave::resume,
            (waiting, Ok::<RemoteMem<'_>, Error>(cave)),
            Ok::<HookBuild<'_>, Error>(building),
        ),
        custom@.wf(),
        call_ensures(
            HookBuild::build,
            (building, custom),
            Ok::<(WriteRequest, HookWrite<'_>), (Error, RemoteMem<'_>)>((w, writing)),
        ),
    ensures
        steal_len >= 5,
        req.addr == target,
        req.len == steal_len,
        call.nr == 9,
        call.args@[1] == 0x1000,
        call.args@[2] == 7,
        w.addr == ret as usize,
        w.bytes@.len() == custom@.code.len() + steal_len + 14,
        w.bytes@.subrange(
            custom@.code.len() as int,
            custom@.code.len() as int + steal_len,
        ) == stolen@,
        machine::decode(w.bytes@.skip(custom@.code.len() as int + steal_len)) == Some(
            (Instr::JumpThrough(0), 6int),
        ),
        machine::u64_at(w.bytes@, w.bytes@.len() - 8) == (target + steal_len) % (usize::MAX + 1),
{
    let base = cave@.addr as u64;
    let plan = building@.0;
    let code = plan.trampoline(custom@, stolen@);
    law_cave_runs_the_stolen_code(plan, custom@, stolen@, base);
    let c = w.bytes@;
    let k = custom@.code.len() as int + steal_len;
    assert(c.skip(k) =~= assembler::enc_jmp_abs(plan.back()));
    assembler::lemma_decode_jmp_abs(plan.back());
    assert(machine::u64_at(c, k + 6) == machine::u64_at(c.skip(k), 6)) by {
        assert forall|i: int| 6 <= i < 14 implies #[trigger] c.skip(k)[i] == c[k + i] by {}
    }
    bytes::lemma_wraps(target, steal_len);
}

/// A hook that steals fewer than five bytes is refused, and none other is.
pub proof fn law_hook_needs_room(
    p: &Process,
    target: usize,
    steal_len: usize,
    r: Result<(ReadRequest, HookRead<'_>), Error>,
)
    requires
        call_ensures(Process::hook, (p, target, steal_len), r),
    ensures
        r is Ok <==> steal_len >= 5,
        r matches Err(e) ==> (e matches Error::PatchTooSmall { need, got } && need == 5 && got
            == steal_len),
        r matches Ok((_, next)) ==> next@.target == target && next@.steal_len == steal_len
            && next@.pid == p@,
{
}

/// Once the cave is written, a hook replaces just the stolen bytes by a jump to
/// the cave, near if that can reach it and absolute if not, and gives up the cave
/// if there is no room for that jump.
pub proof fn law_hook_detours_to_its_cave(
    writing: HookWrite<'_>,
    r: Result<(ReadRequest, HookDetour<'_>), (Error, RemoteMem<'_>)>,
)
    requires
        call_ensures(HookWrite::resume, (writing, Ok::<(), Error>(())), r),
    ensures
        ({
            let (plan, cave) = writing@;
            let near = assembler::reaches(plan.target + 5, cave.addr as int);
            match r {
                Ok((req, next)) => {
                    &&& req.addr == plan.target
                    &&& req.len == plan.steal_len
                    &&& next@.0 == plan.target
                    &&& next@.1.addr == plan.target
                    &&& next@.1.new.len() == plan.steal_len
                    &&& near ==> patch::branches_near(
                        next@.1.new,
                        false,
                        plan.target,
                        cave.addr,
                    )
                    &&& !near ==> patch::jumps_far(next@.1.new, cave.addr)
                    &&& next@.2 == cave
                },
                Err((e, given_up)) => given_up@ == cave && (e matches Error::PatchTooSmall {
                    need,
                    got,
                } && got == plan.steal_len && got < need && need == if near {
                    5int
                } else {
                    14
                }),
            }
        }),
{
    let (plan, cave) = writing@;
    assembler::lemma_distance_leads(plan.target + 5, cave.addr as int, cave.addr as int);
    if plan.steal_len >= 5 && assembler::fits_rel32(
        patch::branch_distance(plan.target, cave.addr),
    ) {
        patch::lemma_near(0xE9, plan.target, cave.addr, plan.steal_len as int);
    }
    if plan.steal_len >= 14 {
        patch::lemma_far(cave.addr, plan.steal_len as int);
    }
}

/// A hook that is installed is on, at its target and with its cave. Dropping it
/// puts back the bytes that the detour replaced and unmaps all of the cave; one
/// that persists leaves both alone.
pub proof fn law_dropping_a_hook_undoes_it(
    detouring: HookDetour<'_>,
    original: Vec<u8>,
    w: WriteRequest,
    installing: HookInstall<'_>,
    hook: Hook<'_>,
    target: usize,
    cave_addr: usize,
    on: bool,
    off: (WriteRequest, Switch),
    dropped: (Option<WriteRequest>, Option<Syscall>),
)
    requires
        !detouring@.2.freed,
        original@.len() == detouring@.1.new.len(),
        call_ensures(
            HookDetour::resume,
            (detouring, Ok::<Vec<u8>, Error>(original)),
            Ok::<(WriteRequest, HookInstall<'_>), (Error, RemoteMem<'_>)>((w, installing)),
        ),
        call_ensures(
            HookInstall::resume,
            (installing, Ok::<(), Error>(())),
            Ok::<Hook<'_>, (Error, RemoteMem<'_>)>(hook),
        ),
        call_ensures(Hook::target, (&hook,), target),
        call_ensures(Hook::cave_addr, (&hook,), cave_addr),
        call_ensures(Hook::is_enabled, (&hook,), on),
        call_ensures(Hook::disable, (&hook,), off),
        call_ensures(Hook::on_drop, (&hook,), dropped),
    ensures
        w.addr == detouring@.1.addr,
        w.bytes@ == detouring@.1.new,
        target == detouring@.0,
        cave_addr == detouring@.2.addr,
        on,
        off.0.addr == w.addr,
        off.0.bytes@ == original@,
        dropped.0 matches Some(back) && back.addr == w.addr && back.bytes@ == original@,
        dropped.1 matches Some(call) && call.nr == 11 && call.args@[0] == detouring@.2.addr
            && call.args@[1] == detouring@.2.len,
{
}

/// A hook that persists puts nothing back and frees nothing when it is dropped.
pub proof fn law_persisting_keeps_the_hook(
    hook: &mut Hook<'_>,
    r: (),
    dropped: (Option<WriteRequest>, Option<Syscall>),
    on: bool,
)
    requires
        call_ensures(Hook::persist, (hook,), r),
        call_ensures(Hook::on_drop, (final(hook),), dropped),
        call_ensures(Hook::is_enabled, (final(hook),), on),
    ensures
        dropped.0 is None,
        dropped.1 is None,
        on == old(hook)@.detour.enabled,
{
}

/// A switch of a hook takes effect once it is written, and not if the write
/// failed; toggling writes the jump if it is not there and the original bytes if
/// it is.
pub proof fn law_hook_switches(
    hook: &mut Hook<'_>,
    switch: Switch,
    result: Result<(), Error>,
    r: Result<(), Error>,
    on: bool,
    flip: (WriteRequest, Switch),
    jump: (WriteRequest, Switch),
)
    requires
        call_ensures(Hook::settle, (hook, switch, result), r),
        call_ensures(Hook::is_enabled, (final(hook),), on),
        call_ensures(Hook::toggle, (final(hook),), flip),
        call_ensures(Hook::enable, (final(hook),), jump),
    ensures
        r == result,
        on == (if result is Ok {
            switch@
        } else {
            old(hook)@.detour.enabled
        }),
        flip.1@ == !on,
        flip.0.addr == old(hook)@.detour.addr,
        flip.0.bytes@ == (if on {
            old(hook)@.detour.original
        } else {
            old(hook)@.detour.patched
        }),
        jump.0.addr == old(hook)@.detour.addr,
        jump.0.bytes@ == old(hook)@.detour.patched,
        jump.1@,
        final(hook)@.cave == old(hook)@.cave,
        final(hook)@.target == old(hook)@.target,
        final(hook)@.cave_addr == old(hook)@.cave_addr,
{
}

/// An error on the way ends a hook, and is what comes of it. From where there is a
/// cave on, it is handed back, so that it can be freed.
pub proof fn law_errors_end_a_hook(
    e: Error,
    reading: HookRead<'_>,
    read: Result<(Syscall, Alloc<'_>, HookCave<'_>), Error>,
    waiting: HookCave<'_>,
    got: Result<HookBuild<'_>, Error>,
    writing: HookWrite<'_>,
    written: Result<(ReadRequest, HookDetour<'_>), (Error, RemoteMem<'_>)>,
    detouring: HookDetour<'_>,
    detoured: Result<(WriteRequest, HookInstall<'_>), (Error, RemoteMem<'_>)>,
    installing: HookInstall<'_>,
    installed: Result<Hook<'_>, (Error, RemoteMem<'_>)>,
)
    requires
        call_ensures(HookRead::resume, (reading, Err::<Vec<u8>, Error>(e)), read),
        call_ensures(HookCave::resume, (waiting, Err::<RemoteMem<'_>, Error>(e)), got),
        call_ensures(HookWrite::resume, (writing, Err::<(), Error>(e)), written),
        call_ensures(HookDetour::resume, (detouring, Err::<Vec<u8>, Error>(e)), detoured),
        call_ensures(HookInstall::resume, (installing, Err::<(), Error>(e)), installed),
    ensures
        read == Err::<(Syscall, Alloc<'_>, HookCave<'_>), Error>(e),
        got == Err::<HookBuild<'_>, Error>(e),
        written matches Err(failure) && failure.0 == e && failure.1@ == writing@.1,
        detoured matches Err(failure) && failure.0 == e && failure.1@ == detouring@.2,
        installed matches Err(failure) && failure.0 == e && failure.1@ == installing@.2,
{
}

} // verus!
