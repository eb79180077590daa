//! Reversible byte/code patches ([`Patch`]) and the branch/detour writers.
use vstd::prelude::*;

use crate::assembler;
use crate::bytes;
use crate::error::Error;
use crate::io;
use crate::io::{ReadRequest, WriteRequest};
use crate::machine;
use crate::machine::Instr;
use crate::memory;
use crate::pattern;
use crate::process::Process;
use crate::search::{FindModule, ModuleSearch};

verus! {

/// A reversible in-memory patch.
///
/// Created enabled (the new bytes are already written). It remembers the
/// original bytes, so you can [`disable`](Self::disable)/[`enable`](Self::enable)/
/// [`toggle`](Self::toggle) it at will. By default its owner has to restore the
/// original bytes when it is dropped (see [`on_drop`](Self::on_drop)); call
/// [`persist`](Self::persist) to make it permanent.
///
/// All writes go through [`Process::write_force`], so patching read-only code
/// pages works.
#[derive(Debug)]
#[must_use]
pub struct Patch<'p> {
    proc: &'p Process,
    addr: usize,
    original: Vec<u8>,
    patched: Vec<u8>,
    enabled: bool,
    restore_on_drop: bool,
}

/// What a patch knows.
#[verifier::ext_equal]
pub struct Site {
    pub pid: i32,
    pub addr: usize,
    /// The bytes that were there before.
    pub original: Seq<u8>,
    /// The bytes that replace them.
    pub patched: Seq<u8>,
    /// Whether the replacement is written.
    pub enabled: bool,
    /// Whether dropping the patch reverts it.
    pub restore_on_drop: bool,
}

impl<'p> View for Patch<'p> {
    type V = Site;

    closed spec fn view(&self) -> Site {
        Site {
            pid: self.proc@,
            addr: self.addr,
            original: self.original@,
            patched: self.patched@,
            enabled: self.enabled,
            restore_on_drop: self.restore_on_drop,
        }
    }
}

impl Site {
    /// The bytes that are to be at the site once the patch is on or off.
    pub open spec fn bytes_when(self, on: bool) -> Seq<u8> {
        if on {
            self.patched
        } else {
            self.original
        }
    }

    /// The patch once the bytes for `on` are written.
    pub open spec fn turned(self, on: bool) -> Site {
        Site { enabled: on, ..self }
    }

    /// What the write that turns the patch on or off makes of memory.
    pub open spec fn written(self, m: Map<int, u8>, on: bool) -> Map<int, u8> {
        memory::poke(m, self.addr as int, self.bytes_when(on))
    }

    /// The bytes that have to be written back when the patch is dropped, if any.
    pub open spec fn owed(self) -> Option<Seq<u8>> {
        if self.restore_on_drop && self.enabled {
            Some(self.original)
        } else {
            None
        }
    }

    /// What dropping the patch makes of memory.
    pub open spec fn dropped(self, m: Map<int, u8>) -> Map<int, u8> {
        match self.owed() {
            Some(s) => memory::poke(m, self.addr as int, s),
            None => m,
        }
    }
}

/// Whether the write of what a drop owes is asked for.
pub open spec fn pays(r: Option<WriteRequest>, s: Site) -> bool {
    match s.owed() {
        Some(bytes) => r matches Some(w) && w.writes(s.addr, bytes),
        None => r is None,
    }
}

/// A switch of a patch whose write is under way.
#[derive(Debug)]
pub struct Switch {
    on: bool,
}

impl View for Switch {
    type V = bool;

    /// Whether the patch is being turned on.
    closed spec fn view(&self) -> bool {
        self.on
    }
}

impl<'p> Patch<'p> {
    /// The replacement is as long as what it replaces.
    #[verifier::type_invariant]
    spec fn inv(self) -> bool {
        self.original@.len() == self.patched@.len()
    }

    /// The process that is patched.
    pub fn process(&self) -> (r: &'p Process)
        ensures
            r@ == self@.pid,
    {
        self.proc
    }

    /// Target address.
    pub fn addr(&self) -> (r: usize)
        ensures
            r == self@.addr,
    {
        self.addr
    }

    /// Patch length in bytes.
    pub fn len(&self) -> (r: usize)
        ensures
            r == self@.patched.len(),
            r == self@.original.len(),
    {
        proof {
            use_type_invariant(self);
        }
        self.patched.len()
    }

    /// Whether the patch is zero-length.
    pub fn is_empty(&self) -> (r: bool)
        ensures
            r == (self@.patched.len() == 0),
    {
        self.patched.len() == 0
    }

    /// Whether the patched bytes are currently written.
    pub fn is_enabled(&self) -> (r: bool)
        ensures
            r == self@.enabled,
    {
        self.enabled
    }

    /// The saved original bytes.
    pub fn original(&self) -> (r: &[u8])
        ensures
            r@ == self@.original,
    {
        self.original.as_slice()
    }

    /// The replacement bytes.
    pub fn patched(&self) -> (r: &[u8])
        ensures
            r@ == self@.patched,
    {
        self.patched.as_slice()
    }

    /// Write the patched bytes (idempotent), as [`Process::write_force`] does.
    pub fn enable(&self) -> (r: (WriteRequest, Switch))
        ensures
            r.0.writes(self@.addr, self@.bytes_when(true)),
            r.1@ == true,
    {
        (
            WriteRequest { addr: self.addr, bytes: io::copy_of(self.patched.as_slice()) },
            Switch { on: true },
        )
    }

    /// Restore the original bytes (idempotent), as [`Process::write_force`]
    /// does.
    pub fn disable(&self) -> (r: (WriteRequest, Switch))
        ensures
            r.0.writes(self@.addr, self@.bytes_when(false)),
            r.1@ == false,
    {
        (
            WriteRequest { addr: self.addr, bytes: io::copy_of(self.original.as_slice()) },
            Switch { on: false },
        )
    }

    /// Flip between patched and original.
    pub fn toggle(&self) -> (r: (WriteRequest, Switch))
        ensures
            r.0.writes(self@.addr, self@.bytes_when(!self@.enabled)),
            r.1@ == !self@.enabled,
    {
        if self.enabled {
            self.disable()
        } else {
            self.enable()
        }
    }

    /// Finish a switch with the result of its write.
    ///
    /// # Errors
    /// The error of the write; the patch is then as it was.
    pub fn settle(&mut self, switch: Switch, result: Result<(), Error>) -> (r: Result<(), Error>)
        ensures
            r == result,
            final(self)@ == (if result is Ok {
                old(self)@.turned(switch@)
            } else {
                old(self)@
            }),
    {
        proof {
            use_type_invariant(&*self);
        }
        if result.is_ok() {
            self.enabled = switch.on;
        }
        result
    }

    /// Keep the patch applied after this handle is dropped.
    pub fn persist(&mut self)
        ensures
            final(self)@ == (Site { restore_on_drop: false, ..old(self)@ }),
    {
        proof {
            use_type_invariant(&*self);
        }
        self.restore_on_drop = false;
    }

    /// Control whether dropping reverts the patch (default `true`).
    pub fn set_restore_on_drop(&mut self, yes: bool)
        ensures
            final(self)@ == (Site { restore_on_drop: yes, ..old(self)@ }),
    {
        proof {
            use_type_invariant(&*self);
        }
        self.restore_on_drop = yes;
    }

    /// What has to be written, as [`Process::write_force`] does, when this
    /// handle is dropped.
    pub fn on_drop(&self) -> (r: Option<WriteRequest>)
        ensures
            pays(r, self@),
    {
        if self.restore_on_drop && self.enabled {
            Some(WriteRequest { addr: self.addr, bytes: io::copy_of(self.original.as_slice()) })
        } else {
            None
        }
    }
}

/// A patch that is being made.
#[verifier::ext_equal]
pub struct Plan {
    pub pid: i32,
    pub addr: usize,
    pub new: Seq<u8>,
}

/// A patch that wants the original bytes.
#[derive(Debug)]
pub struct PatchRead<'p> {
    proc: &'p Process,
    addr: usize,
    new: Vec<u8>,
}

impl<'p> View for PatchRead<'p> {
    type V = Plan;

    closed spec fn view(&self) -> Plan {
        Plan { pid: self.proc@, addr: self.addr, new: self.new@ }
    }
}

/// A patch whose new bytes are being written.
#[derive(Debug)]
pub struct PatchWrite<'p> {
    patch: Patch<'p>,
}

impl<'p> View for PatchWrite<'p> {
    type V = Site;

    /// The patch once they are written.
    closed spec fn view(&self) -> Site {
        self.patch@
    }
}

impl<'p> PatchRead<'p> {
    /// Go on with the original bytes: write the new ones, as
    /// [`Process::write_force`] does.
    ///
    /// # Errors
    /// The error of the read.
    pub fn resume(self, original: Result<Vec<u8>, Error>) -> (r: Result<
        (WriteRequest, PatchWrite<'p>),
        Error,
    >)
        requires
            original matches Ok(b) ==> b@.len() == self@.new.len(),
        ensures
            match original {
                Err(e) => r == Err::<(WriteRequest, PatchWrite<'p>), Error>(e),
                Ok(b) => {
                    &&& r matches Ok((w, next))
                    &&& w.writes(self@.addr, self@.new)
                    &&& next@ == (Site {
                        pid: self@.pid,
                        addr: self@.addr,
                        original: b@,
                        patched: self@.new,
                        enabled: true,
                        restore_on_drop: true,
                    })
                },
            },
    {
        match original {
            Err(e) => Err(e),
            Ok(original) => {
                let w = WriteRequest { addr: self.addr, bytes: io::copy_of(self.new.as_slice()) };
                let patch = Patch {
                    proc: self.proc,
                    addr: self.addr,
                    original,
                    patched: self.new,
                    enabled: true,
                    restore_on_drop: true,
                };
                Ok((w, PatchWrite { patch }))
            },
        }
    }
}

impl<'p> PatchWrite<'p> {
    /// Finish with the result of the write.
    ///
    /// # Errors
    /// The error of the write.
    pub fn resume(self, result: Result<(), Error>) -> (r: Result<Patch<'p>, Error>)
        ensures
            match result {
                Err(e) => r == Err::<Patch<'p>, Error>(e),
                Ok(()) => r matches Ok(p) && p@ == self@ && p@.original.len() == p@.patched.len(),
            },
    {
        match result {
            Err(e) => Err(e),
            Ok(()) => {
                proof {
                    use_type_invariant(&self.patch);
                }
                Ok(self.patch)
            },
        }
    }
}

/// Whether a patch starts as it has to: with a read of the bytes that are to be
/// replaced.
pub open spec fn starts(r: (ReadRequest, PatchRead<'_>), plan: Plan) -> bool {
    &&& r.0 == (ReadRequest { addr: plan.addr, len: plan.new.len() as usize })
    &&& r.1@ == plan
}

/// A patch that wants the place that its signature matches.
#[derive(Debug)]
pub struct PatchPattern<'p> {
    proc: &'p Process,
    sig: String,
    match_offset: usize,
    new: Vec<u8>,
}

/// What a patch at a signature is to do.
#[verifier::ext_equal]
pub struct PatternPlan {
    pub pid: i32,
    pub sig: Seq<char>,
    pub match_offset: usize,
    pub new: Seq<u8>,
}

impl<'p> View for PatchPattern<'p> {
    type V = PatternPlan;

    closed spec fn view(&self) -> PatternPlan {
        PatternPlan {
            pid: self.proc@,
            sig: self.sig@,
            match_offset: self.match_offset,
            new: self.new@,
        }
    }
}

impl<'p> PatchPattern<'p> {
    /// Go on with what the search gave.
    ///
    /// # Errors
    /// [`Error::PatternNotFound`] if the signature does not match, or the error
    /// of the search.
    pub fn resume(self, found: Result<Option<usize>, Error>) -> (r: Result<
        (ReadRequest, PatchRead<'p>),
        Error,
    >)
        ensures
            match found {
                Err(e) => r == Err::<(ReadRequest, PatchRead<'p>), Error>(e),
                Ok(None) => r matches Err(Error::PatternNotFound(s)) && s@ == self@.sig,
                Ok(Some(at)) => r matches Ok(p) && starts(
                    p,
                    (Plan {
                        pid: self@.pid,
                        addr: at.wrapping_add(self@.match_offset),
                        new: self@.new,
                    }),
                ),
            },
    {
        match found {
            Err(e) => Err(e),
            Ok(None) => Err(Error::PatternNotFound(self.sig)),
            Ok(Some(at)) => {
                let addr: usize = at.wrapping_add(self.match_offset);
                Ok(self.proc.patch(addr, self.new.as_slice()))
            },
        }
    }
}

/// Bytes that do nothing when they run.
pub open spec fn nops(n: int) -> Seq<u8> {
    Seq::new(n as nat, |i: int| 0x90u8)
}

/// How far `to` lies from the end of a five-byte branch at `from`, around the
/// 64-bit address space the shorter way.
pub open spec fn branch_distance(from: usize, to: usize) -> int {
    assembler::signed64(to - (from + 5))
}

/// A five-byte relative branch with padding behind it.
pub open spec fn near_branch(op: u8, distance: int, len: int) -> Seq<u8> {
    seq![op] + bytes::le_bytes(bytes::twos32(distance), 4) + nops(len - 5)
}

/// A fourteen-byte absolute jump with padding behind it.
pub open spec fn far_jump(to: usize, len: int) -> Seq<u8> {
    assembler::enc_jmp_abs(to as u64) + nops(len - 14)
}

/// Whether the outcome is a near branch, or the error that comes in its place.
pub open spec fn near_outcome(
    r: Result<(ReadRequest, PatchRead<'_>), Error>,
    pid: i32,
    op: u8,
    from: usize,
    to: usize,
    len: usize,
) -> bool {
    if len < 5 {
        r matches Err(Error::PatchTooSmall { need, got }) && need == 5 && got == len
    } else if !assembler::fits_rel32(branch_distance(from, to)) {
        r matches Err(Error::BranchTooFar { from: f, to: t }) && f == from && t == to
    } else {
        &&& r matches Ok(p)
        &&& starts(
            p,
            (Plan {
                pid,
                addr: from,
                new: near_branch(op, branch_distance(from, to), len as int),
            }),
        )
    }
}

/// Whether the outcome is an absolute jump, or the error that comes in its
/// place.
pub open spec fn far_outcome(
    r: Result<(ReadRequest, PatchRead<'_>), Error>,
    pid: i32,
    from: usize,
    to: usize,
    len: usize,
) -> bool {
    if len < 14 {
        r matches Err(Error::PatchTooSmall { need, got }) && need == 14 && got == len
    } else {
        r matches Ok(p) && starts(p, (Plan { pid, addr: from, new: far_jump(to, len as int) }))
    }
}

/// Append bytes that do nothing until `buf` is `len` bytes long.
fn pad(buf: &mut Vec<u8>, len: usize)
    requires
        old(buf)@.len() <= len,
    ensures
        final(buf)@ == old(buf)@ + nops(len - old(buf)@.len()),
{
    let ghost before = buf@;
    buf.resize(len, 0x90);
    assert(buf@ =~= before + nops(len - before.len()));
}

impl Process {
    /// Overwrite `addr` with `new`: gives in the end a reversible [`Patch`] that
    /// has saved the original bytes and written the new ones. It starts with a
    /// read, as [`read_vec`](Self::read_vec) does it.
    pub fn patch(&self, addr: usize, new: &[u8]) -> (r: (ReadRequest, PatchRead<'_>))
        ensures
            starts(r, (Plan { pid: self@, addr, new: new@ })),
    {
        (
            ReadRequest { addr, len: new.len() },
            PatchRead { proc: self, addr, new: io::copy_of(new) },
        )
    }

    /// Replace `len` bytes at `addr` with `0x90` NOPs (reversible).
    pub fn nop(&self, addr: usize, len: usize) -> (r: (ReadRequest, PatchRead<'_>))
        ensures
            starts(r, (Plan { pid: self@, addr, new: nops(len as int) })),
    {
        let mut new: Vec<u8> = Vec::new();
        pad(&mut new, len);
        assert(new@ =~= nops(len as int));
        self.patch(addr, new.as_slice())
    }

    /// Find `sig` in `module`, as [`scan_module`](Self::scan_module) does, and
    /// patch `new` at `match + match_offset`.
    ///
    /// # Errors
    /// Anything [`scan_module`](Self::scan_module) returns.
    pub fn patch_pattern(
        &self,
        module: &str,
        sig: &str,
        match_offset: usize,
        new: &[u8],
    ) -> (r: Result<(FindModule, PatchPattern<'_>), Error>)
        ensures
            match r {
                Ok((search, next)) => {
                    &&& pattern::parsed(sig@, search@.pattern)
                    &&& search@ == (ModuleSearch {
                        pid: self@,
                        pattern: search@.pattern,
                        module: module@,
                        code: false,
                    })
                    &&& next@ == (PatternPlan { pid: self@, sig: sig@, match_offset, new: new@ })
                },
                Err(e) => pattern::rejected(sig@, e),
            },
    {
        match self.scan_module(module, sig) {
            Ok(search) => Ok(
                (
                    search,
                    PatchPattern {
                        proc: self,
                        sig: sig.to_owned(),
                        match_offset,
                        new: io::copy_of(new),
                    },
                ),
            ),
            Err(e) => Err(e),
        }
    }

    /// Write a 5-byte near `jmp rel32` from `from` to `to`, padding any slack
    /// up to `patch_len` with NOPs.
    ///
    /// `patch_len` must be >= 5 and should equal the number of original
    /// instruction bytes you're clobbering so you don't leave a torn
    /// instruction behind.
    ///
    /// # Errors
    /// [`Error::PatchTooSmall`] if `patch_len < 5`, [`Error::BranchTooFar`] if
    /// the target is out of `rel32` range.
    pub fn write_jmp(&self, from: usize, to: usize, patch_len: usize) -> (r: Result<
        (ReadRequest, PatchRead<'_>),
        Error,
    >)
        ensures
            near_outcome(r, self@, 0xE9, from, to, patch_len),
    {
        self.write_branch(0xE9, from, to, patch_len)
    }

    /// Like [`write_jmp`](Self::write_jmp) but emits `call rel32` (`0xE8`).
    ///
    /// # Errors
    /// Same as [`write_jmp`](Self::write_jmp).
    pub fn write_call(&self, from: usize, to: usize, patch_len: usize) -> (r: Result<
        (ReadRequest, PatchRead<'_>),
        Error,
    >)
        ensures
            near_outcome(r, self@, 0xE8, from, to, patch_len),
    {
        self.write_branch(0xE8, from, to, patch_len)
    }

    fn write_branch(&self, op: u8, from: usize, to: usize, patch_len: usize) -> (r: Result<
        (ReadRequest, PatchRead<'_>),
        Error,
    >)
        ensures
            near_outcome(r, self@, op, from, to, patch_len),
    {
        if patch_len < 5 {
            return Err(Error::PatchTooSmall { need: 5, got: patch_len });
        }
        let rel: i64 = assembler::gap(from as u64, 1, to as u64);
        if rel < i32::MIN as i64 || rel > i32::MAX as i64 {
            return Err(Error::BranchTooFar { from, to });
        }
        let mut code: Vec<u8> = Vec::new();
        code.push(op);
        bytes::push_le(&mut code, bytes::low32(rel as i32), 4);
        proof {
            bytes::lemma_le_bytes_len(bytes::twos32(rel as int), 4);
        }
        pad(&mut code, patch_len);
        assert(code@ =~= near_branch(op, branch_distance(from, to), patch_len as int));
        Ok(self.patch(from, code.as_slice()))
    }

    /// Write a 14-byte absolute indirect jump (`FF 25 00000000` + qword target),
    /// which reaches anywhere in the 64-bit space, unlike `rel32`. Pads to
    /// `patch_len` (>= 14) with NOPs.
    ///
    /// # Errors
    /// [`Error::PatchTooSmall`] if `patch_len < 14`.
    pub fn write_jmp_abs(&self, from: usize, to: usize, patch_len: usize) -> (r: Result<
        (ReadRequest, PatchRead<'_>),
        Error,
    >)
        ensures
            far_outcome(r, self@, from, to, patch_len),
    {
        if patch_len < 14 {
            return Err(Error::PatchTooSmall { need: 14, got: patch_len });
        }
        let mut code: Vec<u8> = Vec::new();
        code.push(0xFF);
        code.push(0x25);
        bytes::push_le(&mut code, 0, 4);
        bytes::push_le(&mut code, to as u64, 8);
        proof {
            reveal_with_fuel(bytes::le_bytes, 5);
            assert(bytes::le_bytes(0, 4) =~= seq![0u8, 0, 0, 0]);
            assert(code@ =~= assembler::enc_jmp_abs(to as u64));
            bytes::lemma_le_bytes_len(to as nat, 8);
        }
        pad(&mut code, patch_len);
        assert(code@ =~= far_jump(to, patch_len as int));
        Ok(self.patch(from, code.as_slice()))
    }

    /// Install a detour at `from` to `to`, clobbering `patch_len` bytes.
    ///
    /// Uses a 5-byte `rel32` jump when the target is in range, otherwise a
    /// 14-byte absolute jump. Gives in the end a reversible [`Patch`].
    ///
    /// # Errors
    /// [`Error::PatchTooSmall`] if `patch_len` is too small for the chosen
    /// encoding.
    pub fn detour(&self, from: usize, to: usize, patch_len: usize) -> (r: Result<
        (ReadRequest, PatchRead<'_>),
        Error,
    >)
        ensures
            if assembler::fits_rel32(branch_distance(from, to)) {
                near_outcome(r, self@, 0xE9, from, to, patch_len)
            } else {
                far_outcome(r, self@, from, to, patch_len)
            },
    {
        let rel: i64 = assembler::gap(from as u64, 1, to as u64);
        let in_range = i32::MIN as i64 <= rel && rel <= i32::MAX as i64;
        if in_range {
            self.write_jmp(from, to, patch_len)
        } else {
            self.write_jmp_abs(from, to, patch_len)
        }
    }
}

/// A patch that saved what was there is undone when it is turned off, and
/// turning it on or off again changes nothing more.
pub proof fn law_patch_is_reversible(m: Map<int, u8>, s: Site)
    requires
        memory::mapped(m, s.addr as int, s.patched.len() as int),
        s.original == memory::peek(m, s.addr as int, s.patched.len()),
    ensures
        s.written(s.written(m, true), false) == m,
        s.written(s.written(m, true), true) == s.written(m, true),
        s.written(m, false) == m,
        memory::peek(s.written(m, true), s.addr as int, s.patched.len()) == s.patched,
{
    memory::law_writing_back_restores(m, s.addr as int, s.patched);
    memory::law_later_write_counts(m, s.addr as int, s.patched, s.patched);
    memory::law_peek_after_poke(m, s.addr as int, s.patched);
    assert(s.written(m, false) =~= m);
}

/// Dropping a patch leaves memory as it was before the patch, whether the patch
/// was on or off; a patch that persists stays as it is.
pub proof fn law_drop_restores(m: Map<int, u8>, s: Site, on: bool)
    requires
        memory::mapped(m, s.addr as int, s.patched.len() as int),
        s.original == memory::peek(m, s.addr as int, s.patched.len()),
    ensures
        s.restore_on_drop ==> s.turned(on).dropped(s.written(m, on)) == m,
        !s.restore_on_drop ==> s.turned(on).dropped(s.written(m, on)) == s.written(m, on),
{
    law_patch_is_reversible(m, s);
}

/// Toggling twice leaves the patch, and memory with it, as they were.
pub proof fn law_toggle_twice(m: Map<int, u8>, s: Site)
    requires
        s.original.len() == s.patched.len(),
    ensures
        s.turned(!s.enabled).turned(s.enabled) == s,
        s.written(s.written(m, s.enabled), !s.enabled) == s.written(m, !s.enabled),
        s.written(s.written(s.written(m, s.enabled), !s.enabled), s.enabled) == s.written(
            m,
            s.enabled,
        ),
{
    let at = s.addr as int;
    let a = s.bytes_when(s.enabled);
    let b = s.bytes_when(!s.enabled);
    memory::law_later_write_counts(m, at, a, b);
    memory::law_later_write_counts(m, at, b, a);
}

/// A near branch leads to its destination: the distance that its field holds,
/// counted from its end.
pub proof fn law_near_branch_lands(op: u8, from: usize, to: usize, len: int)
    requires
        len >= 5,
        assembler::fits_rel32(branch_distance(from, to)),
    ensures
        near_branch(op, branch_distance(from, to), len).len() == len,
        near_branch(op, branch_distance(from, to), len)[0] == op,
        (from + 5 + bytes::signed32(
            bytes::le_value(
                near_branch(op, branch_distance(from, to), len).subrange(1, 5),
            ),
        )) % 0x1_0000_0000_0000_0000 == to,
{
    let d = branch_distance(from, to);
    let v = bytes::twos32(d);
    let code = near_branch(op, d, len);
    bytes::lemma_le_bytes_len(v, 4);
    assert(code.subrange(1, 5) =~= bytes::le_bytes(v, 4));
    reveal_with_fuel(bytes::pow256, 5);
    assert(bytes::pow256(4) == 0x1_0000_0000);
    bytes::law_le_round_trip(v, 4);
    assert(bytes::signed32(v) == d);
    let x = to - (from + 5);
    assert((from + 5 + d) % 0x1_0000_0000_0000_0000 == to as int) by {
        vstd::arithmetic::div_mod::lemma_fundamental_div_mod(x, 0x1_0000_0000_0000_0000);
    }
}

/// An absolute jump holds its destination.
pub proof fn law_far_jump_lands(to: usize, len: int)
    requires
        len >= 14,
    ensures
        far_jump(to, len).len() == len,
        far_jump(to, len).subrange(0, 6) == seq![0xFFu8, 0x25, 0, 0, 0, 0],
        bytes::le_value(far_jump(to, len).subrange(6, 14)) == to,
{
    let v = to as nat;
    bytes::lemma_le_bytes_len(v, 8);
    reveal_with_fuel(bytes::pow256, 9);
    assert(bytes::pow256(8) == 0x1_0000_0000_0000_0000);
    bytes::law_le_round_trip(v, 8);
    assert(far_jump(to, len).subrange(6, 14) =~= bytes::le_bytes(v, 8));
    assert(far_jump(to, len).subrange(0, 6) =~= seq![0xFFu8, 0x25, 0, 0, 0, 0]);
}

/// Whether `code` at `from` is a near branch to `to`, a jump or a call, with
/// nothing but idle instructions behind it.
pub open spec fn branches_near(code: Seq<u8>, call: bool, from: usize, to: usize) -> bool {
    &&& code.len() >= 5
    &&& match machine::decode(code) {
        Some((Instr::Jump(d), len)) => !call && len == 5 && assembler::leads(
            from + 5,
            d,
            to as int,
        ),
        Some((Instr::Call(d), len)) => call && len == 5 && assembler::leads(
            from + 5,
            d,
            to as int,
        ),
        _ => false,
    }
    &&& idle(code.skip(5))
}

/// Whether `code` jumps to `to` through the address that it holds, with nothing
/// but idle instructions behind that.
pub open spec fn jumps_far(code: Seq<u8>, to: usize) -> bool {
    &&& code.len() >= 14
    &&& machine::decode(code) == Some((Instr::JumpThrough(0), 6int))
    &&& machine::u64_at(code, 6) == to
    &&& idle(code.skip(14))
}

/// Whether code does nothing when it runs.
pub open spec fn idle(code: Seq<u8>) -> bool {
    forall|s: machine::State| #[trigger] machine::run(code, s) == Some(s)
}

proof fn lemma_idle(n: int)
    ensures
        idle(nops(n)),
{
    assert forall|s: machine::State| #[trigger] machine::run(nops(n), s) == Some(s) by {
        assembler::lemma_nops_run(nops(n), s);
    }
}

pub(crate) proof fn lemma_near(op: u8, from: usize, to: usize, len: int)
    requires
        op == 0xE9 || op == 0xE8,
        len >= 5,
        assembler::fits_rel32(branch_distance(from, to)),
    ensures
        near_branch(op, branch_distance(from, to), len).len() == len,
        branches_near(near_branch(op, branch_distance(from, to), len), op == 0xE8, from, to),
{
    reveal(machine::decode_behind);
    let d = branch_distance(from, to);
    let v = bytes::twos32(d);
    let c = near_branch(op, d, len);
    bytes::lemma_le_bytes_len(v, 4);
    assert(c.subrange(1, 5) =~= bytes::le_bytes(v, 4));
    machine::lemma_written_number(c, 1, v);
    assert(bytes::signed32(v) == d);
    assembler::lemma_distance_leads(from + 5, to as int, to as int);
    assert(c.skip(5) =~= nops(len - 5));
    lemma_idle(len - 5);
    assert(c[0] == op);
}

pub(crate) proof fn lemma_far(to: usize, len: int)
    requires
        len >= 14,
    ensures
        far_jump(to, len).len() == len,
        jumps_far(far_jump(to, len), to),
{
    let c = far_jump(to, len);
    let j = assembler::enc_jmp_abs(to as u64);
    assembler::lemma_decode_jmp_abs(to as u64);
    machine::law_decoding_is_local(j, nops(len - 14));
    assert(c.skip(14) =~= nops(len - 14));
    lemma_idle(len - 14);
    assert forall|i: int| 0 <= i < 14 implies #[trigger] c[i] == j[i] by {}
}

/// A jump is written if and only if there is room for it and some distance of 32
/// bits leads to its destination. It then starts with a read of what it replaces,
/// fills all of the room, and leads to its destination when it runs.
pub proof fn law_write_jmp_jumps(
    p: &Process,
    from: usize,
    to: usize,
    len: usize,
    r: Result<(ReadRequest, PatchRead<'_>), Error>,
)
    requires
        call_ensures(Process::write_jmp, (p, from, to, len), r),
    ensures
        match r {
            Ok((req, next)) => {
                &&& req.addr == from && req.len == len
                &&& next@.pid == p@
                &&& next@.addr == from
                &&& next@.new.len() == len
                &&& branches_near(next@.new, false, from, to)
            },
            Err(Error::PatchTooSmall { need, got }) => len < 5 && need == 5 && got == len,
            Err(Error::BranchTooFar { from: f, to: t }) => len >= 5 && f == from && t == to
                && !assembler::reaches(from + 5, to as int),
            Err(_) => false,
        },
{
    assembler::lemma_distance_leads(from + 5, to as int, to as int);
    if len >= 5 && assembler::fits_rel32(branch_distance(from, to)) {
        lemma_near(0xE9, from, to, len as int);
    }
}

/// A call is written just as a jump is, and calls its destination when it runs.
pub proof fn law_write_call_calls(
    p: &Process,
    from: usize,
    to: usize,
    len: usize,
    r: Result<(ReadRequest, PatchRead<'_>), Error>,
)
    requires
        call_ensures(Process::write_call, (p, from, to, len), r),
    ensures
        match r {
            Ok((req, next)) => {
                &&& req.addr == from && req.len == len
                &&& next@.pid == p@
                &&& next@.addr == from
                &&& next@.new.len() == len
                &&& branches_near(next@.new, true, from, to)
            },
            Err(Error::PatchTooSmall { need, got }) => len < 5 && need == 5 && got == len,
            Err(Error::BranchTooFar { from: f, to: t }) => len >= 5 && f == from && t == to
                && !assembler::reaches(from + 5, to as int),
            Err(_) => false,
        },
{
    assembler::lemma_distance_leads(from + 5, to as int, to as int);
    if len >= 5 && assembler::fits_rel32(branch_distance(from, to)) {
        lemma_near(0xE8, from, to, len as int);
    }
}

/// An absolute jump is written if and only if there is room for 14 bytes, and
/// leads to its destination wherever that is.
pub proof fn law_write_jmp_abs_jumps(
    p: &Process,
    from: usize,
    to: usize,
    len: usize,
    r: Result<(ReadRequest, PatchRead<'_>), Error>,
)
    requires
        call_ensures(Process::write_jmp_abs, (p, from, to, len), r),
    ensures
        match r {
            Ok((req, next)) => {
                &&& req.addr == from && req.len == len
                &&& next@.pid == p@
                &&& next@.addr == from
                &&& next@.new.len() == len
                &&& jumps_far(next@.new, to)
            },
            Err(Error::PatchTooSmall { need, got }) => len < 14 && need == 14 && got == len,
            Err(_) => false,
        },
{
    if len >= 14 {
        lemma_far(to, len as int);
    }
}

/// A detour leads to its destination when it runs, by a near jump if one can reach
/// it and by an absolute one if not. It fails if and only if there is no room for
/// that jump.
pub proof fn law_detour_leads_to_its_destination(
    p: &Process,
    from: usize,
    to: usize,
    len: usize,
    r: Result<(ReadRequest, PatchRead<'_>), Error>,
)
    requires
        call_ensures(Process::detour, (p, from, to, len), r),
    ensures
        match r {
            Ok((req, next)) => {
                &&& req.addr == from && req.len == len
                &&& next@.pid == p@
                &&& next@.addr == from
                &&& next@.new.len() == len
                &&& if assembler::reaches(from + 5, to as int) {
                    branches_near(next@.new, false, from, to)
                } else {
                    jumps_far(next@.new, to)
                }
            },
            Err(Error::PatchTooSmall { need, got }) => got == len && len < need && need == (
            if assembler::reaches(from + 5, to as int) {
                5
            } else {
                14int
            }),
            Err(_) => false,
        },
{
    assembler::lemma_distance_leads(from + 5, to as int, to as int);
    if len >= 5 && assembler::fits_rel32(branch_distance(from, to)) {
        lemma_near(0xE9, from, to, len as int);
    }
    if len >= 14 {
        lemma_far(to, len as int);
    }
}

/// A patch of idle instructions fills just the range, and does nothing when it
/// runs.
pub proof fn law_nop_idles(
    p: &Process,
    addr: usize,
    len: usize,
    r: (ReadRequest, PatchRead<'_>),
)
    requires
        call_ensures(Process::nop, (p, addr, len), r),
    ensures
        r.0.addr == addr,
        r.0.len == len,
        r.1@.pid == p@,
        r.1@.addr == addr,
        r.1@.new.len() == len,
        idle(r.1@.new),
{
    lemma_idle(len as int);
}

/// A patch at a signature goes to where the signature matches, and as far behind
/// that as was asked, with the bytes that were given.
pub proof fn law_pattern_patch_goes_to_the_match(
    p: &Process,
    module: &str,
    sig: &str,
    match_offset: usize,
    new: &[u8],
    search: FindModule,
    next: PatchPattern<'_>,
    found: Result<Option<usize>, Error>,
    r: Result<(ReadRequest, PatchRead<'_>), Error>,
)
    requires
        call_ensures(
            Process::patch_pattern,
            (p, module, sig, match_offset, new),
            Ok::<(FindModule, PatchPattern<'_>), Error>((search, next)),
        ),
        call_ensures(PatchPattern::resume, (next, found), r),
    ensures
        search@.module == module@,
        search@.pid == p@,
        !search@.code,
        match found {
            Ok(Some(at)) => {
                &&& r matches Ok((req, patch))
                &&& req.addr == (at + match_offset) % (usize::MAX + 1)
                &&& req.len == new@.len()
                &&& patch@.addr == (at + match_offset) % (usize::MAX + 1)
                &&& patch@.new == new@
                &&& patch@.pid == p@
            },
            Ok(None) => r matches Err(Error::PatternNotFound(s)) && s@ == sig@,
            Err(e) => r == Err::<(ReadRequest, PatchRead<'_>), Error>(e),
        },
{
    if let Ok(Some(at)) = found {
        bytes::lemma_wraps(at, match_offset);
    }
    assert(new@.len() == new.len());
}

/// A patch writes its bytes over the range and nothing else. It is on then, and
/// turning it off, or dropping it, gives back the memory that was there before.
pub proof fn law_patch_life(
    m: Map<int, u8>,
    p: &Process,
    addr: usize,
    new: &[u8],
    started: (ReadRequest, PatchRead<'_>),
    original: Vec<u8>,
    w: WriteRequest,
    writing: PatchWrite<'_>,
    patch: Patch<'_>,
    on: bool,
    off: (WriteRequest, Switch),
    again: (WriteRequest, Switch),
    flip: (WriteRequest, Switch),
    dropped: Option<WriteRequest>,
)
    requires
        memory::mapped(m, addr as int, new@.len() as int),
        call_ensures(Process::patch, (p, addr, new), started),
        original@ == memory::peek(m, started.0.addr as int, started.0.len as nat),
        call_ensures(
            PatchRead::resume,
            (started.1, Ok::<Vec<u8>, Error>(original)),
            Ok::<(WriteRequest, PatchWrite<'_>), Error>((w, writing)),
        ),
        call_ensures(
            PatchWrite::resume,
            (writing, Ok::<(), Error>(())),
            Ok::<Patch<'_>, Error>(patch),
        ),
        call_ensures(Patch::is_enabled, (&patch,), on),
        call_ensures(Patch::disable, (&patch,), off),
        call_ensures(Patch::enable, (&patch,), again),
        call_ensures(Patch::toggle, (&patch,), flip),
        call_ensures(Patch::on_drop, (&patch,), dropped),
    ensures
        memory::peek(w.on(m), addr as int, new@.len()) == new@,
        forall|a: int|
            m.contains_key(a) && !(addr <= a < addr + new@.len()) ==> #[trigger] w.on(m)[a] == m[a],
        patch@.addr == addr,
        patch@.pid == p@,
        on,
        off.0.on(w.on(m)) == m,
        !off.1@,
        again.0.on(w.on(m)) == w.on(m),
        again.0.on(m) == w.on(m),
        again.1@,
        flip.0.on(w.on(m)) == m,
        !flip.1@,
        dropped matches Some(back) && back.on(w.on(m)) == m,
{
    let s = patch@;
    assert(new@.len() == new.len());
    assert(s.original == memory::peek(m, s.addr as int, s.patched.len()));
    memory::law_peek_after_poke(m, addr as int, new@);
    memory::law_writing_back_restores(m, addr as int, new@);
    memory::law_later_write_counts(m, addr as int, new@, new@);
}

/// Once a switch is written, the patch is on or off as it was switched, and says
/// so; one whose write failed leaves it as it was. A patch that is off has nothing
/// to put back, and toggling it turns it on.
pub proof fn law_switch_takes_effect(
    patch: &mut Patch<'_>,
    switch: Switch,
    result: Result<(), Error>,
    r: Result<(), Error>,
    on: bool,
    flip: (WriteRequest, Switch),
    dropped: Option<WriteRequest>,
)
    requires
        call_ensures(Patch::settle, (patch, switch, result), r),
        call_ensures(Patch::is_enabled, (final(patch),), on),
        call_ensures(Patch::toggle, (final(patch),), flip),
        call_ensures(Patch::on_drop, (final(patch),), dropped),
    ensures
        r == result,
        on == (if result is Ok {
            switch@
        } else {
            old(patch)@.enabled
        }),
        final(patch)@.addr == old(patch)@.addr,
        final(patch)@.original == old(patch)@.original,
        final(patch)@.patched == old(patch)@.patched,
        flip.1@ == !on,
        flip.0.addr == old(patch)@.addr,
        flip.0.bytes@ == (if on {
            old(patch)@.original
        } else {
            old(patch)@.patched
        }),
        !on ==> dropped is None,
        on && old(patch)@.restore_on_drop ==> (dropped matches Some(w) && w.addr
            == old(patch)@.addr && w.bytes@ == old(patch)@.original),
{
}

/// A patch that persists puts nothing back when it is dropped, and is as it was
/// otherwise.
pub proof fn law_persisting_keeps_the_patch(
    patch: &mut Patch<'_>,
    r: (),
    dropped: Option<WriteRequest>,
    on: bool,
)
    requires
        call_ensures(Patch::persist, (patch,), r),
        call_ensures(Patch::on_drop, (final(patch),), dropped),
        call_ensures(Patch::is_enabled, (final(patch),), on),
    ensures
        dropped is None,
        on == old(patch)@.enabled,
        final(patch)@.patched == old(patch)@.patched,
        final(patch)@.original == old(patch)@.original,
        final(patch)@.addr == old(patch)@.addr,
{
}

/// Whether a drop puts the original bytes back is what was last said of it.
pub proof fn law_restoring_is_chosen(
    patch: &mut Patch<'_>,
    yes: bool,
    r: (),
    dropped: Option<WriteRequest>,
)
    requires
        call_ensures(Patch::set_restore_on_drop, (patch, yes), r),
        call_ensures(Patch::on_drop, (final(patch),), dropped),
    ensures
        dropped is Some <==> yes && old(patch)@.enabled,
        dropped matches Some(w) ==> w.addr == old(patch)@.addr && w.bytes@ == old(patch)@.original,
{
}

/// An error of a read or of a write ends the making of a patch, and is what comes
/// of it.
pub proof fn law_errors_end_a_patch(
    e: Error,
    reading: PatchRead<'_>,
    read: Result<(WriteRequest, PatchWrite<'_>), Error>,
    writing: PatchWrite<'_>,
    written: Result<Patch<'_>, Error>,
)
    requires
        call_ensures(PatchRead::resume, (reading, Err::<Vec<u8>, Error>(e)), read),
        call_ensures(PatchWrite::resume, (writing, Err::<(), Error>(e)), written),
    ensures
        read == Err::<(WriteRequest, PatchWrite<'_>), Error>(e),
        written == Err::<Patch<'_>, Error>(e),
{
}

/// A patch tells where it is, how long it is, what it replaced and by what.
pub proof fn law_patch_tells_of_itself(
    p: &Process,
    addr: usize,
    new: &[u8],
    started: (ReadRequest, PatchRead<'_>),
    original: Vec<u8>,
    w: WriteRequest,
    writing: PatchWrite<'_>,
    patch: Patch<'_>,
    at: usize,
    len: usize,
    empty: bool,
    was: &[u8],
    is: &[u8],
)
    requires
        original@.len() == new@.len(),
        call_ensures(Process::patch, (p, addr, new), started),
        call_ensures(
            PatchRead::resume,
            (started.1, Ok::<Vec<u8>, Error>(original)),
            Ok::<(WriteRequest, PatchWrite<'_>), Error>((w, writing)),
        ),
        call_ensures(
            PatchWrite::resume,
            (writing, Ok::<(), Error>(())),
            Ok::<Patch<'_>, Error>(patch),
        ),
        call_ensures(Patch::addr, (&patch,), at),
        call_ensures(Patch::len, (&patch,), len),
        call_ensures(Patch::is_empty, (&patch,), empty),
        call_ensures(Patch::original, (&patch,), was),
        call_ensures(Patch::patched, (&patch,), is),
    ensures
        at == addr,
        len == new@.len(),
        empty == (new@.len() == 0),
        was@ == original@,
        is@ == new@,
{
}

} // verus!
