//! A tiny x86-64 machine-code builder for code caves and detours.
use vstd::prelude::*;

use crate::bytes;
use crate::machine;
use crate::machine::Instr;
use crate::text;

verus! {

/// x86-64 general-purpose registers (64-bit), numbered 0 to 15 in this order.
#[derive(Clone, Copy, Debug, PartialEq, Eq, Structural)]
pub enum Reg {
    /// `rax` (accumulator).
    Rax,
    /// `rcx` (counter).
    Rcx,
    /// `rdx` (data).
    Rdx,
    /// `rbx` (base).
    Rbx,
    /// `rsp` (stack pointer).
    Rsp,
    /// `rbp` (base pointer).
    Rbp,
    /// `rsi` (source index).
    Rsi,
    /// `rdi` (destination index).
    Rdi,
    /// `r8`.
    R8,
    /// `r9`.
    R9,
    /// `r10`.
    R10,
    /// `r11`.
    R11,
    /// `r12`.
    R12,
    /// `r13`.
    R13,
    /// `r14`.
    R14,
    /// `r15`.
    R15,
}

impl Reg {
    /// The register's number in machine code.
    pub open spec fn spec_num(self) -> u8 {
        match self {
            Reg::Rax => 0,
            Reg::Rcx => 1,
            Reg::Rdx => 2,
            Reg::Rbx => 3,
            Reg::Rsp => 4,
            Reg::Rbp => 5,
            Reg::Rsi => 6,
            Reg::Rdi => 7,
            Reg::R8 => 8,
            Reg::R9 => 9,
            Reg::R10 => 10,
            Reg::R11 => 11,
            Reg::R12 => 12,
            Reg::R13 => 13,
            Reg::R14 => 14,
            Reg::R15 => 15,
        }
    }

    /// The bit that a REX prefix adds to a register field.
    pub open spec fn ext(self) -> u8 {
        self.spec_num() / 8
    }

    /// The three bits that a register field itself holds.
    pub open spec fn low(self) -> u8 {
        self.spec_num() % 8
    }

    fn num(self) -> (r: u8)
        ensures
            r == self.spec_num(),
            r < 16,
    {
        match self {
            Reg::Rax => 0,
            Reg::Rcx => 1,
            Reg::Rdx => 2,
            Reg::Rbx => 3,
            Reg::Rsp => 4,
            Reg::Rbp => 5,
            Reg::Rsi => 6,
            Reg::Rdi => 7,
            Reg::R8 => 8,
            Reg::R9 => 9,
            Reg::R10 => 10,
            Reg::R11 => 11,
            Reg::R12 => 12,
            Reg::R13 => 13,
            Reg::R14 => 14,
            Reg::R15 => 15,
        }
    }

    /// Whether the register is one of `r8` to `r15`, which need a REX bit.
    pub fn hi(self) -> (r: bool)
        ensures
            r == (self.ext() == 1),
            !r == (self.ext() == 0),
    {
        self.num() >= 8
    }

    /// The low three bits of the register's number.
    pub fn low3(self) -> (r: u8)
        ensures
            r == self.low(),
            r < 8,
    {
        self.num() % 8
    }
}

/// Where a relative branch leads.
pub enum Dest {
    /// A label of the same code.
    Label(Seq<char>),
    /// An absolute address.
    Addr(u64),
}

/// A relative branch whose `rel32` field is still to be filled in.
pub struct Branch {
    /// Offset of the four-byte field; the instruction ends right behind it.
    pub at: nat,
    pub dest: Dest,
}

/// What an [`Asm`] has accumulated.
#[verifier::ext_equal]
pub struct Listing {
    /// The encoded bytes, with zeros in the fields of relative branches.
    pub code: Seq<u8>,
    /// Each label's offset.
    pub labels: Map<Seq<char>, nat>,
    /// The relative branches, in the order of their emission.
    pub branches: Seq<Branch>,
}

impl Listing {
    /// The listing of an empty builder.
    pub open spec fn empty() -> Listing {
        Listing { code: Seq::empty(), labels: Map::empty(), branches: Seq::empty() }
    }

    /// The listing with `s` behind its code.
    pub open spec fn emit(self, s: Seq<u8>) -> Listing {
        Listing { code: self.code + s, ..self }
    }

    /// The listing with a relative branch of opcode `op` behind its code.
    pub open spec fn branch(self, op: u8, dest: Dest) -> Listing {
        Listing {
            code: self.code + seq![op, 0, 0, 0, 0],
            labels: self.labels,
            branches: self.branches.push(Branch { at: self.code.len() + 1, dest }),
        }
    }

    /// The listing with `name` at its end.
    pub open spec fn label(self, name: Seq<char>) -> Listing {
        Listing { labels: self.labels.insert(name, self.code.len()), ..self }
    }

    /// Every branch field lies within the code, and behind the one before it;
    /// every label lies within the code or at its end.
    pub open spec fn wf(self) -> bool {
        &&& forall|k: int|
            0 <= k < self.branches.len() ==> (#[trigger] self.branches[k]).at + 4
                <= self.code.len()
        &&& forall|j: int, k: int|
            0 <= j < k < self.branches.len() ==> (#[trigger] self.branches[j]).at + 4 <= (
            #[trigger] self.branches[k]).at
        &&& forall|n: Seq<char>| #[trigger]
            self.labels.contains_key(n) ==> self.labels[n] <= self.code.len()
    }

    /// The address that branch `k` leads to when the code starts at `base`, or
    /// nothing if its label is not defined.
    pub open spec fn dest_addr(self, base: u64, k: int) -> Option<int> {
        match self.branches[k].dest {
            Dest::Label(n) => if self.labels.contains_key(n) {
                Some((base + self.labels[n]) % 0x1_0000_0000_0000_0000)
            } else {
                None
            },
            Dest::Addr(a) => Some(a as int),
        }
    }

    /// The distance from the end of branch `k` to its destination, around the
    /// 64-bit address space the shorter way.
    pub open spec fn distance(self, base: u64, k: int) -> int {
        signed64(self.dest_addr(base, k)->0 - (base + self.branches[k].at + 4))
    }

    /// What is wrong with branch `k`, if anything.
    pub open spec fn fault(self, base: u64, k: int) -> Option<Fault> {
        if self.dest_addr(base, k) is None {
            Some(Fault::Undefined(self.branches[k].dest->Label_0))
        } else if !fits_rel32(self.distance(base, k)) {
            Some(Fault::TooFar(self.distance(base, k)))
        } else {
            None
        }
    }

    /// The first thing that is wrong with a branch from the `k`th on.
    pub open spec fn first_fault(self, base: u64, k: int) -> Option<Fault>
        decreases self.branches.len() - k,
    {
        if k >= self.branches.len() {
            None
        } else if self.fault(base, k) is Some {
            self.fault(base, k)
        } else {
            self.first_fault(base, k + 1)
        }
    }

    /// The code with the fields of its first `n` branches filled in.
    pub open spec fn linked(self, base: u64, n: int) -> Seq<u8>
        decreases n,
    {
        if n <= 0 {
            self.code
        } else {
            splice(
                self.linked(base, n - 1),
                self.branches[n - 1].at as int,
                bytes::le_bytes(bytes::twos32(self.distance(base, n - 1)), 4),
            )
        }
    }
}

/// Why a branch cannot be encoded.
pub enum Fault {
    /// Its label is not defined.
    Undefined(Seq<char>),
    /// Its distance does not fit in 32 bits.
    TooFar(int),
}

impl Fault {
    /// What is wrong, in words.
    pub open spec fn text(self) -> Seq<char> {
        match self {
            Fault::Undefined(name) => "undefined label '"@ + name + "'"@,
            Fault::TooFar(rel) => "rel32 target out of range (delta "@ + text::decimal(rel)
                + ")"@,
        }
    }
}

/// `x` modulo 2 to the 64, as a signed number.
pub open spec fn signed64(x: int) -> int {
    let m = x % 0x1_0000_0000_0000_0000;
    if m < 0x8000_0000_0000_0000 {
        m
    } else {
        m - 0x1_0000_0000_0000_0000
    }
}

/// Whether a `rel32` field can hold the distance.
pub open spec fn fits_rel32(d: int) -> bool {
    -0x8000_0000 <= d < 0x8000_0000
}

/// `s` with `field` written over it at `at`.
pub open spec fn splice(s: Seq<u8>, at: int, field: Seq<u8>) -> Seq<u8> {
    s.subrange(0, at) + field + s.subrange(at + field.len(), s.len() as int)
}

#[derive(Debug)]
enum Target {
    Label(String),
    Addr(u64),
}

/// A four-byte `rel32` field at `at`, the end of its instruction.
#[derive(Debug)]
struct Reloc {
    at: usize,
    target: Target,
}

/// Accumulates machine code with deferred relocation of relative jumps.
///
/// Build with the chainable methods, then call [`assemble`](Self::assemble)
/// with the address the code will live at to get the finished bytes with all
/// relative jumps resolved.
#[derive(Debug)]
#[must_use]
pub struct Asm {
    buf: Vec<u8>,
    /// Labels in the order of their definition; of two with one name the later
    /// one counts.
    labels: Vec<(String, usize)>,
    relocs: Vec<Reloc>,
}

spec fn label_map(v: Seq<(String, usize)>) -> Map<Seq<char>, nat>
    decreases v.len(),
{
    if v.len() == 0 {
        Map::empty()
    } else {
        label_map(v.drop_last()).insert(v.last().0@, v.last().1 as nat)
    }
}

impl Target {
    spec fn dest(self) -> Dest {
        match self {
            Target::Label(s) => Dest::Label(s@),
            Target::Addr(a) => Dest::Addr(a),
        }
    }
}

impl Reloc {
    spec fn branch(self) -> Branch {
        Branch { at: self.at as nat, dest: self.target.dest() }
    }
}

impl View for Asm {
    type V = Listing;

    closed spec fn view(&self) -> Listing {
        Listing {
            code: self.buf@,
            labels: label_map(self.labels@),
            branches: self.relocs@.map_values(|r: Reloc| r.branch()),
        }
    }
}

/// `x` read as a two's complement number.
pub(crate) fn as_signed(x: u64) -> (r: i64)
    ensures
        r == signed64(x as int),
{
    if x < 0x8000_0000_0000_0000 {
        x as i64
    } else {
        -((0xFFFF_FFFF_FFFF_FFFF - x) as i64) - 1
    }
}

/// How far `target` lies from the end of a `rel32` field at offset `at` of code
/// that starts at `base`.
pub(crate) fn gap(base: u64, at: usize, target: u64) -> (r: i64)
    ensures
        r == signed64(target - (base + at + 4)),
{
    let rip: u64 = base.wrapping_add(at as u64).wrapping_add(4);
    as_signed(target.wrapping_sub(rip))
}

/// Write `field` over `buf` at `at`.
fn write_at(buf: &mut Vec<u8>, at: usize, field: &Vec<u8>)
    requires
        at + field@.len() <= old(buf)@.len(),
    ensures
        final(buf)@ == splice(old(buf)@, at as int, field@),
        final(buf)@.len() == old(buf)@.len(),
{
    let total: usize = buf.len();
    let mut j: usize = 0;
    while j < field.len()
        invariant
            j <= field.len(),
            at + field@.len() <= total,
            total == old(buf)@.len(),
            buf@.len() == old(buf)@.len(),
            forall|i: int| 0 <= i < j ==> buf@[at + i] == field@[i],
            forall|i: int| 0 <= i < buf@.len() && !(at <= i < at + j) ==> buf@[i] == old(buf)@[i],
        decreases field.len() - j,
    {
        buf.set(at + j, field[j]);
        j = j + 1;
    }
    assert forall|i: int| at <= i < at + field@.len() implies buf@[i] == field@[i - at] by {
        let k = i - at;
        assert(buf@[at + k] == field@[k]);
    }
    assert(buf@ =~= splice(old(buf)@, at as int, field@));
}

/// Errors from [`Asm::assemble`].
#[derive(Debug)]
#[non_exhaustive]
pub enum AsmError {
    /// A `jmp_label`/`call_label` referenced a label that was never defined.
    UndefinedLabel(String),
    /// A relative branch's target is more than 2 GiB away from the code's final
    /// site; use [`Asm::jmp_abs`] instead.
    Rel32OutOfRange {
        /// The computed relative delta, which does not fit in an `i32`.
        rel: i64,
    },
}

impl AsmError {
    /// What is wrong with the branch.
    pub open spec fn fault(self) -> Fault {
        match self {
            AsmError::UndefinedLabel(name) => Fault::Undefined(name@),
            AsmError::Rel32OutOfRange { rel } => Fault::TooFar(rel as int),
        }
    }

    /// The error in words.
    pub fn message(&self) -> (r: String)
        ensures
            r@ == self.fault().text(),
    {
        let mut s: String = String::new();
        match self {
            AsmError::UndefinedLabel(name) => {
                s.append("undefined label '");
                s.append(name.as_str());
                s.append("'");
            },
            AsmError::Rel32OutOfRange { rel } => {
                s.append("rel32 target out of range (delta ");
                text::push_decimal(&mut s, *rel);
                s.append(")");
            },
        }
        assert(s@ =~= self.fault().text());
        s
    }
}

impl Default for Asm {
    fn default() -> (r: Self)
        ensures
            r@ == Listing::empty(),
            r@.wf(),
    {
        Asm::new()
    }
}

/// A REX.W prefix: a 64-bit operand, with the extension bits of the register
/// field and of the r/m field.
pub open spec fn rex_byte(reg: Reg, rm: Reg) -> u8 {
    (0x48 + 4 * reg.ext() + rm.ext()) as u8
}

/// A ModRM byte that names two registers.
pub open spec fn modrm_byte(reg: u8, rm: Reg) -> u8 {
    (0xC0 + 8 * reg + rm.low()) as u8
}

/// `push r` or `pop r`, by the opcode of the first register.
pub open spec fn enc_stack(op: u8, r: Reg) -> Seq<u8> {
    if r.ext() == 1 {
        seq![0x41u8, (op + r.low()) as u8]
    } else {
        seq![(op + r.low()) as u8]
    }
}

/// `push r`.
pub open spec fn enc_push(r: Reg) -> Seq<u8> {
    enc_stack(0x50, r)
}

/// `pop r`.
pub open spec fn enc_pop(r: Reg) -> Seq<u8> {
    enc_stack(0x58, r)
}

/// A push of each register of `s` in turn.
pub open spec fn enc_pushes(s: Seq<Reg>) -> Seq<u8>
    decreases s.len(),
{
    if s.len() == 0 {
        Seq::empty()
    } else {
        enc_pushes(s.drop_last()) + enc_push(s.last())
    }
}

/// A pop into each register of `s` in turn.
pub open spec fn enc_pops(s: Seq<Reg>) -> Seq<u8>
    decreases s.len(),
{
    if s.len() == 0 {
        Seq::empty()
    } else {
        enc_pops(s.drop_last()) + enc_pop(s.last())
    }
}

/// Every general-purpose register but `rsp`, in the order of their saving.
pub open spec fn save_order() -> Seq<Reg> {
    seq![
        Reg::Rax,
        Reg::Rcx,
        Reg::Rdx,
        Reg::Rbx,
        Reg::Rbp,
        Reg::Rsi,
        Reg::Rdi,
        Reg::R8,
        Reg::R9,
        Reg::R10,
        Reg::R11,
        Reg::R12,
        Reg::R13,
        Reg::R14,
        Reg::R15,
    ]
}

/// `movabs r, imm64`.
pub open spec fn enc_mov_imm(r: Reg, imm: u64) -> Seq<u8> {
    seq![(0x48 + r.ext()) as u8, (0xB8 + r.low()) as u8] + bytes::le_bytes(imm as nat, 8)
}

/// An instruction of opcode `op` on two registers.
pub open spec fn enc_rr(op: u8, dst: Reg, src: Reg) -> Seq<u8> {
    seq![rex_byte(src, dst), op, modrm_byte(src.low(), dst)]
}

/// An arithmetic instruction on a register and a 32-bit immediate, by its
/// opcode extension.
pub open spec fn enc_alu_imm(op_ext: u8, r: Reg, imm: i32) -> Seq<u8> {
    seq![(0x48 + r.ext()) as u8, 0x81u8, modrm_byte(op_ext, r)] + bytes::le_bytes(
        bytes::twos32(imm as int),
        4,
    )
}

/// The operand `[base + disp32]` beside register field `reg`. A base of `rsp`
/// or `r12` needs a SIB byte.
pub open spec fn enc_mem(reg: Reg, base: Reg, disp: i32) -> Seq<u8> {
    let modrm = (0x80 + 8 * reg.low() + base.low()) as u8;
    (if base.low() == 4 {
        seq![modrm, 0x24u8]
    } else {
        seq![modrm]
    }) + bytes::le_bytes(bytes::twos32(disp as int), 4)
}

/// An instruction of opcode `op` on a register and a memory operand.
pub open spec fn enc_rm(op: u8, reg: Reg, base: Reg, disp: i32) -> Seq<u8> {
    seq![rex_byte(reg, base), op] + enc_mem(reg, base, disp)
}

/// The 14-byte RIP-indirect jump to an absolute address.
pub open spec fn enc_jmp_abs(target: u64) -> Seq<u8> {
    seq![0xFFu8, 0x25, 0, 0, 0, 0] + bytes::le_bytes(target as nat, 8)
}

fn push_order() -> (r: [Reg; 15])
    ensures
        r@ == save_order(),
{
    let r = [
        Reg::Rax,
        Reg::Rcx,
        Reg::Rdx,
        Reg::Rbx,
        Reg::Rbp,
        Reg::Rsi,
        Reg::Rdi,
        Reg::R8,
        Reg::R9,
        Reg::R10,
        Reg::R11,
        Reg::R12,
        Reg::R13,
        Reg::R14,
        Reg::R15,
    ];
    assert(r@ =~= save_order());
    r
}

impl Asm {
    /// Create an empty builder.
    pub fn new() -> (r: Self)
        ensures
            r@ == Listing::empty(),
            r@.wf(),
    {
        let r = Asm { buf: Vec::new(), labels: Vec::new(), relocs: Vec::new() };
        proof {
            assert(r@.branches =~= Seq::empty());
        }
        r
    }

    /// Current encoded length in bytes (before relocation).
    pub fn len(&self) -> (r: usize)
        ensures
            r == self@.code.len(),
    {
        self.buf.len()
    }

    /// Whether no bytes have been emitted yet.
    pub fn is_empty(&self) -> (r: bool)
        ensures
            r == (self@.code.len() == 0),
    {
        self.buf.len() == 0
    }

    /// Append raw, already-encoded bytes (e.g. stolen original instructions).
    pub fn raw(&mut self, bytes: &[u8]) -> (r: &mut Self)
        ensures
            r@ == old(self)@.emit(bytes@),
            *final(self) == *final(r),
            old(self)@.wf() ==> r@.wf(),
    {
        self.buf.extend_from_slice(bytes);
        self
    }

    /// Emit a single `nop` (`0x90`).
    pub fn nop(&mut self) -> (r: &mut Self)
        ensures
            r@ == old(self)@.emit(seq![0x90u8]),
            *final(self) == *final(r),
            old(self)@.wf() ==> r@.wf(),
    {
        self.buf.push(0x90);
        self
    }

    /// Emit `n` `nop` bytes.
    pub fn nops(&mut self, n: usize) -> (r: &mut Self)
        ensures
            r@ == old(self)@.emit(Seq::new(n as nat, |i: int| 0x90u8)),
            *final(self) == *final(r),
            old(self)@.wf() ==> r@.wf(),
    {
        let mut i: usize = 0;
        assert(self@ =~= old(self)@.emit(Seq::new(0, |i: int| 0x90u8)));
        while i < n
            invariant
                i <= n,
                self@ == old(self)@.emit(Seq::new(i as nat, |i: int| 0x90u8)),
            decreases n - i,
        {
            self.buf.push(0x90);
            i = i + 1;
            assert(self@.code =~= old(self)@.code + Seq::new(i as nat, |i: int| 0x90u8));
        }
        self
    }

    /// Emit `int3` (`0xCC`), a debugger breakpoint.
    pub fn int3(&mut self) -> (r: &mut Self)
        ensures
            r@ == old(self)@.emit(seq![0xCCu8]),
            *final(self) == *final(r),
            old(self)@.wf() ==> r@.wf(),
    {
        self.buf.push(0xCC);
        self
    }

    /// Emit `ret` (`0xC3`).
    pub fn ret(&mut self) -> (r: &mut Self)
        ensures
            r@ == old(self)@.emit(seq![0xC3u8]),
            *final(self) == *final(r),
            old(self)@.wf() ==> r@.wf(),
    {
        self.buf.push(0xC3);
        self
    }

    /// Emit `push r` (64-bit).
    pub fn push(&mut self, r: Reg) -> (s: &mut Self)
        ensures
            s@ == old(self)@.emit(enc_push(r)),
            *final(self) == *final(s),
            old(self)@.wf() ==> s@.wf(),
    {
        if r.hi() {
            self.buf.push(0x41);
        }
        self.buf.push(0x50 + r.low3());
        assert(self@ == old(self)@.emit(enc_push(r)));
        self
    }

    /// Emit `pop r` (64-bit).
    pub fn pop(&mut self, r: Reg) -> (s: &mut Self)
        ensures
            s@ == old(self)@.emit(enc_pop(r)),
            *final(self) == *final(s),
            old(self)@.wf() ==> s@.wf(),
    {
        if r.hi() {
            self.buf.push(0x41);
        }
        self.buf.push(0x58 + r.low3());
        assert(self@ == old(self)@.emit(enc_pop(r)));
        self
    }

    /// Save the full GP set (minus `rsp`) with a run of `push`es. Handy at cave
    /// entry; pair with [`popad`](Self::popad) at exit.
    pub fn pushad(&mut self) -> (s: &mut Self)
        ensures
            s@ == old(self)@.emit(enc_pushes(save_order())),
            *final(self) == *final(s),
            old(self)@.wf() ==> s@.wf(),
    {
        let order: [Reg; 15] = push_order();
        let mut i: usize = 0;
        assert(self@ =~= old(self)@.emit(enc_pushes(order@.take(0))));
        while i < 15
            invariant
                i <= 15,
                order@ == save_order(),
                self@ == old(self)@.emit(enc_pushes(order@.take(i as int))),
            decreases 15 - i,
        {
            self.push(order[i]);
            assert(order@.take(i + 1).drop_last() =~= order@.take(i as int));
            i = i + 1;
            assert(self@ =~= old(self)@.emit(enc_pushes(order@.take(i as int))));
        }
        assert(order@.take(15) =~= order@);
        self
    }

    /// Restore what [`pushad`](Self::pushad) saved (pops in reverse order).
    pub fn popad(&mut self) -> (s: &mut Self)
        ensures
            s@ == old(self)@.emit(enc_pops(save_order().reverse())),
            *final(self) == *final(s),
            old(self)@.wf() ==> s@.wf(),
    {
        let order: [Reg; 15] = push_order();
        let ghost rev = save_order().reverse();
        let mut i: usize = 15;
        assert(self@ =~= old(self)@.emit(enc_pops(rev.take(0))));
        while i > 0
            invariant
                i <= 15,
                order@ == save_order(),
                rev == save_order().reverse(),
                self@ == old(self)@.emit(enc_pops(rev.take(15 - i))),
            decreases i,
        {
            i = i - 1;
            self.pop(order[i]);
            assert(rev.take(15 - i).drop_last() =~= rev.take(14 - i));
            assert(rev.take(15 - i).last() == order@[i as int]);
            assert(self@ =~= old(self)@.emit(enc_pops(rev.take(15 - i))));
        }
        assert(rev.take(15) =~= rev);
        self
    }

    /// Emit `movabs r, imm64` (load a full 64-bit immediate).
    pub fn mov_imm(&mut self, r: Reg, imm: u64) -> (s: &mut Self)
        ensures
            s@ == old(self)@.emit(enc_mov_imm(r, imm)),
            *final(self) == *final(s),
            old(self)@.wf() ==> s@.wf(),
    {
        self.buf.push(0x48 + r.num() / 8);
        self.buf.push(0xB8 + r.low3());
        bytes::push_le(&mut self.buf, imm, 8);
        assert(self@ =~= old(self)@.emit(enc_mov_imm(r, imm)));
        self
    }

    /// Emit `mov dst, src` (64-bit register-to-register).
    pub fn mov_rr(&mut self, dst: Reg, src: Reg) -> (s: &mut Self)
        ensures
            s@ == old(self)@.emit(enc_rr(0x89, dst, src)),
            *final(self) == *final(s),
            old(self)@.wf() ==> s@.wf(),
    {
        self.rex_w(src, dst);
        self.buf.push(0x89);
        self.modrm_reg(src, dst);
        self
    }

    /// Emit `xor dst, src` (64-bit). `xor r, r` is the idiomatic register zero.
    pub fn xor_rr(&mut self, dst: Reg, src: Reg) -> (s: &mut Self)
        ensures
            s@ == old(self)@.emit(enc_rr(0x31, dst, src)),
            *final(self) == *final(s),
            old(self)@.wf() ==> s@.wf(),
    {
        self.rex_w(src, dst);
        self.buf.push(0x31);
        self.modrm_reg(src, dst);
        self
    }

    /// Emit `add r, imm32` (64-bit).
    pub fn add_imm(&mut self, r: Reg, imm: i32) -> (s: &mut Self)
        ensures
            s@ == old(self)@.emit(enc_alu_imm(0, r, imm)),
            *final(self) == *final(s),
            old(self)@.wf() ==> s@.wf(),
    {
        self.alu_imm(0, r, imm)
    }

    /// Emit `sub r, imm32` (64-bit).
    pub fn sub_imm(&mut self, r: Reg, imm: i32) -> (s: &mut Self)
        ensures
            s@ == old(self)@.emit(enc_alu_imm(5, r, imm)),
            *final(self) == *final(s),
            old(self)@.wf() ==> s@.wf(),
    {
        self.alu_imm(5, r, imm)
    }

    /// Emit `mov [base + disp], src` (64-bit store).
    pub fn store(&mut self, base: Reg, disp: i32, src: Reg) -> (s: &mut Self)
        ensures
            s@ == old(self)@.emit(enc_rm(0x89, src, base, disp)),
            *final(self) == *final(s),
            old(self)@.wf() ==> s@.wf(),
    {
        self.rex_w(src, base);
        self.buf.push(0x89);
        self.mem_modrm(src, base, disp);
        assert(self@ =~= old(self)@.emit(enc_rm(0x89, src, base, disp)));
        self
    }

    /// Emit `mov dst, [base + disp]` (64-bit load).
    pub fn load(&mut self, dst: Reg, base: Reg, disp: i32) -> (s: &mut Self)
        ensures
            s@ == old(self)@.emit(enc_rm(0x8B, dst, base, disp)),
            *final(self) == *final(s),
            old(self)@.wf() ==> s@.wf(),
    {
        self.rex_w(dst, base);
        self.buf.push(0x8B);
        self.mem_modrm(dst, base, disp);
        assert(self@ =~= old(self)@.emit(enc_rm(0x8B, dst, base, disp)));
        self
    }

    /// Define a label at the current position, referable by
    /// [`jmp_label`](Self::jmp_label) / [`call_label`](Self::call_label). A
    /// second definition of a name replaces the first.
    pub fn label(&mut self, name: &str) -> (s: &mut Self)
        ensures
            s@ == old(self)@.label(name@),
            *final(self) == *final(s),
            old(self)@.wf() ==> s@.wf(),
    {
        self.labels.push((name.to_owned(), self.buf.len()));
        assert(self.labels@.drop_last() =~= old(self).labels@);
        self
    }

    /// Emit `jmp <label>` (rel32, resolved at assemble time).
    pub fn jmp_label(&mut self, name: &str) -> (s: &mut Self)
        ensures
            s@ == old(self)@.branch(0xE9, Dest::Label(name@)),
            *final(self) == *final(s),
            old(self)@.wf() ==> s@.wf(),
    {
        self.rel_branch(0xE9, Target::Label(name.to_owned()));
        self
    }

    /// Emit `call <label>` (rel32, resolved at assemble time).
    pub fn call_label(&mut self, name: &str) -> (s: &mut Self)
        ensures
            s@ == old(self)@.branch(0xE8, Dest::Label(name@)),
            *final(self) == *final(s),
            old(self)@.wf() ==> s@.wf(),
    {
        self.rel_branch(0xE8, Target::Label(name.to_owned()));
        self
    }

    /// Emit `jmp <absolute>` as rel32 (the target must be within 2 GiB of the
    /// code's final site, or [`assemble`](Self::assemble) errors).
    pub fn jmp(&mut self, target: u64) -> (s: &mut Self)
        ensures
            s@ == old(self)@.branch(0xE9, Dest::Addr(target)),
            *final(self) == *final(s),
            old(self)@.wf() ==> s@.wf(),
    {
        self.rel_branch(0xE9, Target::Addr(target));
        self
    }

    /// Emit `call <absolute>` as rel32 (same caveat as [`jmp`](Self::jmp)).
    pub fn call(&mut self, target: u64) -> (s: &mut Self)
        ensures
            s@ == old(self)@.branch(0xE8, Dest::Addr(target)),
            *final(self) == *final(s),
            old(self)@.wf() ==> s@.wf(),
    {
        self.rel_branch(0xE8, Target::Addr(target));
        self
    }

    /// Emit `jmp <absolute>` via a 14-byte `FF 25` RIP-indirect jump, which
    /// reaches anywhere in the 64-bit address space (no range limit).
    pub fn jmp_abs(&mut self, target: u64) -> (s: &mut Self)
        ensures
            s@ == old(self)@.emit(enc_jmp_abs(target)),
            *final(self) == *final(s),
            old(self)@.wf() ==> s@.wf(),
    {
        self.buf.push(0xFF);
        self.buf.push(0x25);
        bytes::push_le(&mut self.buf, 0, 4);
        bytes::push_le(&mut self.buf, target, 8);
        proof {
            reveal_with_fuel(bytes::le_bytes, 5);
            assert(bytes::le_bytes(0, 4) =~= seq![0u8, 0, 0, 0]);
            assert(self@ =~= old(self)@.emit(enc_jmp_abs(target)));
        }
        self
    }

    /// Resolve labels/relative targets for a final load address and return the
    /// finished bytes.
    ///
    /// `base` is where the first byte will live in the target. Addresses wrap
    /// around at the end of the 64-bit space, as they do when the branch runs.
    ///
    /// # Errors
    /// [`AsmError::UndefinedLabel`] if a `jmp_label`/`call_label` references a
    /// label that was never defined, or [`AsmError::Rel32OutOfRange`] if a
    /// relative branch cannot reach its target from `base`; whichever comes
    /// first in the code.
    pub fn assemble(&self, base: u64) -> (r: Result<Vec<u8>, AsmError>)
        requires
            self@.wf(),
        ensures
            match r {
                Ok(out) => self@.first_fault(base, 0) is None && out@ == self@.linked(
                    base,
                    self@.branches.len() as int,
                ),
                Err(e) => self@.first_fault(base, 0) == Some(e.fault()),
            },
    {
        let mut out: Vec<u8> = self.buf.clone();
        let mut i: usize = 0;
        assert(out@ =~= self@.code);
        while i < self.relocs.len()
            invariant
                i <= self.relocs.len(),
                self@.wf(),
                out@ == self@.linked(base, i as int),
                out@.len() == self@.code.len(),
                self@.first_fault(base, 0) == self@.first_fault(base, i as int),
            decreases self.relocs.len() - i,
        {
            let reloc = &self.relocs[i];
            let at: usize = reloc.at;
            assert(self@.branches[i as int] == reloc.branch());
            let target: u64 = match &reloc.target {
                Target::Label(name) => match self.offset_of(name) {
                    Some(off) => base.wrapping_add(off as u64),
                    None => {
                        return Err(AsmError::UndefinedLabel(name.clone()));
                    },
                },
                Target::Addr(a) => *a,
            };
            assert(self@.dest_addr(base, i as int) == Some(target as int));
            let rel: i64 = gap(base, at, target);
            assert(rel == self@.distance(base, i as int));
            if rel < -0x8000_0000 || rel > 0x7FFF_FFFF {
                return Err(AsmError::Rel32OutOfRange { rel });
            }
            let mut field: Vec<u8> = Vec::new();
            bytes::push_le(&mut field, bytes::low32(rel as i32), 4);
            proof {
                bytes::lemma_le_bytes_len(bytes::twos32(rel as int), 4);
                assert(field@ =~= bytes::le_bytes(bytes::twos32(rel as int), 4));
            }
            write_at(&mut out, at, &field);
            i = i + 1;
        }
        Ok(out)
    }

    /// The offset of label `name`, if it is defined.
    fn offset_of(&self, name: &String) -> (r: Option<usize>)
        ensures
            match r {
                Some(off) => self@.labels.contains_key(name@) && self@.labels[name@] == off,
                None => !self@.labels.contains_key(name@),
            },
    {
        let mut i: usize = self.labels.len();
        assert(self.labels@.take(i as int) =~= self.labels@);
        while i > 0
            invariant
                i <= self.labels.len(),
                self@.labels.contains_key(name@) == label_map(
                    self.labels@.take(i as int),
                ).contains_key(name@),
                self@.labels.contains_key(name@) ==> self@.labels[name@] == label_map(
                    self.labels@.take(i as int),
                )[name@],
            decreases i,
        {
            i = i - 1;
            assert(self.labels@.take(i + 1).drop_last() =~= self.labels@.take(i as int));
            if self.labels[i].0 == *name {
                return Some(self.labels[i].1);
            }
        }
        None
    }

    // --- encoding helpers ---

    fn rex_w(&mut self, reg: Reg, rm: Reg)
        ensures
            final(self)@ == old(self)@.emit(seq![rex_byte(reg, rm)]),
    {
        self.buf.push(0x48 + 4 * (reg.num() / 8) + rm.num() / 8);
    }

    fn modrm_reg(&mut self, reg: Reg, rm: Reg)
        ensures
            final(self)@ == old(self)@.emit(seq![modrm_byte(reg.low(), rm)]),
    {
        self.buf.push(0xC0 + 8 * reg.low3() + rm.low3());
    }

    fn alu_imm(&mut self, op_ext: u8, r: Reg, imm: i32) -> (s: &mut Self)
        requires
            op_ext < 8,
        ensures
            s@ == old(self)@.emit(enc_alu_imm(op_ext, r, imm)),
            *final(self) == *final(s),
            old(self)@.wf() ==> s@.wf(),
    {
        self.buf.push(0x48 + r.num() / 8);
        self.buf.push(0x81);
        self.buf.push(0xC0 + 8 * op_ext + r.low3());
        bytes::push_le(&mut self.buf, bytes::low32(imm), 4);
        assert(self@ =~= old(self)@.emit(enc_alu_imm(op_ext, r, imm)));
        self
    }

    /// ModRM+SIB+disp32 for `[base + disp]` with register field `reg`. Always
    /// uses the disp32 form, which sidesteps the special meaning that the
    /// shorter ones give to `rbp` and `r13`.
    fn mem_modrm(&mut self, reg: Reg, base: Reg, disp: i32)
        ensures
            final(self)@ == old(self)@.emit(enc_mem(reg, base, disp)),
    {
        let rm: u8 = base.low3();
        self.buf.push(0x80 + 8 * reg.low3() + rm);
        if rm == 4 {
            self.buf.push(0x24);
        }
        bytes::push_le(&mut self.buf, bytes::low32(disp), 4);
        assert(self@ =~= old(self)@.emit(enc_mem(reg, base, disp)));
    }

    fn rel_branch(&mut self, op: u8, target: Target)
        ensures
            final(self)@ == old(self)@.branch(op, target.dest()),
    {
        self.buf.push(op);
        let at: usize = self.buf.len();
        self.buf.push(0);
        self.buf.push(0);
        self.buf.push(0);
        self.buf.push(0);
        self.relocs.push(Reloc { at, target });
        proof {
            assert(self@.code =~= old(self)@.code + seq![op, 0, 0, 0, 0]);
            assert(self@.branches =~= old(self)@.branches.push(
                Branch { at: at as nat, dest: target.dest() },
            ));
        }
    }
}

/// Whatever is emitted, branched or labelled, the listing stays well-formed.
pub proof fn law_listing_stays_wf(l: Listing, s: Seq<u8>, op: u8, dest: Dest, name: Seq<char>)
    requires
        l.wf(),
    ensures
        Listing::empty().wf(),
        l.emit(s).wf(),
        l.branch(op, dest).wf(),
        l.label(name).wf(),
{
}

/// Linking fills the field of every branch with its distance, and changes
/// nothing else.
pub proof fn law_linking_fills_the_fields(l: Listing, base: u64, n: int)
    requires
        l.wf(),
        0 <= n <= l.branches.len(),
    ensures
        l.linked(base, n).len() == l.code.len(),
        forall|k: int|
            #![trigger l.branches[k]]
            0 <= k < n ==> l.linked(base, n).subrange(
                l.branches[k].at as int,
                l.branches[k].at as int + 4,
            ) == bytes::le_bytes(bytes::twos32(l.distance(base, k)), 4),
        forall|i: int|
            0 <= i < l.code.len() && (forall|k: int|
                0 <= k < n ==> !((#[trigger] l.branches[k]).at <= i < l.branches[k].at + 4))
                ==> l.linked(base, n)[i] == l.code[i],
    decreases n,
{
    if n > 0 {
        law_linking_fills_the_fields(l, base, n - 1);
        let before = l.linked(base, n - 1);
        let after = l.linked(base, n);
        let at = l.branches[n - 1].at as int;
        let field = bytes::le_bytes(bytes::twos32(l.distance(base, n - 1)), 4);
        bytes::lemma_le_bytes_len(bytes::twos32(l.distance(base, n - 1)), 4);
        assert(after.subrange(at, at + 4) =~= field);
        assert forall|k: int| #![trigger l.branches[k]] 0 <= k < n implies after.subrange(
            l.branches[k].at as int,
            l.branches[k].at as int + 4,
        ) == bytes::le_bytes(bytes::twos32(l.distance(base, k)), 4) by {
            if k < n - 1 {
                let a = l.branches[k].at as int;
                assert(l.branches[k].at + 4 <= l.branches[n - 1].at);
                assert(after.subrange(a, a + 4) =~= before.subrange(a, a + 4));
            }
        }
        assert forall|i: int|
            0 <= i < l.code.len() && (forall|k: int|
                0 <= k < n ==> !((#[trigger] l.branches[k]).at <= i < l.branches[k].at + 4))
                implies after[i] == l.code[i] by {
            assert(!(l.branches[n - 1].at <= i < l.branches[n - 1].at + 4));
            assert(after[i] == before[i]);
        }
    }
}

/// A branch that could be encoded lands on its destination: the end of the
/// instruction plus the distance is the destination, modulo 2 to the 64.
pub proof fn law_branch_lands(l: Listing, base: u64, k: int)
    requires
        l.wf(),
        0 <= k < l.branches.len(),
        l.fault(base, k) is None,
    ensures
        (base + l.branches[k].at + 4 + l.distance(base, k)) % 0x1_0000_0000_0000_0000
            == l.dest_addr(base, k)->0 % 0x1_0000_0000_0000_0000,
        fits_rel32(l.distance(base, k)),
{
}

/// A branch to a label needs no knowledge of where the code will live.
pub proof fn law_label_branches_are_relocatable(l: Listing, a: u64, b: u64, k: int)
    requires
        0 <= k < l.branches.len(),
        l.branches[k].dest is Label,
        l.dest_addr(a, k) is Some,
    ensures
        l.distance(a, k) == l.distance(b, k),
        l.distance(a, k) == signed64(
            l.labels[l.branches[k].dest->Label_0] - (l.branches[k].at + 4),
        ),
{
    let off = l.labels[l.branches[k].dest->Label_0] as int;
    lemma_same_distance(a as int, off, l.branches[k].at as int + 4);
    lemma_same_distance(b as int, off, l.branches[k].at as int + 4);
}

proof fn lemma_same_distance(base: int, off: int, end: int)
    ensures
        signed64((base + off) % 0x1_0000_0000_0000_0000 - (base + end)) == signed64(off - end),
{
    let m = 0x1_0000_0000_0000_0000int;
    let q = (base + off) / m;
    vstd::arithmetic::div_mod::lemma_fundamental_div_mod(base + off, m);
    assert((base + off) % m - (base + end) == m * (-q) + (off - end));
    vstd::arithmetic::div_mod::lemma_mod_multiples_vanish(-q, off - end, m);
}

/// The stack after a push of each register of `order` in turn.
pub open spec fn pushed(order: Seq<Reg>, regs: spec_fn(Reg) -> u64, stack: Seq<u64>) -> Seq<u64> {
    stack + order.map_values(regs)
}

/// The registers and the stack after a pop into each register of `order` in
/// turn.
pub open spec fn popped(order: Seq<Reg>, regs: spec_fn(Reg) -> u64, stack: Seq<u64>) -> (
    spec_fn(Reg) -> u64,
    Seq<u64>,
)
    decreases order.len(),
{
    if order.len() == 0 {
        (regs, stack)
    } else {
        popped(
            order.drop_first(),
            |r: Reg|
                if r == order[0] {
                    stack.last()
                } else {
                    regs(r)
                },
            stack.drop_last(),
        )
    }
}

proof fn lemma_pops_restore(
    order: Seq<Reg>,
    saved: spec_fn(Reg) -> u64,
    now: spec_fn(Reg) -> u64,
    stack: Seq<u64>,
)
    requires
        order.no_duplicates(),
    ensures
        popped(order.reverse(), now, pushed(order, saved, stack)).1 == stack,
        forall|r: Reg| #[trigger]
            popped(order.reverse(), now, pushed(order, saved, stack)).0(r) == if order.contains(
                r,
            ) {
                saved(r)
            } else {
                now(r)
            },
    decreases order.len(),
{
    let full = pushed(order, saved, stack);
    if order.len() == 0 {
        assert(full =~= stack);
    } else {
        let rest = order.drop_last();
        let next = |r: Reg|
            if r == order.reverse()[0] {
                full.last()
            } else {
                now(r)
            };
        lemma_pops_restore(rest, saved, next, stack);
        assert(order.reverse().drop_first() =~= rest.reverse());
        assert(full.drop_last() =~= pushed(rest, saved, stack));
        assert(popped(order.reverse(), now, full) == popped(
            rest.reverse(),
            next,
            pushed(rest, saved, stack),
        ));
        assert(order.reverse()[0] == order.last());
        assert(full.last() == saved(order.last()));
        assert forall|r: Reg| #[trigger]
            popped(order.reverse(), now, full).0(r) == if order.contains(r) {
                saved(r)
            } else {
                now(r)
            } by {
            if rest.contains(r) {
                let i = choose|i: int| 0 <= i < rest.len() && rest[i] == r;
                assert(order[i] == r);
            } else if order.contains(r) {
                let i = choose|i: int| 0 <= i < order.len() && order[i] == r;
                if i < rest.len() {
                    assert(rest[i] == r);
                }
                assert(r == order.last());
            } else {
                assert(order.contains(order.last()));
            }
        }
    }
}

/// `popad` gives every register that `pushad` saved its value back, leaves
/// `rsp` to the balance of the stack, and takes off exactly what was put on.
pub proof fn law_popad_undoes_pushad(
    saved: spec_fn(Reg) -> u64,
    now: spec_fn(Reg) -> u64,
    stack: Seq<u64>,
)
    ensures
        popped(save_order().reverse(), now, pushed(save_order(), saved, stack)).1 == stack,
        forall|r: Reg|
            r != Reg::Rsp ==> #[trigger] popped(
                save_order().reverse(),
                now,
                pushed(save_order(), saved, stack),
            ).0(r) == saved(r),
{
    let order = save_order();
    assert forall|i: int| 0 <= i < 15 implies (#[trigger] order[i]).spec_num() == if i < 4 {
        i
    } else {
        i + 1
    } by {}
    lemma_pops_restore(order, saved, now, stack);
    assert forall|r: Reg| r != Reg::Rsp implies order.contains(r) by {
        let n = r.spec_num() as int;
        assert(order[if n < 4 {
            n
        } else {
            n - 1
        }] == r);
    }
}

/// Whether `after` is `before` with one instruction behind its code, and nothing
/// else changed.
pub open spec fn appends(before: Listing, after: Listing, i: Instr) -> bool {
    let n = before.code.len() as int;
    &&& after.labels == before.labels
    &&& after.branches == before.branches
    &&& after.code.len() >= n
    &&& after.code.take(n) == before.code
    &&& machine::decode(after.code.skip(n)) == Some((i, after.code.len() - n))
}

proof fn lemma_appends(before: Listing, after: Listing, s: Seq<u8>, i: Instr)
    requires
        after == before.emit(s),
        machine::decode(s) == Some((i, s.len() as int)),
    ensures
        appends(before, after, i),
{
    let n = before.code.len() as int;
    assert(after.code.take(n) =~= before.code);
    assert(after.code.skip(n) =~= s);
}

proof fn lemma_numbering(r: Reg)
    ensures
        machine::register(8 * r.ext() + r.low()) == r,
        r.ext() < 2,
        r.low() < 8,
{
}

proof fn lemma_decode_stack(r: Reg)
    ensures
        machine::decode(enc_push(r)) == Some((Instr::Push(r), enc_push(r).len() as int)),
        machine::decode(enc_pop(r)) == Some((Instr::Pop(r), enc_pop(r).len() as int)),
{
    reveal(machine::decode_behind);
    lemma_numbering(r);
}

/// What `push` emits is read as a push of the register.
pub proof fn law_push_is_a_push(a: &mut Asm, r: Reg, s: &mut Asm)
    requires
        call_ensures(Asm::push, (a, r), s),
    ensures
        appends(old(a)@, old(s)@, Instr::Push(r)),
{
    lemma_decode_stack(r);
    lemma_appends(old(a)@, old(s)@, enc_push(r), Instr::Push(r));
}

/// What `pop` emits is read as a pop into the register.
pub proof fn law_pop_is_a_pop(a: &mut Asm, r: Reg, s: &mut Asm)
    requires
        call_ensures(Asm::pop, (a, r), s),
    ensures
        appends(old(a)@, old(s)@, Instr::Pop(r)),
{
    lemma_decode_stack(r);
    lemma_appends(old(a)@, old(s)@, enc_pop(r), Instr::Pop(r));
}

/// What `mov_imm` emits is read as a load of the register with all 64 bits of the
/// number.
pub proof fn law_mov_imm_loads_the_number(a: &mut Asm, r: Reg, imm: u64, s: &mut Asm)
    requires
        call_ensures(Asm::mov_imm, (a, r, imm), s),
    ensures
        appends(old(a)@, old(s)@, Instr::SetImm(r, imm as int)),
{
    reveal(machine::decode_behind);
    lemma_numbering(r);
    let c = enc_mov_imm(r, imm);
    bytes::lemma_le_bytes_len(imm as nat, 8);
    assert(c.subrange(2, 10) =~= bytes::le_bytes(imm as nat, 8));
    machine::lemma_written_number(c, 2, imm as nat);
    lemma_appends(old(a)@, old(s)@, c, Instr::SetImm(r, imm as int));
}

proof fn lemma_decode_rr(op: u8, dst: Reg, src: Reg)
    requires
        op == 0x89 || op == 0x31,
    ensures
        machine::decode(enc_rr(op, dst, src)) == Some(
            (
                if op == 0x89 {
                    Instr::Copy { dst, src }
                } else {
                    Instr::Xor { dst, src }
                },
                3int,
            ),
        ),
{
    lemma_numbering(src);
    lemma_numbering(dst);
    let c = enc_rr(op, dst, src);
    lemma_fields(c[0] as int, c[2] as int, src, dst);
    lemma_decode_two(c, src, dst);
}

proof fn lemma_fields(prefix: int, modrm: int, reg: Reg, rm: Reg)
    requires
        prefix == 0x48 + 4 * reg.ext() + rm.ext(),
        modrm == 0xC0 + 8 * reg.low() + rm.low(),
    ensures
        (prefix - 0x40) / 8 % 2 == 1,
        (prefix - 0x40) / 4 % 2 == reg.ext(),
        (prefix - 0x40) % 2 == rm.ext(),
        modrm / 64 == 3,
        modrm / 8 % 8 == reg.low(),
        modrm % 8 == rm.low(),
{
}

/// What three bytes mean that name two registers.
proof fn lemma_decode_two(c: Seq<u8>, reg: Reg, rm: Reg)
    requires
        c.len() == 3,
        0x48 <= c[0] < 0x50,
        c[1] == 0x89 || c[1] == 0x31,
        machine::register(8 * ((c[0] - 0x40) / 4 % 2) + c[2] as int / 8 % 8) == reg,
        machine::register(8 * ((c[0] - 0x40) % 2) + c[2] as int % 8) == rm,
        (c[0] - 0x40) / 8 % 2 == 1,
        c[2] as int / 64 == 3,
    ensures
        machine::decode(c) == Some(
            (
                if c[1] == 0x89 {
                    Instr::Copy { dst: rm, src: reg }
                } else {
                    Instr::Xor { dst: rm, src: reg }
                },
                3int,
            ),
        ),
{
    reveal(machine::decode_behind);
    reveal(machine::decode_operands);
}

/// What `mov_rr` emits is read as a copy of the second register into the first.
pub proof fn law_mov_rr_copies(a: &mut Asm, dst: Reg, src: Reg, s: &mut Asm)
    requires
        call_ensures(Asm::mov_rr, (a, dst, src), s),
    ensures
        appends(old(a)@, old(s)@, Instr::Copy { dst, src }),
{
    lemma_decode_rr(0x89, dst, src);
    lemma_appends(old(a)@, old(s)@, enc_rr(0x89, dst, src), Instr::Copy { dst, src });
}

/// What `xor_rr` emits is read as an exclusive or of the second register into the
/// first.
pub proof fn law_xor_rr_xors(a: &mut Asm, dst: Reg, src: Reg, s: &mut Asm)
    requires
        call_ensures(Asm::xor_rr, (a, dst, src), s),
    ensures
        appends(old(a)@, old(s)@, Instr::Xor { dst, src }),
{
    lemma_decode_rr(0x31, dst, src);
    lemma_appends(old(a)@, old(s)@, enc_rr(0x31, dst, src), Instr::Xor { dst, src });
}

/// What seven bytes mean that name a register and an immediate.
proof fn lemma_decode_imm(c: Seq<u8>, rm: Reg, imm: int)
    requires
        c.len() == 7,
        0x48 <= c[0] < 0x50,
        c[1] == 0x81,
        (c[0] - 0x40) / 8 % 2 == 1,
        c[2] as int / 64 == 3,
        c[2] as int / 8 % 8 == 0 || c[2] as int / 8 % 8 == 5,
        machine::register(8 * ((c[0] - 0x40) % 2) + c[2] as int % 8) == rm,
        machine::i32_at(c, 3) == imm,
    ensures
        machine::decode(c) == Some(
            (
                if c[2] as int / 8 % 8 == 0 {
                    Instr::AddImm(rm, imm)
                } else {
                    Instr::SubImm(rm, imm)
                },
                7int,
            ),
        ),
{
    reveal(machine::decode_behind);
    reveal(machine::decode_operands);
}

proof fn lemma_decode_alu(op_ext: u8, r: Reg, imm: i32)
    requires
        op_ext == 0 || op_ext == 5,
    ensures
        machine::decode(enc_alu_imm(op_ext, r, imm)) == Some(
            (
                if op_ext == 0 {
                    Instr::AddImm(r, imm as int)
                } else {
                    Instr::SubImm(r, imm as int)
                },
                7int,
            ),
        ),
        enc_alu_imm(op_ext, r, imm).len() == 7,
{
    lemma_numbering(r);
    let v = bytes::twos32(imm as int);
    assert(bytes::signed32(v) == imm);
    bytes::lemma_le_bytes_len(v, 4);
    let c = enc_alu_imm(op_ext, r, imm);
    assert(c.subrange(3, 7) =~= bytes::le_bytes(v, 4));
    machine::lemma_written_number(c, 3, v);
    let rex = c[0] - 0x40;
    assert(rex % 2 == r.ext() && rex / 8 % 2 == 1);
    let m = c[2] as int;
    assert(m == 0xC0 + 8 * op_ext + r.low());
    assert(m / 64 == 3 && m / 8 % 8 == op_ext && m % 8 == r.low());
    lemma_decode_imm(c, r, imm as int);
}

/// What `add_imm` emits is read as an addition of the signed number.
pub proof fn law_add_imm_adds(a: &mut Asm, r: Reg, imm: i32, s: &mut Asm)
    requires
        call_ensures(Asm::add_imm, (a, r, imm), s),
    ensures
        appends(old(a)@, old(s)@, Instr::AddImm(r, imm as int)),
{
    lemma_decode_alu(0, r, imm);
    lemma_appends(old(a)@, old(s)@, enc_alu_imm(0, r, imm), Instr::AddImm(r, imm as int));
}

/// What `sub_imm` emits is read as a subtraction of the signed number.
pub proof fn law_sub_imm_subtracts(a: &mut Asm, r: Reg, imm: i32, s: &mut Asm)
    requires
        call_ensures(Asm::sub_imm, (a, r, imm), s),
    ensures
        appends(old(a)@, old(s)@, Instr::SubImm(r, imm as int)),
{
    lemma_decode_alu(5, r, imm);
    lemma_appends(old(a)@, old(s)@, enc_alu_imm(5, r, imm), Instr::SubImm(r, imm as int));
}

/// What seven or eight bytes mean that name a register and a place in memory.
proof fn lemma_decode_mem(c: Seq<u8>, reg: Reg, base: Reg, disp: int)
    requires
        c.len() == 7 || c.len() == 8,
        0x48 <= c[0] < 0x50,
        c[1] == 0x89 || c[1] == 0x8B,
        (c[0] - 0x40) / 8 % 2 == 1,
        (c[0] - 0x40) / 2 % 2 == 0,
        c[2] as int / 64 == 2,
        machine::register(8 * ((c[0] - 0x40) / 4 % 2) + c[2] as int / 8 % 8) == reg,
        c.len() == 7 ==> c[2] as int % 8 != 4 && machine::register(
            8 * ((c[0] - 0x40) % 2) + c[2] as int % 8,
        ) == base && machine::i32_at(c, 3) == disp,
        c.len() == 8 ==> c[2] as int % 8 == 4 && c[3] as int / 8 % 8 == 4 && machine::register(
            8 * ((c[0] - 0x40) % 2) + c[3] as int % 8,
        ) == base && machine::i32_at(c, 4) == disp,
    ensures
        machine::decode(c) == Some(
            (
                if c[1] == 0x89 {
                    Instr::Store { base, disp, src: reg }
                } else {
                    Instr::Load { dst: reg, base, disp }
                },
                c.len() as int,
            ),
        ),
{
    reveal(machine::decode_behind);
    reveal(machine::decode_operands);
}

proof fn lemma_mem_fields(prefix: int, modrm: int, reg: Reg, base: Reg)
    requires
        prefix == 0x48 + 4 * reg.ext() + base.ext(),
        modrm == 0x80 + 8 * reg.low() + base.low(),
    ensures
        (prefix - 0x40) / 8 % 2 == 1,
        (prefix - 0x40) / 4 % 2 == reg.ext(),
        (prefix - 0x40) / 2 % 2 == 0,
        (prefix - 0x40) % 2 == base.ext(),
        modrm / 64 == 2,
        modrm / 8 % 8 == reg.low(),
        modrm % 8 == base.low(),
{
}

proof fn lemma_decode_rm(op: u8, reg: Reg, base: Reg, disp: i32)
    requires
        op == 0x89 || op == 0x8B,
    ensures
        machine::decode(enc_rm(op, reg, base, disp)) == Some(
            (
                if op == 0x89 {
                    Instr::Store { base, disp: disp as int, src: reg }
                } else {
                    Instr::Load { dst: reg, base, disp: disp as int }
                },
                enc_rm(op, reg, base, disp).len() as int,
            ),
        ),
{
    lemma_numbering(reg);
    lemma_numbering(base);
    let v = bytes::twos32(disp as int);
    assert(bytes::signed32(v) == disp);
    bytes::lemma_le_bytes_len(v, 4);
    let c = enc_rm(op, reg, base, disp);
    assert(c[0] == rex_byte(reg, base) && c[1] == op);
    assert(c[2] == 0x80 + 8 * reg.low() + base.low());
    lemma_mem_fields(c[0] as int, c[2] as int, reg, base);
    if base.low() == 4 {
        assert(c.subrange(4, 8) =~= bytes::le_bytes(v, 4));
        machine::lemma_written_number(c, 4, v);
        assert(c[3] == 0x24);
    } else {
        assert(c.subrange(3, 7) =~= bytes::le_bytes(v, 4));
        machine::lemma_written_number(c, 3, v);
    }
    lemma_decode_mem(c, reg, base, disp as int);
}

/// What `store` emits is read as a store of the register at the signed distance
/// from the base, whichever register the base is.
pub proof fn law_store_stores(a: &mut Asm, base: Reg, disp: i32, src: Reg, s: &mut Asm)
    requires
        call_ensures(Asm::store, (a, base, disp, src), s),
    ensures
        appends(old(a)@, old(s)@, Instr::Store { base, disp: disp as int, src }),
{
    lemma_decode_rm(0x89, src, base, disp);
    lemma_appends(
        old(a)@,
        old(s)@,
        enc_rm(0x89, src, base, disp),
        Instr::Store { base, disp: disp as int, src },
    );
}

/// What `load` emits is read as a load of the register from the signed distance
/// from the base, whichever register the base is.
pub proof fn law_load_loads(a: &mut Asm, dst: Reg, base: Reg, disp: i32, s: &mut Asm)
    requires
        call_ensures(Asm::load, (a, dst, base, disp), s),
    ensures
        appends(old(a)@, old(s)@, Instr::Load { dst, base, disp: disp as int }),
{
    lemma_decode_rm(0x8B, dst, base, disp);
    lemma_appends(
        old(a)@,
        old(s)@,
        enc_rm(0x8B, dst, base, disp),
        Instr::Load { dst, base, disp: disp as int },
    );
}

/// What `nop` emits is read as an instruction that does nothing.
pub proof fn law_nop_is_a_nop(a: &mut Asm, s: &mut Asm)
    requires
        call_ensures(Asm::nop, (a,), s),
    ensures
        appends(old(a)@, old(s)@, Instr::Nop),
{
    reveal(machine::decode_behind);
    lemma_appends(old(a)@, old(s)@, seq![0x90u8], Instr::Nop);
}

/// What `int3` emits is read as a breakpoint.
pub proof fn law_int3_is_a_breakpoint(a: &mut Asm, s: &mut Asm)
    requires
        call_ensures(Asm::int3, (a,), s),
    ensures
        appends(old(a)@, old(s)@, Instr::Int3),
{
    reveal(machine::decode_behind);
    lemma_appends(old(a)@, old(s)@, seq![0xCCu8], Instr::Int3);
}

/// What `ret` emits is read as a return.
pub proof fn law_ret_is_a_return(a: &mut Asm, s: &mut Asm)
    requires
        call_ensures(Asm::ret, (a,), s),
    ensures
        appends(old(a)@, old(s)@, Instr::Ret),
{
    reveal(machine::decode_behind);
    lemma_appends(old(a)@, old(s)@, seq![0xC3u8], Instr::Ret);
}

/// Bytes that do nothing leave a machine as it is.
pub(crate) proof fn lemma_nops_run(c: Seq<u8>, m: machine::State)
    requires
        forall|i: int| 0 <= i < c.len() ==> #[trigger] c[i] == 0x90,
    ensures
        machine::run(c, m) == Some(m),
    decreases c.len(),
{
    if c.len() > 0 {
        reveal(machine::decode_behind);
        assert(c[0] == 0x90);
        assert(machine::decode(c) == Some((Instr::Nop, 1int)));
        lemma_nops_run(c.skip(1), m);
    }
}

/// `nops` emits as many bytes as it is asked for, and running them does nothing.
pub proof fn law_nops_do_nothing(a: &mut Asm, n: usize, s: &mut Asm, m: machine::State)
    requires
        call_ensures(Asm::nops, (a, n), s),
    ensures
        ({
            let len = old(a)@.code.len() as int;
            &&& old(s)@.code.len() == len + n
            &&& old(s)@.code.take(len) == old(a)@.code
            &&& machine::run(old(s)@.code.skip(len), m) == Some(m)
            &&& old(s)@.labels == old(a)@.labels
            &&& old(s)@.branches == old(a)@.branches
        }),
{
    let len = old(a)@.code.len() as int;
    let c = Seq::new(n as nat, |i: int| 0x90u8);
    assert(old(s)@.code.take(len) =~= old(a)@.code);
    assert(old(s)@.code.skip(len) =~= c);
    lemma_nops_run(c, m);
}

/// `raw` appends the bytes as they are.
pub proof fn law_raw_is_verbatim(a: &mut Asm, b: &[u8], s: &mut Asm)
    requires
        call_ensures(Asm::raw, (a, b), s),
    ensures
        old(s)@.code == old(a)@.code + b@,
        old(s)@.labels == old(a)@.labels,
        old(s)@.branches == old(a)@.branches,
{
}

/// What `jmp_abs` emits is read as a jump through the eight bytes behind it, and
/// those hold the destination.
pub proof fn law_jmp_abs_holds_its_destination(a: &mut Asm, target: u64, s: &mut Asm)
    requires
        call_ensures(Asm::jmp_abs, (a, target), s),
    ensures
        ({
            let n = old(a)@.code.len() as int;
            &&& old(s)@.code.len() == n + 14
            &&& old(s)@.code.take(n) == old(a)@.code
            &&& machine::decode(old(s)@.code.skip(n)) == Some((Instr::JumpThrough(0), 6int))
            &&& machine::u64_at(old(s)@.code, n + 6) == target
            &&& old(s)@.labels == old(a)@.labels
            &&& old(s)@.branches == old(a)@.branches
        }),
{
    let n = old(a)@.code.len() as int;
    let c = enc_jmp_abs(target);
    lemma_decode_jmp_abs(target);
    assert(old(s)@.code.take(n) =~= old(a)@.code);
    assert(old(s)@.code.skip(n) =~= c);
    assert(old(s)@.code.subrange(n + 6, n + 14) =~= bytes::le_bytes(target as nat, 8));
    machine::lemma_written_number(old(s)@.code, n + 6, target as nat);
}

pub(crate) proof fn lemma_decode_jmp_abs(target: u64)
    ensures
        enc_jmp_abs(target).len() == 14,
        machine::decode(enc_jmp_abs(target)) == Some((Instr::JumpThrough(0), 6int)),
        machine::u64_at(enc_jmp_abs(target), 6) == target,
{
    reveal(machine::decode_behind);
    let c = enc_jmp_abs(target);
    bytes::lemma_le_bytes_len(target as nat, 8);
    assert(c.subrange(6, 14) =~= bytes::le_bytes(target as nat, 8));
    machine::lemma_written_number(c, 6, target as nat);
}

proof fn lemma_pushes_run(order: Seq<Reg>, s: machine::State)
    requires
        forall|i: int| 0 <= i < order.len() ==> #[trigger] order[i] != Reg::Rsp,
    ensures
        machine::run(enc_pushes(order), s) matches Some(u) && {
            &&& u.stack == s.stack + order.map_values(s.regs)
            &&& forall|r: Reg| r != Reg::Rsp ==> #[trigger] (u.regs)(r) == (s.regs)(r)
            &&& (u.regs)(Reg::Rsp) == ((s.regs)(Reg::Rsp) - 8 * order.len())
                % 0x1_0000_0000_0000_0000
        },
    decreases order.len(),
{
    if order.len() == 0 {
        assert(s.stack + order.map_values(s.regs) =~= s.stack);
        vstd::arithmetic::div_mod::lemma_small_mod(
            (s.regs)(Reg::Rsp) as nat,
            0x1_0000_0000_0000_0000,
        );
    } else {
        let rest = order.drop_last();
        let last = order.last();
        assert forall|i: int| 0 <= i < rest.len() implies #[trigger] rest[i] != Reg::Rsp by {
            assert(rest[i] == order[i]);
        }
        lemma_pushes_run(rest, s);
        let t = machine::run(enc_pushes(rest), s)->0;
        lemma_decode_stack(last);
        machine::lemma_run_one(enc_push(last), t);
        machine::law_running_is_sequential(enc_pushes(rest), enc_push(last), s);
        let u = machine::run(enc_pushes(order), s)->0;
        assert(order[order.len() - 1] != Reg::Rsp);
        assert(u.stack =~= s.stack + order.map_values(s.regs));
    }
}

proof fn lemma_pops_run(order: Seq<Reg>, s: machine::State)
    requires
        order.len() <= s.stack.len(),
        order.no_duplicates(),
        forall|i: int| 0 <= i < order.len() ==> #[trigger] order[i] != Reg::Rsp,
    ensures
        machine::run(enc_pops(order), s) matches Some(u) && {
            &&& u.stack == s.stack.take(s.stack.len() - order.len())
            &&& forall|i: int|
                0 <= i < order.len() ==> (u.regs)(#[trigger] order[i]) == s.stack[s.stack.len() - 1
                    - i]
            &&& forall|r: Reg|
                r != Reg::Rsp && !order.contains(r) ==> #[trigger] (u.regs)(r) == (s.regs)(r)
            &&& (u.regs)(Reg::Rsp) == ((s.regs)(Reg::Rsp) + 8 * order.len())
                % 0x1_0000_0000_0000_0000
        },
    decreases order.len(),
{
    if order.len() == 0 {
        assert(s.stack.take(s.stack.len() as int) =~= s.stack);
        vstd::arithmetic::div_mod::lemma_small_mod(
            (s.regs)(Reg::Rsp) as nat,
            0x1_0000_0000_0000_0000,
        );
    } else {
        let rest = order.drop_last();
        let last = order.last();
        assert forall|i: int| 0 <= i < rest.len() implies #[trigger] rest[i] != Reg::Rsp by {
            assert(rest[i] == order[i]);
        }
        lemma_pops_run(rest, s);
        let t = machine::run(enc_pops(rest), s)->0;
        lemma_decode_stack(last);
        machine::lemma_run_one(enc_pop(last), t);
        machine::law_running_is_sequential(enc_pops(rest), enc_pop(last), s);
        let u = machine::run(enc_pops(order), s)->0;
        assert(order[order.len() - 1] != Reg::Rsp);
        assert(u.stack =~= s.stack.take(s.stack.len() - order.len()));
        assert forall|i: int| 0 <= i < order.len() implies (u.regs)(#[trigger] order[i])
            == s.stack[s.stack.len() - 1 - i] by {
            if i < rest.len() {
                assert(rest[i] == order[i]);
                assert(order[i] != last);
            }
        }
        assert forall|r: Reg| r != Reg::Rsp && !order.contains(r) implies #[trigger] (u.regs)(r)
            == (s.regs)(r) by {
            assert(order.contains(last));
            if rest.contains(r) {
                let i = rest.index_of(r);
                assert(order[i] == r);
            }
        }
    }
}

/// Running the code of `pushad` puts 15 words on the stack and changes no register
/// but `rsp`. Running the code of `popad` with the stack as that left it, whatever
/// is in the registers by then, gives back every register and the stack.
pub proof fn law_popad_restores_what_pushad_saved(
    a: &mut Asm,
    p: &mut Asm,
    b: &mut Asm,
    q: &mut Asm,
    s: machine::State,
    t: machine::State,
)
    requires
        call_ensures(Asm::pushad, (a,), p),
        call_ensures(Asm::popad, (b,), q),
    ensures
        ({
            let save = old(p)@.code.skip(old(a)@.code.len() as int);
            let restore = old(q)@.code.skip(old(b)@.code.len() as int);
            &&& old(p)@.code.take(old(a)@.code.len() as int) == old(a)@.code
            &&& old(q)@.code.take(old(b)@.code.len() as int) == old(b)@.code
            &&& machine::run(save, s) matches Some(u)
            &&& u.stack.len() == s.stack.len() + 15
            &&& u.stack.take(s.stack.len() as int) == s.stack
            &&& forall|r: Reg| r != Reg::Rsp ==> #[trigger] (u.regs)(r) == (s.regs)(r)
            &&& (u.regs)(Reg::Rsp) == ((s.regs)(Reg::Rsp) - 120) % 0x1_0000_0000_0000_0000
            &&& t.stack == u.stack && (t.regs)(Reg::Rsp) == (u.regs)(Reg::Rsp) ==> machine::run(
                restore,
                t,
            ) == Some(s)
        }),
        old(p)@.labels == old(a)@.labels,
        old(p)@.branches == old(a)@.branches,
        old(q)@.labels == old(b)@.labels,
        old(q)@.branches == old(b)@.branches,
{
    let order = save_order();
    let rev = order.reverse();
    let save = old(p)@.code.skip(old(a)@.code.len() as int);
    let restore = old(q)@.code.skip(old(b)@.code.len() as int);
    assert(save =~= enc_pushes(order));
    assert(restore =~= enc_pops(rev));
    assert(old(p)@.code.take(old(a)@.code.len() as int) =~= old(a)@.code);
    assert(old(q)@.code.take(old(b)@.code.len() as int) =~= old(b)@.code);
    assert forall|i: int| 0 <= i < 15 implies (#[trigger] order[i]).spec_num() == if i < 4 {
        i
    } else {
        i + 1
    } by {}
    assert forall|i: int| 0 <= i < 15 implies #[trigger] order[i] != Reg::Rsp by {
        assert(order[i].spec_num() != 4);
    }
    lemma_pushes_run(order, s);
    let u = machine::run(save, s)->0;
    assert(u.stack.take(s.stack.len() as int) =~= s.stack);
    if t.stack == u.stack && (t.regs)(Reg::Rsp) == (u.regs)(Reg::Rsp) {
        assert forall|i: int| 0 <= i < rev.len() implies #[trigger] rev[i] == order[14 - i] by {}
        assert forall|i: int| 0 <= i < rev.len() implies #[trigger] rev[i] != Reg::Rsp by {
            assert(order[14 - i] != Reg::Rsp);
        }
        assert(rev.no_duplicates()) by {
            assert forall|i: int, j: int| 0 <= i < rev.len() && 0 <= j < rev.len() && i != j
                implies rev[i] != rev[j] by {
                assert(order[14 - i].spec_num() != order[14 - j].spec_num());
            }
        }
        lemma_pops_run(rev, t);
        let v = machine::run(restore, t)->0;
        assert(v.stack =~= s.stack);
        assert forall|r: Reg| #[trigger] (v.regs)(r) == (s.regs)(r) by {
            if r != Reg::Rsp {
                let n = r.spec_num() as int;
                let i = if n < 4 {
                    n
                } else {
                    n - 1
                };
                assert(order[i] == r);
                assert(rev[14 - i] == r);
                assert((v.regs)(rev[14 - i]) == t.stack[s.stack.len() + i]);
                assert(u.stack[s.stack.len() + i] == (s.regs)(order[i]));
            } else {
                let w = (s.regs)(Reg::Rsp) as int;
                assert(((w - 120) % 0x1_0000_0000_0000_0000 + 120) % 0x1_0000_0000_0000_0000 == w);
            }
        }
        assert(v.regs =~= s.regs);
        assert(v =~= s);
    }
}

/// Whether `after` has the code and branches of `before`, and perhaps more behind
/// them.
pub open spec fn grows(before: Listing, after: Listing) -> bool {
    &&& after.code.len() >= before.code.len()
    &&& after.code.take(before.code.len() as int) == before.code
    &&& after.branches.len() >= before.branches.len()
    &&& after.branches.take(before.branches.len() as int) == before.branches
}

/// Whether an instruction that ends at `end` can be led to `to` by a signed
/// distance of 32 bits, in an address space of 64.
pub open spec fn reaches(end: int, to: int) -> bool {
    exists|d: int| -0x8000_0000 <= d < 0x8000_0000 && #[trigger] leads(end, d, to)
}

/// Whether a distance from `end` leads to `to`, in an address space of 64 bits.
pub open spec fn leads(end: int, d: int, to: int) -> bool {
    (end + d - to) % 0x1_0000_0000_0000_0000 == 0
}

/// Whether a branch that ends at `end` can be led to its destination, in code that
/// starts at `base`.
pub open spec fn linkable(l: Listing, base: u64, dest: Dest, end: int) -> bool {
    match dest {
        Dest::Label(name) => l.labels.contains_key(name) && reaches(end, base + l.labels[name]),
        Dest::Addr(to) => reaches(end, to as int),
    }
}

proof fn lemma_signed64(x: int, d: int)
    ensures
        (signed64(x) - x) % 0x1_0000_0000_0000_0000 == 0,
        -0x8000_0000_0000_0000 <= d < 0x8000_0000_0000_0000 && (d - x) % 0x1_0000_0000_0000_0000
            == 0 ==> d == signed64(x),
{
}

/// The distance of a branch is the one that leads to where it is to go.
pub(crate) proof fn lemma_distance_leads(end: int, x: int, to: int)
    requires
        (x - to) % 0x1_0000_0000_0000_0000 == 0,
    ensures
        leads(end, signed64(x - end), to),
        reaches(end, to) <==> fits_rel32(signed64(x - end)),
{
    let m = 0x1_0000_0000_0000_0000int;
    let s = signed64(x - end);
    lemma_signed64(x - end, s);
    assert(leads(end, s, to)) by {
        assert((s - (x - end)) % m == 0);
        assert(end + s - to == (s - (x - end)) + (x - to));
    }
    if reaches(end, to) {
        let d = choose|d: int| -0x8000_0000 <= d < 0x8000_0000 && #[trigger] leads(end, d, to);
        assert(d - (x - end) == (end + d - to) - (x - to));
        assert((d - (x - end)) % m == 0);
        lemma_signed64(x - end, d);
    }
}

proof fn lemma_linkable(l: Listing, base: u64, k: int)
    requires
        0 <= k < l.branches.len(),
    ensures
        ({
            let end = base + l.branches[k].at + 4;
            &&& linkable(l, base, l.branches[k].dest, end) <==> l.fault(base, k) is None
            &&& l.dest_addr(base, k) matches Some(to) ==> leads(end, l.distance(base, k), to)
                && leads(
                end,
                l.distance(base, k),
                match l.branches[k].dest {
                    Dest::Label(name) => base + l.labels[name],
                    Dest::Addr(a) => a as int,
                },
            )
        }),
{
    let end = base + l.branches[k].at + 4;
    if let Some(x) = l.dest_addr(base, k) {
        let to = match l.branches[k].dest {
            Dest::Label(name) => base + l.labels[name],
            Dest::Addr(a) => a as int,
        };
        assert((x - to) % 0x1_0000_0000_0000_0000 == 0);
        lemma_distance_leads(end, x, to);
        lemma_distance_leads(end, x, x);
    }
}

proof fn lemma_first_fault(l: Listing, base: u64, k: int)
    requires
        0 <= k <= l.branches.len(),
    ensures
        match l.first_fault(base, k) {
            None => forall|j: int| k <= j < l.branches.len() ==> #[trigger] l.fault(base, j) is None,
            Some(f) => exists|j: int|
                k <= j < l.branches.len() && #[trigger] l.fault(base, j) == Some(f) && forall|i: int|
                    k <= i < j ==> #[trigger] l.fault(base, i) is None,
        },
    decreases l.branches.len() - k,
{
    if k < l.branches.len() {
        if l.fault(base, k) is None {
            lemma_first_fault(l, base, k + 1);
            if let Some(f) = l.first_fault(base, k + 1) {
                let j = choose|j: int|
                    k + 1 <= j < l.branches.len() && #[trigger] l.fault(base, j) == Some(f)
                        && forall|i: int| k + 1 <= i < j ==> #[trigger] l.fault(base, i) is None;
                assert(l.fault(base, j) == Some(f));
            }
        } else {
            assert(l.fault(base, k) == l.first_fault(base, k));
        }
    }
}

/// Whether branch `k` of the code is led to its destination in `out`.
pub open spec fn led(l: Listing, base: u64, out: Seq<u8>, k: int) -> bool {
    let at = l.branches[k].at as int;
    leads(
        base + at + 4,
        machine::i32_at(out, at),
        match l.branches[k].dest {
            Dest::Label(name) => base + l.labels[name],
            Dest::Addr(a) => a as int,
        },
    )
}

/// Whether assembling failed for branch `k`, which no distance leads to its
/// destination.
pub open spec fn blames(l: Listing, base: u64, e: AsmError, k: int) -> bool {
    let end = base + l.branches[k].at + 4;
    match (l.branches[k].dest, e) {
        (Dest::Label(name), AsmError::UndefinedLabel(n)) => n@ == name && !l.labels.contains_key(
            name,
        ),
        (Dest::Label(name), AsmError::Rel32OutOfRange { rel }) => l.labels.contains_key(name)
            && !reaches(end, base + l.labels[name]) && leads(
            end,
            rel as int,
            base + l.labels[name],
        ),
        (Dest::Addr(to), AsmError::Rel32OutOfRange { rel }) => !reaches(end, to as int) && leads(
            end,
            rel as int,
            to as int,
        ),
        _ => false,
    }
}

/// Code is assembled if and only if every branch can be led to its destination.
/// It then is, by the four bytes of its field, and no other byte changes. If not,
/// the error is that of the first branch for which it cannot be done.
pub proof fn law_assembling_leads_every_branch(f: &Asm, base: u64, r: Result<Vec<u8>, AsmError>)
    requires
        f@.wf(),
        call_ensures(Asm::assemble, (f, base), r),
    ensures
        match r {
            Ok(out) => {
                &&& out@.len() == f@.code.len()
                &&& forall|k: int| 0 <= k < f@.branches.len() ==> #[trigger] led(f@, base, out@, k)
                &&& forall|k: int|
                    0 <= k < f@.branches.len() ==> linkable(
                        f@,
                        base,
                        (#[trigger] f@.branches[k]).dest,
                        base + f@.branches[k].at + 4,
                    )
                &&& forall|i: int|
                    0 <= i < out@.len() && (forall|k: int|
                        0 <= k < f@.branches.len() ==> !((#[trigger] f@.branches[k]).at <= i
                            < f@.branches[k].at + 4)) ==> out@[i] == f@.code[i]
            },
            Err(e) => exists|k: int|
                0 <= k < f@.branches.len() && #[trigger] blames(f@, base, e, k) && forall|j: int|
                    0 <= j < k ==> linkable(
                        f@,
                        base,
                        (#[trigger] f@.branches[j]).dest,
                        base + f@.branches[j].at + 4,
                    ),
        },
{
    let l = f@;
    let n = l.branches.len() as int;
    lemma_first_fault(l, base, 0);
    match r {
        Ok(out) => {
            law_linking_fills_the_fields(l, base, n);
            assert forall|k: int| 0 <= k < n implies #[trigger] led(l, base, out@, k) by {
                lemma_field(l, base, out@, k);
            }
            assert forall|k: int| 0 <= k < n implies linkable(
                l,
                base,
                (#[trigger] l.branches[k]).dest,
                base + l.branches[k].at + 4,
            ) by {
                assert(l.fault(base, k) is None);
                lemma_linkable(l, base, k);
            }
        },
        Err(e) => {
            let k = choose|k: int|
                0 <= k < n && #[trigger] l.fault(base, k) == Some(e.fault()) && forall|i: int|
                    0 <= i < k ==> #[trigger] l.fault(base, i) is None;
            lemma_linkable(l, base, k);
            assert(blames(l, base, e, k));
            assert forall|j: int| 0 <= j < k implies linkable(
                l,
                base,
                (#[trigger] l.branches[j]).dest,
                base + l.branches[j].at + 4,
            ) by {
                assert(l.fault(base, j) is None);
                lemma_linkable(l, base, j);
            }
        },
    }
}

proof fn lemma_field(l: Listing, base: u64, out: Seq<u8>, k: int)
    requires
        l.wf(),
        0 <= k < l.branches.len(),
        out == l.linked(base, l.branches.len() as int),
        l.fault(base, k) is None,
    ensures
        led(l, base, out, k),
        machine::i32_at(out, l.branches[k].at as int) == l.distance(base, k),
{
    law_linking_fills_the_fields(l, base, l.branches.len() as int);
    lemma_linkable(l, base, k);
    let d = l.distance(base, k);
    let v = bytes::twos32(d);
    machine::lemma_written_number(out, l.branches[k].at as int, v);
    assert(bytes::signed32(v) == d);
}

/// A label stands for the place behind the code that was emitted before it.
pub proof fn law_label_marks_the_end(a: &mut Asm, name: &str, s: &mut Asm)
    requires
        call_ensures(Asm::label, (a, name), s),
    ensures
        old(s)@.code == old(a)@.code,
        old(s)@.branches == old(a)@.branches,
        old(s)@.labels.contains_key(name@),
        old(s)@.labels[name@] == old(a)@.code.len(),
        forall|other: Seq<char>| #[trigger]
            old(s)@.labels.contains_key(other) && other != name@ ==> old(a)@.labels.contains_key(
                other,
            ) && old(s)@.labels[other] == old(a)@.labels[other],
        forall|other: Seq<char>| #[trigger]
            old(a)@.labels.contains_key(other) ==> old(s)@.labels.contains_key(other),
{
}

/// The opcode of a branch, and the field behind it, are in the assembled code.
proof fn lemma_branch_in_code(
    before: Listing,
    op: u8,
    dest: Dest,
    l: Listing,
    base: u64,
    out: Seq<u8>,
)
    requires
        op == 0xE9 || op == 0xE8,
        before.wf(),
        l.wf(),
        grows(before.branch(op, dest), l),
        l.first_fault(base, 0) is None,
        out == l.linked(base, l.branches.len() as int),
    ensures
        ({
            let n = before.code.len() as int;
            let k = before.branches.len() as int;
            let d = machine::i32_at(out, n + 1);
            &&& n + 5 <= out.len()
            &&& k < l.branches.len()
            &&& l.branches[k] == (Branch { at: (n + 1) as nat, dest })
            &&& machine::decode(out.skip(n)) == Some(
                (
                    if op == 0xE9 {
                        Instr::Jump(d)
                    } else {
                        Instr::Call(d)
                    },
                    5int,
                ),
            )
            &&& led(l, base, out, k)
            &&& l.fault(base, k) is None
        }),
{
    reveal(machine::decode_behind);
    let s = before.branch(op, dest);
    let n = before.code.len() as int;
    let k = before.branches.len() as int;
    assert(l.branches.take(s.branches.len() as int)[k] == s.branches[k]);
    assert(l.code.take(s.code.len() as int)[n] == s.code[n]);
    lemma_first_fault(l, base, 0);
    assert(l.fault(base, k) is None);
    law_linking_fills_the_fields(l, base, l.branches.len() as int);
    assert(out[n] == l.code[n]) by {
        assert forall|j: int| 0 <= j < l.branches.len() implies !((#[trigger] l.branches[j]).at <= n
            < l.branches[j].at + 4) by {
            if j < k {
                assert(l.branches.take(s.branches.len() as int)[j] == s.branches[j]);
                assert(before.branches[j].at + 4 <= n);
            } else if j > k {
                assert(l.branches[k].at + 4 <= l.branches[j].at);
            }
        }
    }
    lemma_field(l, base, out, k);
    let c = out.skip(n);
    assert(c[0] == op);
    assert(machine::i32_at(c, 1) == machine::i32_at(out, n + 1)) by {
        assert(c[1] == out[n + 1] && c[2] == out[n + 2] && c[3] == out[n + 3] && c[4] == out[n
            + 4]);
    }
}

/// Wherever the code is assembled to, a jump to a label leads to the place that
/// the label stands for.
pub proof fn law_jmp_label_lands(
    a: &mut Asm,
    name: &str,
    s: &mut Asm,
    f: &Asm,
    base: u64,
    out: Vec<u8>,
)
    requires
        old(a)@.wf(),
        call_ensures(Asm::jmp_label, (a, name), s),
        grows(old(s)@, f@),
        f@.wf(),
        call_ensures(Asm::assemble, (f, base), Ok::<Vec<u8>, AsmError>(out)),
    ensures
        ({
            let n = old(a)@.code.len() as int;
            &&& old(s)@.code.len() == n + 5
            &&& old(s)@.code.take(n) == old(a)@.code
            &&& old(s)@.labels == old(a)@.labels
            &&& f@.labels.contains_key(name@)
            &&& machine::decode(out@.skip(n)) matches Some((Instr::Jump(d), len))
            &&& len == 5
            &&& leads(base + n + 5, d, base + f@.labels[name@])
        }),
{
    assert(old(s)@.code.take(old(a)@.code.len() as int) =~= old(a)@.code);
    lemma_branch_in_code(old(a)@, 0xE9, Dest::Label(name@), f@, base, out@);
}

/// Wherever the code is assembled to, a call of a label leads to the place that
/// the label stands for.
pub proof fn law_call_label_lands(
    a: &mut Asm,
    name: &str,
    s: &mut Asm,
    f: &Asm,
    base: u64,
    out: Vec<u8>,
)
    requires
        old(a)@.wf(),
        call_ensures(Asm::call_label, (a, name), s),
        grows(old(s)@, f@),
        f@.wf(),
        call_ensures(Asm::assemble, (f, base), Ok::<Vec<u8>, AsmError>(out)),
    ensures
        ({
            let n = old(a)@.code.len() as int;
            &&& old(s)@.code.len() == n + 5
            &&& old(s)@.code.take(n) == old(a)@.code
            &&& old(s)@.labels == old(a)@.labels
            &&& f@.labels.contains_key(name@)
            &&& machine::decode(out@.skip(n)) matches Some((Instr::Call(d), len))
            &&& len == 5
            &&& leads(base + n + 5, d, base + f@.labels[name@])
        }),
{
    assert(old(s)@.code.take(old(a)@.code.len() as int) =~= old(a)@.code);
    lemma_branch_in_code(old(a)@, 0xE8, Dest::Label(name@), f@, base, out@);
}

/// Wherever the code is assembled to, a jump to an address leads there.
pub proof fn law_jmp_lands(
    a: &mut Asm,
    target: u64,
    s: &mut Asm,
    f: &Asm,
    base: u64,
    out: Vec<u8>,
)
    requires
        old(a)@.wf(),
        call_ensures(Asm::jmp, (a, target), s),
        grows(old(s)@, f@),
        f@.wf(),
        call_ensures(Asm::assemble, (f, base), Ok::<Vec<u8>, AsmError>(out)),
    ensures
        ({
            let n = old(a)@.code.len() as int;
            &&& old(s)@.code.len() == n + 5
            &&& old(s)@.code.take(n) == old(a)@.code
            &&& old(s)@.labels == old(a)@.labels
            &&& machine::decode(out@.skip(n)) matches Some((Instr::Jump(d), len))
            &&& len == 5
            &&& leads(base + n + 5, d, target as int)
        }),
{
    assert(old(s)@.code.take(old(a)@.code.len() as int) =~= old(a)@.code);
    lemma_branch_in_code(old(a)@, 0xE9, Dest::Addr(target), f@, base, out@);
}

/// Wherever the code is assembled to, a call of an address leads there.
pub proof fn law_call_lands(
    a: &mut Asm,
    target: u64,
    s: &mut Asm,
    f: &Asm,
    base: u64,
    out: Vec<u8>,
)
    requires
        old(a)@.wf(),
        call_ensures(Asm::call, (a, target), s),
        grows(old(s)@, f@),
        f@.wf(),
        call_ensures(Asm::assemble, (f, base), Ok::<Vec<u8>, AsmError>(out)),
    ensures
        ({
            let n = old(a)@.code.len() as int;
            &&& old(s)@.code.len() == n + 5
            &&& old(s)@.code.take(n) == old(a)@.code
            &&& old(s)@.labels == old(a)@.labels
            &&& machine::decode(out@.skip(n)) matches Some((Instr::Call(d), len))
            &&& len == 5
            &&& leads(base + n + 5, d, target as int)
        }),
{
    assert(old(s)@.code.take(old(a)@.code.len() as int) =~= old(a)@.code);
    lemma_branch_in_code(old(a)@, 0xE8, Dest::Addr(target), f@, base, out@);
}

/// What cannot be assembled is told by the label's name, or by the distance in
/// decimal.
pub proof fn law_asm_messages(e: AsmError, r: String)
    requires
        call_ensures(AsmError::message, (&e,), r),
    ensures
        match e {
            AsmError::UndefinedLabel(name) => r@ == "undefined label '"@ + name@ + "'"@,
            AsmError::Rel32OutOfRange { rel } => r@ == "rel32 target out of range (delta "@ + (
            if rel < 0 {
                seq!['-'] + text::in_decimal((-rel) as nat)
            } else {
                text::in_decimal(rel as nat)
            }) + ")"@,
        },
{
    if let AsmError::Rel32OutOfRange { rel } = e {
        if rel < 0 {
            text::law_numbers_are_written_in_digits((-rel) as nat);
        } else {
            text::law_numbers_are_written_in_digits(rel as nat);
        }
    }
}

/// A new builder is empty, and its length is that of what was emitted.
pub proof fn law_builder_starts_empty(fresh: Asm, usual: Asm, a: &Asm, len: usize, empty: bool)
    requires
        call_ensures(Asm::new, (), fresh),
        call_ensures(<Asm as Default>::default, (), usual),
        call_ensures(Asm::len, (a,), len),
        call_ensures(Asm::is_empty, (a,), empty),
    ensures
        fresh@.code.len() == 0,
        fresh@.branches.len() == 0,
        forall|name: Seq<char>| !#[trigger] fresh@.labels.contains_key(name),
        usual@ == fresh@,
        len == a@.code.len(),
        empty <==> len == 0,
{
}

/// A register's number tells whether it needs a prefix bit and what the field for it
/// holds.
pub proof fn law_register_fields(n: int, hi: bool, low: u8)
    requires
        0 <= n < 16,
        call_ensures(Reg::hi, (machine::register(n),), hi),
        call_ensures(Reg::low3, (machine::register(n),), low),
    ensures
        hi == (n >= 8),
        low == n % 8,
{
}

} // verus!
