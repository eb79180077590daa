//! What machine code means: a decoder for a part of the x86-64 instruction set,
//! and a machine that runs it.
use vstd::prelude::*;

use crate::assembler::Reg;
use crate::bytes;

verus! {

/// The register that a four-bit field names.
pub open spec fn register(n: int) -> Reg {
    if n == 0 {
        Reg::Rax
    } else if n == 1 {
        Reg::Rcx
    } else if n == 2 {
        Reg::Rdx
    } else if n == 3 {
        Reg::Rbx
    } else if n == 4 {
        Reg::Rsp
    } else if n == 5 {
        Reg::Rbp
    } else if n == 6 {
        Reg::Rsi
    } else if n == 7 {
        Reg::Rdi
    } else if n == 8 {
        Reg::R8
    } else if n == 9 {
        Reg::R9
    } else if n == 10 {
        Reg::R10
    } else if n == 11 {
        Reg::R11
    } else if n == 12 {
        Reg::R12
    } else if n == 13 {
        Reg::R13
    } else if n == 14 {
        Reg::R14
    } else {
        Reg::R15
    }
}

/// An instruction.
pub enum Instr {
    /// `nop`.
    Nop,
    /// `int3`.
    Int3,
    /// `ret`.
    Ret,
    /// `syscall`.
    Syscall,
    /// `push r`.
    Push(Reg),
    /// `pop r`.
    Pop(Reg),
    /// `mov r, imm64`.
    SetImm(Reg, int),
    /// `mov dst, src`.
    Copy { dst: Reg, src: Reg },
    /// `xor dst, src`.
    Xor { dst: Reg, src: Reg },
    /// `add r, imm32`.
    AddImm(Reg, int),
    /// `sub r, imm32`.
    SubImm(Reg, int),
    /// `mov [base + disp], src`.
    Store { base: Reg, disp: int, src: Reg },
    /// `mov dst, [base + disp]`.
    Load { dst: Reg, base: Reg, disp: int },
    /// `jmp` by a distance from the end of the instruction.
    Jump(int),
    /// `call` by a distance from the end of the instruction.
    Call(int),
    /// `jmp` to the address that is held at a distance from the end of the
    /// instruction.
    JumpThrough(int),
}

/// The unsigned number in the four bytes at `i`, least significant first.
pub open spec fn u32_at(c: Seq<u8>, i: int) -> int {
    c[i] + 0x100 * c[i + 1] + 0x1_0000 * c[i + 2] + 0x100_0000 * c[i + 3]
}

/// The signed number in the four bytes at `i`, least significant first.
pub open spec fn i32_at(c: Seq<u8>, i: int) -> int {
    if c[i + 3] < 0x80 {
        u32_at(c, i)
    } else {
        u32_at(c, i) - 0x1_0000_0000
    }
}

/// The unsigned number in the eight bytes at `i`, least significant first.
pub open spec fn u64_at(c: Seq<u8>, i: int) -> int {
    u32_at(c, i) + 0x1_0000_0000 * u32_at(c, i + 4)
}

/// The instruction at the start of `c`, and its length.
pub open spec fn decode(c: Seq<u8>) -> Option<(Instr, int)> {
    if c.len() == 0 {
        None
    } else if 0x40 <= c[0] < 0x50 {
        decode_behind(c, 1, c[0] - 0x40)
    } else {
        decode_behind(c, 0, 0)
    }
}

/// The instruction whose opcode is at `p`, behind a prefix with these bits: from
/// the highest, a 64-bit operand, and the fourth bits of the register field, of
/// the index, and of the base or r/m field.
#[verifier::opaque]
pub open spec fn decode_behind(c: Seq<u8>, p: int, rex: int) -> Option<(Instr, int)> {
    let wide = rex / 8 % 2 == 1;
    let r = 8 * (rex / 4 % 2);
    let x = rex / 2 % 2;
    let b = 8 * (rex % 2);
    if p >= c.len() {
        None
    } else if 0x50 <= c[p] < 0x58 {
        Some((Instr::Push(register(b + c[p] - 0x50)), p + 1))
    } else if 0x58 <= c[p] < 0x60 {
        Some((Instr::Pop(register(b + c[p] - 0x58)), p + 1))
    } else if c[p] == 0x90 && b == 0 {
        Some((Instr::Nop, p + 1))
    } else if c[p] == 0xCC {
        Some((Instr::Int3, p + 1))
    } else if c[p] == 0xC3 {
        Some((Instr::Ret, p + 1))
    } else if wide && 0xB8 <= c[p] < 0xC0 {
        if c.len() - p >= 9 {
            Some((Instr::SetImm(register(b + c[p] - 0xB8), u64_at(c, p + 1)), p + 9))
        } else {
            None
        }
    } else if c[p] == 0xE9 || c[p] == 0xE8 {
        decode_branch(c, p)
    } else if p + 1 >= c.len() {
        None
    } else if c[p] == 0x0F {
        if c[p + 1] == 0x05 {
            Some((Instr::Syscall, p + 2))
        } else {
            None
        }
    } else if c[p] == 0xFF {
        if c[p + 1] == 0x25 && c.len() - p >= 6 {
            Some((Instr::JumpThrough(i32_at(c, p + 2)), p + 6))
        } else {
            None
        }
    } else if wide {
        decode_operands(c, p, r, x, b)
    } else {
        None
    }
}

/// The relative branch whose opcode is at `p`.
pub open spec fn decode_branch(c: Seq<u8>, p: int) -> Option<(Instr, int)> {
    if c.len() - p < 5 {
        None
    } else if c[p] == 0xE9 {
        Some((Instr::Jump(i32_at(c, p + 1)), p + 5))
    } else {
        Some((Instr::Call(i32_at(c, p + 1)), p + 5))
    }
}

/// The instruction whose opcode is at `p`, with a ModRM byte behind it. `r`, `x`
/// and `b` are what the prefix adds to the register field, the index, and the
/// base or r/m field.
#[verifier::opaque]
pub open spec fn decode_operands(c: Seq<u8>, p: int, r: int, x: int, b: int) -> Option<
    (Instr, int),
> {
    let mode = c[p + 1] as int / 64;
    let field = c[p + 1] as int / 8 % 8;
    let rm = c[p + 1] as int % 8;
    if mode == 3 {
        decode_registers(c, p, field, register(r + field), register(b + rm))
    } else if mode == 2 && rm != 4 && c.len() - p >= 6 {
        decode_memory(c[p], register(r + field), register(b + rm), i32_at(c, p + 2), p + 6)
    } else if mode == 2 && rm == 4 && c.len() - p >= 7 && x == 0 && c[p + 2] as int / 8 % 8 == 4 {
        decode_memory(
            c[p],
            register(r + field),
            register(b + c[p + 2] as int % 8),
            i32_at(c, p + 3),
            p + 7,
        )
    } else {
        None
    }
}

/// The instruction whose opcode is at `p` and whose operands are in registers.
/// `field` is the register field, which holds a part of the opcode if there is an
/// immediate.
pub open spec fn decode_registers(c: Seq<u8>, p: int, field: int, reg: Reg, rm: Reg) -> Option<
    (Instr, int),
> {
    if c[p] == 0x89 {
        Some((Instr::Copy { dst: rm, src: reg }, p + 2))
    } else if c[p] == 0x8B {
        Some((Instr::Copy { dst: reg, src: rm }, p + 2))
    } else if c[p] == 0x31 {
        Some((Instr::Xor { dst: rm, src: reg }, p + 2))
    } else if c[p] == 0x81 && c.len() - p >= 6 && field == 0 {
        Some((Instr::AddImm(rm, i32_at(c, p + 2)), p + 6))
    } else if c[p] == 0x81 && c.len() - p >= 6 && field == 5 {
        Some((Instr::SubImm(rm, i32_at(c, p + 2)), p + 6))
    } else {
        None
    }
}

/// The instruction of opcode `op` with an operand in memory, which ends at `end`.
pub open spec fn decode_memory(op: u8, reg: Reg, base: Reg, disp: int, end: int) -> Option<
    (Instr, int),
> {
    if op == 0x89 {
        Some((Instr::Store { base, disp, src: reg }, end))
    } else if op == 0x8B {
        Some((Instr::Load { dst: reg, base, disp }, end))
    } else {
        None
    }
}

/// The registers of a machine and its stack, the top last.
#[verifier::ext_equal]
pub struct State {
    pub regs: spec_fn(Reg) -> u64,
    pub stack: Seq<u64>,
}

/// `regs` with `v` in `r`, modulo 2 to the 64.
pub open spec fn with(regs: spec_fn(Reg) -> u64, r: Reg, v: int) -> spec_fn(Reg) -> u64 {
    |x: Reg|
        if x == r {
            (v % 0x1_0000_0000_0000_0000) as u64
        } else {
            regs(x)
        }
}

/// The machine behind an instruction, if it is one that only works on registers
/// and the stack.
pub open spec fn behind(i: Instr, s: State) -> Option<State> {
    match i {
        Instr::Nop => Some(s),
        Instr::Push(r) => Some(
            State {
                regs: with(s.regs, Reg::Rsp, (s.regs)(Reg::Rsp) - 8),
                stack: s.stack.push((s.regs)(r)),
            },
        ),
        Instr::Pop(r) => if s.stack.len() == 0 {
            None
        } else {
            Some(
                State {
                    regs: with(
                        with(s.regs, Reg::Rsp, (s.regs)(Reg::Rsp) + 8),
                        r,
                        s.stack.last() as int,
                    ),
                    stack: s.stack.drop_last(),
                },
            )
        },
        Instr::SetImm(r, v) => Some(State { regs: with(s.regs, r, v), ..s }),
        Instr::Copy { dst, src } => Some(
            State { regs: with(s.regs, dst, (s.regs)(src) as int), ..s },
        ),
        Instr::AddImm(r, v) => Some(State { regs: with(s.regs, r, (s.regs)(r) + v), ..s }),
        Instr::SubImm(r, v) => Some(State { regs: with(s.regs, r, (s.regs)(r) - v), ..s }),
        _ => None,
    }
}

/// The machine once it has run all of `c`, if it can.
pub open spec fn run(c: Seq<u8>, s: State) -> Option<State>
    decreases c.len(),
{
    if c.len() == 0 {
        Some(s)
    } else {
        match decode(c) {
            Some((i, n)) => if 0 < n <= c.len() {
                match behind(i, s) {
                    Some(t) => run(c.skip(n), t),
                    None => None,
                }
            } else {
                None
            },
            None => None,
        }
    }
}

/// The numbers in the bytes that two texts of code share are the same.
proof fn lemma_same_numbers(c: Seq<u8>, d: Seq<u8>)
    requires
        c.len() <= d.len(),
        forall|i: int| 0 <= i < c.len() ==> #[trigger] d[i] == c[i],
    ensures
        forall|i: int| 0 <= i && i + 4 <= c.len() ==> #[trigger] i32_at(d, i) == i32_at(c, i),
        forall|i: int| 0 <= i && i + 8 <= c.len() ==> #[trigger] u64_at(d, i) == u64_at(c, i),
{
}

proof fn lemma_operands_are_local(c: Seq<u8>, d: Seq<u8>, p: int, r: int, x: int, b: int)
    requires
        c.len() <= d.len(),
        forall|i: int| 0 <= i < c.len() ==> #[trigger] d[i] == c[i],
        0 <= p,
        p + 1 < c.len(),
        decode_operands(c, p, r, x, b) is Some,
    ensures
        decode_operands(d, p, r, x, b) == decode_operands(c, p, r, x, b),
        p < (decode_operands(c, p, r, x, b)->0).1 <= c.len(),
{
    reveal(decode_operands);
    lemma_same_numbers(c, d);
}

/// An instruction is decoded from its own bytes, whatever follows them.
pub proof fn law_decoding_is_local(c: Seq<u8>, rest: Seq<u8>)
    requires
        decode(c) is Some,
    ensures
        decode(c + rest) == decode(c),
        0 < (decode(c)->0).1 <= c.len(),
{
    reveal(decode_behind);
    let d = c + rest;
    assert forall|i: int| 0 <= i < c.len() implies #[trigger] d[i] == c[i] by {}
    lemma_same_numbers(c, d);
    let rex = if 0x40 <= c[0] < 0x50 {
        c[0] - 0x40
    } else {
        0
    };
    let p: int = if 0x40 <= c[0] < 0x50 {
        1
    } else {
        0
    };
    let (r, x, b) = (8 * (rex / 4 % 2), rex / 2 % 2, 8 * (rex % 2));
    if p + 1 < c.len() && decode_operands(c, p, r, x, b) is Some {
        lemma_operands_are_local(c, d, p, r, x, b);
    }
}

/// Code that runs through runs through as the beginning of longer code.
pub proof fn law_running_is_sequential(a: Seq<u8>, b: Seq<u8>, s: State)
    requires
        run(a, s) is Some,
    ensures
        run(a + b, s) == run(b, run(a, s)->0),
    decreases a.len(),
{
    if a.len() == 0 {
        assert(a + b =~= b);
    } else {
        let (i, n) = decode(a)->0;
        law_decoding_is_local(a, b);
        let t = behind(i, s)->0;
        law_running_is_sequential(a.skip(n), b, t);
        assert((a + b).skip(n) =~= a.skip(n) + b);
    }
}

/// A single instruction runs as it is decoded.
pub(crate) proof fn lemma_run_one(c: Seq<u8>, s: State)
    requires
        decode(c) matches Some((i, n)) && n == c.len() && behind(i, s) is Some,
    ensures
        run(c, s) == behind((decode(c)->0).0, s),
{
    let (i, n) = decode(c)->0;
    law_decoding_is_local(c, Seq::empty());
    let t = behind(i, s)->0;
    assert(c.skip(n).len() == 0);
    assert(run(c.skip(n), t) == Some(t));
}

/// The numbers that little-endian bytes are written from are read from them.
pub(crate) proof fn lemma_written_number(c: Seq<u8>, i: int, v: nat)
    requires
        0 <= i,
    ensures
        i + 4 <= c.len() && v < 0x1_0000_0000 && c.subrange(i, i + 4) == bytes::le_bytes(v, 4)
            ==> u32_at(c, i) == v && i32_at(c, i) == bytes::signed32(v),
        i + 8 <= c.len() && v < 0x1_0000_0000_0000_0000 && c.subrange(i, i + 8)
            == bytes::le_bytes(v, 8) ==> u64_at(c, i) == v,
{
    if i + 4 <= c.len() && v < 0x1_0000_0000 && c.subrange(i, i + 4) == bytes::le_bytes(v, 4) {
        lemma_four_bytes(c, i, v);
    }
    if i + 8 <= c.len() && v < 0x1_0000_0000_0000_0000 && c.subrange(i, i + 8) == bytes::le_bytes(
        v,
        8,
    ) {
        let (low, high) = (v % 0x1_0000_0000, v / 0x1_0000_0000);
        lemma_halves(v);
        let all = bytes::le_bytes(v, 8);
        bytes::lemma_le_bytes_len(low, 4);
        bytes::lemma_le_bytes_len(high, 4);
        assert(c.subrange(i, i + 4) =~= all.subrange(0, 4));
        assert(all.subrange(0, 4) =~= bytes::le_bytes(low, 4));
        assert(c.subrange(i + 4, i + 8) =~= all.subrange(4, 8));
        assert(all.subrange(4, 8) =~= bytes::le_bytes(high, 4));
        lemma_four_bytes(c, i, low);
        lemma_four_bytes(c, i + 4, high);
    }
}

proof fn lemma_four_bytes(c: Seq<u8>, i: int, v: nat)
    requires
        0 <= i,
        i + 4 <= c.len(),
        v < 0x1_0000_0000,
        c.subrange(i, i + 4) == bytes::le_bytes(v, 4),
    ensures
        u32_at(c, i) == v,
        i32_at(c, i) == bytes::signed32(v),
{
    reveal_with_fuel(bytes::le_bytes, 5);
    let s = c.subrange(i, i + 4);
    assert(s =~= seq![
        (v % 256) as u8,
        (v / 256 % 256) as u8,
        (v / 256 / 256 % 256) as u8,
        (v / 256 / 256 / 256 % 256) as u8,
    ]);
    assert(c[i] == s[0] && c[i + 1] == s[1] && c[i + 2] == s[2] && c[i + 3] == s[3]);
}

/// The bytes of a number are those of its low half and then of its high half.
proof fn lemma_halves(v: nat)
    ensures
        bytes::le_bytes(v, 8) == bytes::le_bytes(v % 0x1_0000_0000, 4) + bytes::le_bytes(
            v / 0x1_0000_0000,
            4,
        ),
{
    reveal_with_fuel(bytes::le_bytes, 9);
    let low = v % 0x1_0000_0000;
    let high = v / 0x1_0000_0000;
    assert(low % 256 == v % 256);
    assert(low / 256 % 256 == v / 256 % 256);
    assert(low / 256 / 256 % 256 == v / 256 / 256 % 256);
    assert(low / 256 / 256 / 256 % 256 == v / 256 / 256 / 256 % 256);
    assert(high == v / 256 / 256 / 256 / 256);
    assert(bytes::le_bytes(v, 8) =~= bytes::le_bytes(low, 4) + bytes::le_bytes(high, 4));
}

} // verus!
