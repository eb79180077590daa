//! Little-endian integers, the byte order of x86-64.
use vstd::prelude::*;

verus! {

/// The `n` low-order bytes of `x`, least significant first.
pub open spec fn le_bytes(x: nat, n: nat) -> Seq<u8>
    decreases n,
{
    if n == 0 {
        Seq::empty()
    } else {
        seq![(x % 256) as u8] + le_bytes(x / 256, (n - 1) as nat)
    }
}

/// The number whose bytes, least significant first, are `s`.
pub open spec fn le_value(s: Seq<u8>) -> nat
    decreases s.len(),
{
    if s.len() == 0 {
        0
    } else {
        s[0] as nat + 256 * le_value(s.drop_first())
    }
}

/// 256 to the power `n`.
pub open spec fn pow256(n: nat) -> nat
    decreases n,
{
    if n == 0 {
        1
    } else {
        256 * pow256((n - 1) as nat)
    }
}

/// The two's complement image of `x` in 32 bits.
pub open spec fn twos32(x: int) -> nat {
    (x % 0x1_0000_0000) as nat
}

/// The number whose two's complement image in 32 bits is `v`.
pub open spec fn signed32(v: nat) -> int {
    if v < 0x8000_0000 {
        v as int
    } else {
        v - 0x1_0000_0000
    }
}

/// A value of `n` bytes is what its `n` bytes stand for.
pub proof fn law_le_round_trip(x: nat, n: nat)
    requires
        x < pow256(n),
    ensures
        le_bytes(x, n).len() == n,
        le_value(le_bytes(x, n)) == x,
    decreases n,
{
    if n > 0 {
        assert(x / 256 < pow256((n - 1) as nat));
        law_le_round_trip(x / 256, (n - 1) as nat);
        let rest = le_bytes(x / 256, (n - 1) as nat);
        assert(le_bytes(x, n).drop_first() =~= rest);
    }
}

pub(crate) proof fn lemma_le_bytes_len(x: nat, n: nat)
    ensures
        le_bytes(x, n).len() == n,
    decreases n,
{
    if n > 0 {
        lemma_le_bytes_len(x / 256, (n - 1) as nat);
    }
}

/// Bytes are the bytes of the value that they stand for, which is less than 256
/// to the power of their number.
pub proof fn law_bytes_round_trip(s: Seq<u8>)
    ensures
        le_value(s) < pow256(s.len()),
        le_bytes(le_value(s), s.len()) == s,
    decreases s.len(),
{
    if s.len() > 0 {
        let rest = s.drop_first();
        law_bytes_round_trip(rest);
        let v = le_value(s);
        assert(v % 256 == s[0] && v / 256 == le_value(rest));
        assert(le_bytes(v, s.len()) =~= s);
    } else {
        assert(le_bytes(0, 0) =~= s);
    }
}

/// Append the `n` low-order bytes of `x` to `buf`, least significant first.
pub(crate) fn push_le(buf: &mut Vec<u8>, x: u64, n: usize)
    ensures
        final(buf)@ == old(buf)@ + le_bytes(x as nat, n as nat),
{
    let ghost before = buf@;
    let mut rest: u64 = x;
    let mut i: usize = 0;
    assert(before + le_bytes(x as nat, n as nat) =~= buf@ + le_bytes(rest as nat, (n - i) as nat));
    while i < n
        invariant
            i <= n,
            before + le_bytes(x as nat, n as nat) == buf@ + le_bytes(
                rest as nat,
                (n - i) as nat,
            ),
        decreases n - i,
    {
        let ghost b = buf@;
        buf.push((rest % 256) as u8);
        proof {
            let tail = le_bytes(rest as nat / 256, (n - i - 1) as nat);
            assert(b + (seq![(rest % 256) as u8] + tail) =~= buf@ + tail);
        }
        rest = rest / 256;
        i = i + 1;
    }
    assert(buf@ + le_bytes(rest as nat, 0) =~= buf@);
}

/// The low 32 bits of `x` as an unsigned number, the form in which a `disp32`
/// or `imm32` field is written.
pub(crate) fn low32(x: i32) -> (r: u64)
    ensures
        r == twos32(x as int),
{
    if x >= 0 {
        x as u64
    } else {
        (x as i64 + 0x1_0000_0000) as u64
    }
}

/// `bytemuck::pod_read_unaligned` for `usize`: the bytes as an address, in the
/// byte order of the machine, which on x86-64 has the least significant byte
/// first. It panics unless there are as many bytes as a `usize` has.
#[verifier::external_body]
pub(crate) fn pod_usize(b: &[u8]) -> (r: usize)
    requires
        b@.len() * 8 == usize::BITS,
    ensures
        r == le_value(b@),
{
    bytemuck::pod_read_unaligned::<usize>(b)
}

/// `bytemuck::pod_read_unaligned` for `i32`: the bytes as a number in two's
/// complement, in the byte order of the machine, which on x86-64 has the least
/// significant byte first. It panics unless there are four bytes.
#[verifier::external_body]
pub(crate) fn pod_i32(b: &[u8]) -> (r: i32)
    requires
        b@.len() == 4,
    ensures
        r == signed32(le_value(b@)),
{
    bytemuck::pod_read_unaligned::<i32>(b)
}

/// Addresses wrap around at the end of the address space.
pub(crate) proof fn lemma_wraps(a: usize, b: usize)
    ensures
        a.wrapping_add(b) == (a + b) % (usize::MAX + 1),
{
    let m = usize::MAX + 1;
    let x = a + b;
    if x < m {
        vstd::arithmetic::div_mod::lemma_small_mod(x as nat, m as nat);
    } else {
        vstd::arithmetic::div_mod::lemma_small_mod((x - m) as nat, m as nat);
        vstd::arithmetic::div_mod::lemma_mod_multiples_vanish(1, x - m, m);
    }
}

/// Four and eight bytes stand for the sum of their values, each weighted by its
/// place, the least significant first.
pub proof fn law_places(s: Seq<u8>)
    ensures
        s.len() == 4 ==> le_value(s) == s[0] + 0x100 * s[1] + 0x1_0000 * s[2] + 0x100_0000 * s[3],
        s.len() == 8 ==> le_value(s) == s[0] + 0x100 * s[1] + 0x1_0000 * s[2] + 0x100_0000 * s[3]
            + 0x1_0000_0000 * (s[4] + 0x100 * s[5] + 0x1_0000 * s[6] + 0x100_0000 * s[7]),
{
    reveal_with_fuel(le_value, 9);
    if s.len() == 4 || s.len() == 8 {
        assert(s.drop_first()[0] == s[1]);
        assert(s.drop_first().drop_first()[0] == s[2]);
        assert(s.drop_first().drop_first().drop_first()[0] == s[3]);
    }
    if s.len() == 8 {
        let t = s.drop_first().drop_first().drop_first().drop_first();
        assert(t[0] == s[4]);
        assert(t.drop_first()[0] == s[5]);
        assert(t.drop_first().drop_first()[0] == s[6]);
        assert(t.drop_first().drop_first().drop_first()[0] == s[7]);
    }
}

} // verus!
