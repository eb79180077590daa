//! Memory as a map from addresses to bytes: what reads and writes mean.
use vstd::prelude::*;

verus! {

/// Whether every byte of the range is mapped.
pub open spec fn mapped(m: Map<int, u8>, addr: int, len: int) -> bool {
    forall|a: int| addr <= a < addr + len ==> #[trigger] m.contains_key(a)
}

/// The bytes of the range.
pub open spec fn peek(m: Map<int, u8>, addr: int, len: nat) -> Seq<u8> {
    Seq::new(len, |i: int| m[addr + i])
}

/// The memory with `s` written over it at `addr`.
pub open spec fn poke(m: Map<int, u8>, addr: int, s: Seq<u8>) -> Map<int, u8> {
    Map::new(
        |a: int| m.contains_key(a),
        |a: int|
            if addr <= a < addr + s.len() {
                s[a - addr]
            } else {
                m[a]
            },
    )
}

/// A read gives back what a write wrote.
pub proof fn law_peek_after_poke(m: Map<int, u8>, addr: int, s: Seq<u8>)
    requires
        mapped(m, addr, s.len() as int),
    ensures
        peek(poke(m, addr, s), addr, s.len()) == s,
{
    assert forall|i: int| 0 <= i < s.len() implies poke(m, addr, s)[addr + i] == s[i] by {
        assert(m.contains_key(addr + i));
    }
    assert(peek(poke(m, addr, s), addr, s.len()) =~= s);
}

/// Writing back what was there before a write of the same length restores the
/// memory, and nothing outside the range was ever touched.
pub proof fn law_writing_back_restores(m: Map<int, u8>, addr: int, s: Seq<u8>)
    requires
        mapped(m, addr, s.len() as int),
    ensures
        poke(poke(m, addr, s), addr, peek(m, addr, s.len())) == m,
        forall|a: int|
            m.contains_key(a) && !(addr <= a < addr + s.len()) ==> #[trigger] poke(m, addr, s)[a]
                == m[a],
{
    assert(poke(poke(m, addr, s), addr, peek(m, addr, s.len())) =~= m);
}

/// Of two writes to the same range only the later one counts.
pub proof fn law_later_write_counts(m: Map<int, u8>, addr: int, s: Seq<u8>, t: Seq<u8>)
    requires
        s.len() == t.len(),
    ensures
        poke(poke(m, addr, s), addr, t) == poke(m, addr, t),
{
    assert(poke(poke(m, addr, s), addr, t) =~= poke(m, addr, t));
}

} // verus!
