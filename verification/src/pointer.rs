//! Multi-level pointer chains ([`Pointer`]).
use vstd::prelude::*;

use crate::bytes;
use crate::error::Error;
use crate::io;
use crate::io::ReadRequest;
use crate::memory;
use crate::process::Process;
use crate::step::Step;

verus! {

/// A multi-level pointer chain.
///
/// Default (Cheat-Engine) convention, for `base` + `[o0, o1, .., oN]`:
///
/// ```text
/// addr = base
/// for off in offsets:        // deref, THEN add offset
///     addr = read_usize(addr)
///     addr += off
/// // `addr` is the address of the final value
/// ```
///
/// This matches Cheat Engine when you fold the static offset into `base` and
/// list the CE offsets top-to-bottom. If your notes use the *other* convention
/// (add the offset *before* each deref), call [`Pointer::offset_first`].
///
/// A `Pointer` is a lazy builder: nothing is read until you call
/// [`resolve`](Self::resolve).
#[derive(Debug)]
#[must_use]
pub struct Pointer<'p> {
    proc: &'p Process,
    base: usize,
    offsets: Vec<usize>,
    offset_first: bool,
}

/// What a pointer chain is made of.
#[verifier::ext_equal]
pub struct Chain {
    pub pid: i32,
    pub base: usize,
    pub offsets: Seq<usize>,
    /// Whether an offset is added before the dereference.
    pub offset_first: bool,
}

impl<'p> View for Pointer<'p> {
    type V = Chain;

    closed spec fn view(&self) -> Chain {
        Chain {
            pid: self.proc@,
            base: self.base,
            offsets: self.offsets@,
            offset_first: self.offset_first,
        }
    }
}

impl<'p> Clone for Pointer<'p> {
    fn clone(&self) -> (r: Self)
        ensures
            r@ == self@,
    {
        let offsets: Vec<usize> = self.offsets.clone();
        assert(offsets@ =~= self.offsets@);
        Pointer { proc: self.proc, base: self.base, offsets, offset_first: self.offset_first }
    }
}

/// What is left of a chain: dereference `addr`, add the first of `offsets`, and
/// so on.
#[verifier::ext_equal]
pub struct Links {
    pub addr: usize,
    pub offsets: Seq<usize>,
}

impl Chain {
    /// The chain in the default convention.
    pub open spec fn links(self) -> Links {
        if self.offset_first && self.offsets.len() > 0 {
            Links {
                addr: self.base.wrapping_add(self.offsets[0]),
                offsets: self.offsets.drop_first(),
            }
        } else {
            Links { addr: self.base, offsets: self.offsets }
        }
    }
}

impl Links {
    /// The read of the pointer at `addr`.
    pub open spec fn request(self) -> ReadRequest {
        ReadRequest { addr: self.addr, len: (usize::BITS / 8) as usize }
    }

    /// What is left once the pointer at `addr` is known to be `p`.
    pub open spec fn follow(self, p: usize) -> Links {
        Links { addr: p.wrapping_add(self.offsets[0]), offsets: self.offsets.drop_first() }
    }
}

/// A chain that is being resolved.
#[derive(Debug)]
pub struct Resolve {
    addr: usize,
    offsets: Vec<usize>,
    next: usize,
}

impl View for Resolve {
    type V = Links;

    closed spec fn view(&self) -> Links {
        Links { addr: self.addr, offsets: self.offsets@.skip(self.next as int) }
    }
}

/// Whether the resolution goes on as it has to.
pub open spec fn goes_on(r: Step<ReadRequest, Resolve, Result<usize, Error>>, left: Links) -> bool {
    if left.offsets.len() == 0 {
        r == Step::<ReadRequest, Resolve, Result<usize, Error>>::Done(Ok(left.addr))
    } else {
        &&& r matches Step::Do(req, s)
        &&& s@ == left
        &&& req == left.request()
    }
}

fn go_on(addr: usize, offsets: Vec<usize>, next: usize) -> (r: Step<
    ReadRequest,
    Resolve,
    Result<usize, Error>,
>)
    requires
        next <= offsets@.len(),
    ensures
        goes_on(r, (Links { addr, offsets: offsets@.skip(next as int) })),
{
    if next >= offsets.len() {
        return Step::Done(Ok(addr));
    }
    Step::Do(ReadRequest { addr, len: (usize::BITS / 8) as usize }, Resolve { addr, offsets, next })
}

impl Resolve {
    #[verifier::type_invariant]
    spec fn inv(self) -> bool {
        self.next < self.offsets@.len()
    }

    /// Go on with what the read of the pointer gave.
    ///
    /// # Errors
    /// The error of the read (commonly [`Error::Unmapped`] when a link is
    /// stale).
    pub fn resume(self, reply: Result<Vec<u8>, Error>) -> (r: Step<
        ReadRequest,
        Resolve,
        Result<usize, Error>,
    >)
        requires
            reply matches Ok(b) ==> b@.len() * 8 == usize::BITS,
        ensures
            match reply {
                Ok(b) => goes_on(r, self@.follow(bytes::le_value(b@) as usize)),
                Err(e) => r == Step::<ReadRequest, Resolve, Result<usize, Error>>::Done(Err(e)),
            },
    {
        proof {
            use_type_invariant(&self);
        }
        match reply {
            Ok(b) => {
                let p: usize = bytes::pod_usize(b.as_slice());
                let Resolve { addr, offsets, next } = self;
                assert(next < offsets.len());
                assert(offsets@.skip(next as int)[0] == offsets@[next as int]);
                assert(offsets@.skip(next as int).drop_first() =~= offsets@.skip(next + 1));
                let off: usize = offsets[next];
                go_on(p.wrapping_add(off), offsets, next + 1)
            },
            Err(e) => Step::Done(Err(e)),
        }
    }
}

impl Process {
    /// Start a fluent pointer chain rooted at `base` (an *address*, e.g.
    /// `module.base + static_offset`).
    ///
    /// See [`Pointer`] for the dereference convention.
    pub fn pointer(&self, base: usize) -> (r: Pointer<'_>)
        ensures
            r@ == (Chain { pid: self@, base, offsets: Seq::empty(), offset_first: false }),
    {
        Pointer { proc: self, base, offsets: Vec::new(), offset_first: false }
    }
}

impl<'p> Pointer<'p> {
    /// The process that the chain is in.
    pub fn process(&self) -> (r: &'p Process)
        ensures
            r@ == self@.pid,
    {
        self.proc
    }

    /// Append one offset (chainable).
    pub fn offset(self, off: usize) -> (r: Self)
        ensures
            r@ == (Chain { offsets: self@.offsets.push(off), ..self@ }),
    {
        let mut offsets = self.offsets;
        offsets.push(off);
        Pointer { offsets, ..self }
    }

    /// Append many offsets (chainable).
    pub fn offsets(self, offs: &[usize]) -> (r: Self)
        ensures
            r@ == (Chain { offsets: self@.offsets + offs@, ..self@ }),
    {
        let ghost before = self@.offsets;
        let mut offsets = self.offsets;
        offsets.extend_from_slice(offs);
        assert(offsets@ =~= before + offs@);
        Pointer { offsets, ..self }
    }

    /// Switch to the "add offset before each dereference" convention.
    pub fn offset_first(self) -> (r: Self)
        ensures
            r@ == (Chain { offset_first: true, ..self@ }),
    {
        Pointer { offset_first: true, ..self }
    }

    /// Resolve to the final address (without reading the value there).
    ///
    /// * default: `addr = deref(addr); addr += off` for each offset.
    /// * [`offset_first`](Self::offset_first): `addr += off; deref` for each
    ///   offset, skipping the trailing deref so the result is an address.
    ///
    /// Pointer arithmetic wraps (never panics); a dangling link surfaces when
    /// the intermediate deref reads unmapped memory.
    pub fn resolve(&self) -> (r: Step<ReadRequest, Resolve, Result<usize, Error>>)
        ensures
            goes_on(r, self@.links()),
    {
        let offsets: Vec<usize> = self.offsets.clone();
        assert(offsets@ =~= self.offsets@);
        assert(offsets@.skip(0) =~= offsets@);
        if self.offset_first && offsets.len() > 0 {
            assert(offsets@.skip(1) =~= offsets@.drop_first());
            let first: usize = offsets[0];
            go_on(self.base.wrapping_add(first), offsets, 1)
        } else {
            go_on(self.base, offsets, 0)
        }
    }
}

/// The address at the end of what is left of a chain, if `word` gives the
/// pointer at each address that has one.
pub open spec fn end_of(word: spec_fn(usize) -> Option<usize>, left: Links) -> Option<usize>
    decreases left.offsets.len(),
{
    if left.offsets.len() == 0 {
        Some(left.addr)
    } else {
        match word(left.addr) {
            Some(p) => end_of(word, left.follow(p)),
            None => None,
        }
    }
}

/// The chain of the default convention, from its first `n` offsets: dereference,
/// then add.
pub open spec fn deref_then_add(
    word: spec_fn(usize) -> Option<usize>,
    base: usize,
    offsets: Seq<usize>,
    n: int,
) -> Option<usize>
    decreases n,
{
    if n <= 0 {
        Some(base)
    } else {
        match deref_then_add(word, base, offsets, n - 1) {
            Some(a) => match word(a) {
                Some(p) => Some(p.wrapping_add(offsets[n - 1])),
                None => None,
            },
            None => None,
        }
    }
}

/// The chain of the other convention, from its first `n` offsets: add, and
/// dereference unless the offset is the last one.
pub open spec fn add_then_deref(
    word: spec_fn(usize) -> Option<usize>,
    base: usize,
    offsets: Seq<usize>,
    n: int,
) -> Option<usize>
    decreases n,
{
    if n <= 0 {
        Some(base)
    } else {
        match add_then_deref(word, base, offsets, n - 1) {
            Some(a) => if n == offsets.len() {
                Some(a.wrapping_add(offsets[n - 1]))
            } else {
                word(a.wrapping_add(offsets[n - 1]))
            },
            None => None,
        }
    }
}

proof fn lemma_end_of(
    word: spec_fn(usize) -> Option<usize>,
    base: usize,
    offsets: Seq<usize>,
    n: int,
)
    requires
        0 <= n <= offsets.len(),
    ensures
        match deref_then_add(word, base, offsets, n) {
            Some(a) => end_of(word, Links { addr: base, offsets }) == end_of(
                word,
                Links { addr: a, offsets: offsets.skip(n) },
            ),
            None => end_of(word, Links { addr: base, offsets }) is None,
        },
    decreases n,
{
    if n <= 0 {
        assert(offsets.skip(0) =~= offsets);
    } else {
        lemma_end_of(word, base, offsets, n - 1);
        assert(offsets.skip(n - 1).drop_first() =~= offsets.skip(n));
        assert(offsets.skip(n - 1)[0] == offsets[n - 1]);
    }
}

/// By default a chain dereferences, then adds, for each of its offsets.
pub proof fn law_default_convention(word: spec_fn(usize) -> Option<usize>, c: Chain)
    requires
        !c.offset_first,
    ensures
        end_of(word, c.links()) == deref_then_add(
            word,
            c.base,
            c.offsets,
            c.offsets.len() as int,
        ),
{
    lemma_end_of(word, c.base, c.offsets, c.offsets.len() as int);
}

/// With the offset first a chain adds, then dereferences, for each of its
/// offsets but the last, which is only added.
pub proof fn law_offset_first_convention(word: spec_fn(usize) -> Option<usize>, c: Chain)
    requires
        c.offset_first,
    ensures
        end_of(word, c.links()) == add_then_deref(
            word,
            c.base,
            c.offsets,
            c.offsets.len() as int,
        ),
{
    if c.offsets.len() > 0 {
        let o = c.offsets.drop_first();
        let root = c.base.wrapping_add(c.offsets[0]);
        lemma_end_of(word, root, o, o.len() as int);
        lemma_shifted(word, c, o.len() as int);
    }
}

/// The two conventions, one offset apart.
proof fn lemma_shifted(word: spec_fn(usize) -> Option<usize>, c: Chain, n: int)
    requires
        c.offsets.len() > 0,
        0 <= n < c.offsets.len(),
    ensures
        deref_then_add(word, c.base.wrapping_add(c.offsets[0]), c.offsets.drop_first(), n) == (
        match add_then_deref(word, c.base, c.offsets, n) {
            Some(a) => Some(a.wrapping_add(c.offsets[n])),
            None => None,
        }),
    decreases n,
{
    if n > 0 {
        lemma_shifted(word, c, n - 1);
    } else {
        assert(add_then_deref(word, c.base, c.offsets, 0) == Some(c.base));
    }
}

/// A chain with the offset first is the chain of the default convention whose
/// base has the first offset folded in.
pub proof fn law_conventions_agree(pid: i32, base: usize, first: usize, rest: Seq<usize>)
    ensures
        (Chain { pid, base, offsets: seq![first] + rest, offset_first: true }).links() == (Chain {
            pid,
            base: base.wrapping_add(first),
            offsets: rest,
            offset_first: false,
        }).links(),
{
    assert((seq![first] + rest).drop_first() =~= rest);
}

/// Each step of a resolution leads to the address at the end of the chain: the
/// last one gives it, and any other reads the pointer that the rest depends on.
pub proof fn law_resolution_steps(
    word: spec_fn(usize) -> Option<usize>,
    left: Links,
    r: Step<ReadRequest, Resolve, Result<usize, Error>>,
)
    requires
        goes_on(r, left),
    ensures
        match r {
            Step::Done(Ok(a)) => end_of(word, left) == Some(a),
            Step::Done(Err(_)) => false,
            Step::Do(req, s) => req == s@.request() && end_of(word, left) == (match word(
                req.addr,
            ) {
                Some(p) => end_of(word, s@.follow(p)),
                None => None,
            }),
        },
{
}

/// The pointer that memory `m` holds at an address, the least significant byte
/// first, if all of it is mapped.
pub open spec fn word_at(m: Map<int, u8>, a: usize) -> Option<usize> {
    if memory::mapped(m, a as int, usize::BITS as int / 8) {
        Some(bytes::le_value(memory::peek(m, a as int, usize::BITS as nat / 8)) as usize)
    } else {
        None
    }
}

/// Whether a resolution, with its reads answered by memory `m`, ends within `n`
/// reads and gives `end`, or nothing if a read failed.
pub open spec fn ends_with(
    m: Map<int, u8>,
    r: Step<ReadRequest, Resolve, Result<usize, Error>>,
    n: nat,
    end: Option<usize>,
) -> bool
    decreases n,
{
    match r {
        Step::Done(Ok(a)) => end == Some(a),
        Step::Done(Err(e)) => end is None && e is Unmapped,
        Step::Do(req, s) => n > 0 && exists|
            reply: Result<Vec<u8>, Error>,
            next: Step<ReadRequest, Resolve, Result<usize, Error>>,
        |
            io::answered(m, req, reply) && #[trigger] call_ensures(
                Resolve::resume,
                (s, reply),
                next,
            ) && ends_with(m, next, (n - 1) as nat, end),
    }
}

proof fn lemma_ends_with(
    m: Map<int, u8>,
    r: Step<ReadRequest, Resolve, Result<usize, Error>>,
    left: Links,
    n: nat,
    end: Option<usize>,
)
    requires
        goes_on(r, left),
        ends_with(m, r, n, end),
    ensures
        end == end_of(|a: usize| word_at(m, a), left),
    decreases n,
{
    let word = |a: usize| word_at(m, a);
    if let Step::Do(req, s) = r {
        let (reply, next) = choose|
            reply: Result<Vec<u8>, Error>,
            next: Step<ReadRequest, Resolve, Result<usize, Error>>,
        |
            io::answered(m, req, reply) && #[trigger] call_ensures(
                Resolve::resume,
                (s, reply),
                next,
            ) && ends_with(m, next, (n - 1) as nat, end);
        match reply {
            Ok(b) => {
                let p = bytes::le_value(b@) as usize;
                assert(word(left.addr) == Some(p));
                lemma_ends_with(m, next, left.follow(p), (n - 1) as nat, end);
            },
            Err(_) => {
                assert(word(left.addr) is None);
            },
        }
    }
}

/// By default a chain leads, from its base, to where dereferencing and then adding
/// leads, offset by offset, in the memory that it is resolved in. It leads nowhere
/// if and only if a pointer on the way is not mapped.
pub proof fn law_chain_follows_memory(
    m: Map<int, u8>,
    p: &Pointer<'_>,
    r: Step<ReadRequest, Resolve, Result<usize, Error>>,
    n: nat,
    end: Option<usize>,
)
    requires
        call_ensures(Pointer::resolve, (p,), r),
        ends_with(m, r, n, end),
    ensures
        !p@.offset_first ==> end == deref_then_add(
            |a: usize| word_at(m, a),
            p@.base,
            p@.offsets,
            p@.offsets.len() as int,
        ),
        p@.offset_first ==> end == add_then_deref(
            |a: usize| word_at(m, a),
            p@.base,
            p@.offsets,
            p@.offsets.len() as int,
        ),
{
    let word = |a: usize| word_at(m, a);
    lemma_ends_with(m, r, p@.links(), n, end);
    if p@.offset_first {
        law_offset_first_convention(word, p@);
    } else {
        law_default_convention(word, p@);
    }
}

/// A pointer is read from as many bytes as an address has, at the address that the
/// chain has got to.
pub proof fn law_pointers_are_whole(
    p: &Pointer<'_>,
    req: ReadRequest,
    s: Resolve,
)
    requires
        call_ensures(
            Pointer::resolve,
            (p,),
            Step::<ReadRequest, Resolve, Result<usize, Error>>::Do(req, s),
        ),
    ensures
        req.len * 8 == usize::BITS,
        !p@.offset_first ==> req.addr == p@.base && p@.offsets.len() > 0,
        p@.offset_first ==> p@.offsets.len() > 1 && req.addr == (p@.base + p@.offsets[0]) % (
        usize::MAX + 1),
{
    if p@.offset_first && p@.offsets.len() > 0 {
        bytes::lemma_wraps(p@.base, p@.offsets[0]);
    }
}

/// A chain is built from its base and its offsets in the order in which they are
/// given, one by one or many at a time, and adds them behind the dereference unless
/// it is told otherwise.
pub proof fn law_chain_is_built_in_order(
    proc: &Process,
    base: usize,
    off: usize,
    offs: &[usize],
    p: Pointer<'_>,
    q: Pointer<'_>,
    s: Pointer<'_>,
    t: Pointer<'_>,
)
    requires
        call_ensures(Process::pointer, (proc, base), p),
        call_ensures(Pointer::offset, (p, off), q),
        call_ensures(Pointer::offsets, (q, offs), s),
        call_ensures(Pointer::offset_first, (s,), t),
    ensures
        s@.pid == proc@,
        s@.base == base,
        s@.offsets.len() == offs@.len() + 1,
        s@.offsets[0] == off,
        forall|i: int| 0 <= i < offs@.len() ==> #[trigger] s@.offsets[i + 1] == offs@[i],
        !s@.offset_first,
        t@.base == base,
        t@.offsets == s@.offsets,
        t@.offset_first,
{
}

/// An error of a read ends a resolution, and is what comes of it.
pub proof fn law_errors_end_a_resolution(
    s: Resolve,
    e: Error,
    r: Step<ReadRequest, Resolve, Result<usize, Error>>,
)
    requires
        call_ensures(Resolve::resume, (s, Err::<Vec<u8>, Error>(e)), r),
    ensures
        r == Step::<ReadRequest, Resolve, Result<usize, Error>>::Done(Err(e)),
{
}

} // verus!
