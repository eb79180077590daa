//! Signature scanning of memory, and RIP-relative resolution.
use vstd::prelude::*;

use crate::error::Error;
use crate::io;
use crate::io::ReadRequest;
use crate::maps;
use crate::maps::{MapRegion, Region};
use crate::memory;
use crate::pattern;
use crate::pattern::Pattern;
use crate::process::Process;
use crate::step::Step;

verus! {

/// How many bytes of a region are read at a time.
pub const CHUNK: usize = 0x10_0000;

/// Bytes that were all readable.
pub open spec fn readable(b: Seq<u8>) -> Seq<Option<u8>> {
    b.map_values(|x: u8| Some(x))
}

/// A stretch that was not readable.
pub open spec fn hole(len: int) -> Seq<Option<u8>> {
    Seq::new(len as nat, |i: int| None::<u8>)
}

/// Whether the pattern matches at `i`, all of it on readable bytes. `image`
/// holds the bytes of a stretch of memory, `None` where it is not readable.
pub open spec fn hit(p: Seq<Option<u8>>, image: Seq<Option<u8>>, i: int) -> bool {
    &&& 0 <= i
    &&& i + p.len() <= image.len()
    &&& forall|j: int|
        #![trigger p[j]]
        0 <= j < p.len() ==> image[i + j] is Some && (p[j] is Some ==> image[i + j] == p[j])
}

/// Whether the pattern matches anywhere.
pub open spec fn hits(p: Seq<Option<u8>>, image: Seq<Option<u8>>) -> bool {
    exists|i: int| #[trigger] hit(p, image, i)
}

/// Whether `i` is the first place where the pattern matches.
pub open spec fn first_hit(p: Seq<Option<u8>>, image: Seq<Option<u8>>, i: int) -> bool {
    &&& hit(p, image, i)
    &&& forall|j: int| j < i ==> !#[trigger] hit(p, image, j)
}

/// What is known of a region of `len` bytes after one more reply, if the scan
/// goes on: an unmapped or partly readable chunk is a hole.
pub open spec fn extended(
    image: Seq<Option<u8>>,
    len: int,
    reply: Result<Seq<u8>, Error>,
) -> Option<Seq<Option<u8>>> {
    match reply {
        Ok(b) => Some(image + readable(b)),
        Err(Error::Unmapped { .. }) => Some(image + hole(len)),
        Err(Error::Partial { .. }) => Some(image + hole(len)),
        Err(_) => None,
    }
}

/// The scan of a region as it stands.
#[verifier::ext_equal]
pub struct Sweep {
    /// Start of the region.
    pub start: usize,
    /// End of the region.
    pub end: usize,
    /// What is looked for.
    pub pattern: Seq<Option<u8>>,
    /// What is known of the region, from its start on.
    pub image: Seq<Option<u8>>,
}

impl Sweep {
    /// The chunk to read next.
    pub open spec fn request(self) -> ReadRequest {
        let pos = self.start + self.image.len();
        ReadRequest {
            addr: pos as usize,
            len: if self.end - pos < CHUNK {
                (self.end - pos) as usize
            } else {
                CHUNK
            },
        }
    }

    /// What is known of the region after one more reply, if the scan goes on.
    pub open spec fn after(self, reply: Result<Seq<u8>, Error>) -> Option<Sweep> {
        match extended(self.image, self.request().len as int, reply) {
            Some(image) => Some(Sweep { image, ..self }),
            None => None,
        }
    }

    /// Whether all of the region is known.
    pub open spec fn complete(self) -> bool {
        self.start + self.image.len() >= self.end
    }
}

/// Whether `carry` is what has to be kept of `image` so that a pattern of `plen`
/// bytes that starts in it is not missed.
spec fn kept(image: Seq<Option<u8>>, plen: int, carry: Seq<u8>) -> bool {
    let at = image.len() - carry.len();
    &&& at >= 0
    &&& carry.len() < plen
    &&& image.skip(at) == readable(carry)
    &&& carry.len() == plen - 1 || at == 0 || image[at - 1] is None
}

/// A walk over a region in chunks, which carries over the trailing bytes of the
/// previous chunk so that a match that straddles a chunk boundary is seen whole.
struct Walk<'p> {
    pattern: &'p Pattern,
    start: usize,
    end: usize,
    pos: usize,
    carry: Vec<u8>,
    image: Ghost<Seq<Option<u8>>>,
}

/// The bytes in which a match that was not seen before can lie, and where they
/// start.
struct Window {
    base: usize,
    bytes: Vec<u8>,
}

impl<'p> Walk<'p> {
    spec fn sweep(self) -> Sweep {
        Sweep {
            start: self.start,
            end: self.end,
            pattern: self.pattern@,
            image: self.image@,
        }
    }

    spec fn wf(self) -> bool {
        &&& self.pattern@.len() > 0
        &&& self.start <= self.pos <= self.end
        &&& self.image@.len() == self.pos - self.start
        &&& kept(self.image@, self.pattern@.len() as int, self.carry@)
    }

    fn request(&self) -> (r: ReadRequest)
        requires
            self.wf(),
        ensures
            r == self.sweep().request(),
    {
        let left: usize = self.end - self.pos;
        ReadRequest {
            addr: self.pos,
            len: if left < CHUNK {
                left
            } else {
                CHUNK
            },
        }
    }

    /// Take in the reply to a request. The window shows each place of the
    /// pattern that was not in sight before.
    fn absorb(self, reply: Result<Vec<u8>, Error>) -> (r: Result<(Walk<'p>, Window), Error>)
        requires
            self.wf(),
            self.pos < self.end,
            reply matches Ok(b) ==> b@.len() == self.sweep().request().len,
        ensures
            match self.sweep().after(io::bytes_read(reply)) {
                None => reply matches Err(e) && r == Err::<(Walk<'p>, Window), Error>(e),
                Some(next) => {
                    &&& r matches Ok((walk, window))
                    &&& walk.wf()
                    &&& walk.sweep() == next
                    &&& walk.pattern == self.pattern
                    &&& window.base + window.bytes@.len() <= walk.end
                    &&& self.start <= window.base
                    &&& forall|i: int| #[trigger]
                        hit(self.pattern@, next.image, i) <==> hit(self.pattern@, self.image@, i) || (
                        i + self.pattern@.len() > self.image@.len() && pattern::matches(
                            self.pattern@,
                            window.bytes@,
                            i - (window.base - self.start),
                        ))
                    &&& forall|o: int| #[trigger]
                        pattern::matches(self.pattern@, window.bytes@, o) ==> o + (window.base
                            - self.start) + self.pattern@.len() > self.image@.len()
                },
            },
    {
        let req = self.request();
        let ghost old_image = self.image@;
        let ghost p = self.pattern@;
        let plen: usize = self.pattern.len();
        match reply {
            Ok(buf) => {
                let ghost b = buf@;
                let Walk { pattern, start, end, pos, carry, image } = self;
                let ghost old_carry = carry@;
                proof {
                    lemma_window(p, old_image, old_carry, b);
                }
                assert(carry@.len() <= old_image.len());
                let base: usize = pos - carry.len();
                let mut bytes = carry;
                let mut buf = buf;
                bytes.append(&mut buf);
                assert(bytes@ =~= old_carry + b);
                let ghost new_image = old_image + readable(b);
                let keep: usize = if plen - 1 < bytes.len() {
                    plen - 1
                } else {
                    bytes.len()
                };
                let carry: Vec<u8> = tail_of(&bytes, bytes.len() - keep);
                proof {
                    lemma_kept(p.len() as int, old_image, old_carry, b, carry@);
                }
                let walk = Walk {
                    pattern,
                    start,
                    end,
                    pos: pos + req.len,
                    carry,
                    image: Ghost(new_image),
                };
                Ok((walk, Window { base, bytes }))
            },
            Err(Error::Unmapped { .. }) | Err(Error::Partial { .. }) => {
                let Walk { pattern, start, end, pos, carry, image } = self;
                let ghost new_image = old_image + hole(req.len as int);
                proof {
                    assert(new_image.skip(new_image.len() as int) =~= readable(Seq::<u8>::empty()));
                    lemma_hole(p, old_image, req.len as int);
                }
                let walk = Walk {
                    pattern,
                    start,
                    end,
                    pos: pos + req.len,
                    carry: Vec::new(),
                    image: Ghost(new_image),
                };
                Ok((walk, Window { base: pos, bytes: Vec::new() }))
            },
            Err(e) => Err(e),
        }
    }
}

/// The bytes of `v` from `from` on.
fn tail_of(v: &Vec<u8>, from: usize) -> (r: Vec<u8>)
    requires
        from <= v@.len(),
    ensures
        r@ == v@.skip(from as int),
{
    let s = vstd::slice::slice_subrange(v.as_slice(), from, v.len());
    assert(s@ =~= v@.skip(from as int));
    io::copy_of(s)
}

/// Behind a hole of at least one byte nothing new is in sight.
proof fn lemma_hole(p: Seq<Option<u8>>, image: Seq<Option<u8>>, len: int)
    requires
        p.len() > 0,
        len > 0,
    ensures
        forall|i: int| #[trigger] hit(p, image + hole(len), i) <==> hit(p, image, i),
{
    let next = image + hole(len);
    assert forall|i: int| #[trigger] hit(p, next, i) <==> hit(p, image, i) by {
        if hit(p, next, i) {
            if i + p.len() > image.len() {
                let j = if i < image.len() {
                    image.len() - i
                } else {
                    0
                };
                assert(p[j] == p[j]);
                assert(next[i + j] is None);
            }
            assert forall|x: int| 0 <= x < image.len() implies #[trigger] next[x] == image[x] by {}
        }
        if hit(p, image, i) {
            assert forall|x: int| 0 <= x < image.len() implies #[trigger] next[x] == image[x] by {}
        }
    }
}

/// What is in sight behind a readable chunk is what was in sight before, and
/// what lies in the carried bytes and the chunk together.
proof fn lemma_window(p: Seq<Option<u8>>, image: Seq<Option<u8>>, carry: Seq<u8>, b: Seq<u8>)
    requires
        p.len() > 0,
        kept(image, p.len() as int, carry),
    ensures
        forall|i: int| #[trigger]
            hit(p, image + readable(b), i) <==> hit(p, image, i) || (i + p.len() > image.len()
                && pattern::matches(p, carry + b, i - (image.len() - carry.len()))),
        forall|o: int| #[trigger]
            pattern::matches(p, carry + b, o) ==> o + (image.len() - carry.len()) + p.len()
                > image.len(),
{
    let next = image + readable(b);
    let w = carry + b;
    let at = image.len() - carry.len();
    assert forall|k: int| 0 <= k < w.len() implies next[at + k] == Some(#[trigger] w[k]) by {
        if k < carry.len() {
            assert(image.skip(at)[k] == readable(carry)[k]);
        }
    }
    assert forall|i: int| #[trigger] hit(p, next, i) <==> hit(p, image, i) || (i + p.len()
        > image.len() && pattern::matches(p, w, i - at)) by {
        if i + p.len() <= image.len() {
            if 0 <= i {
                assert forall|x: int| 0 <= x < image.len() implies #[trigger] next[x] == image[x] by {}
            }
        } else {
            if hit(p, next, i) {
                if i < at {
                    let j = at - 1 - i;
                    assert(0 <= j < p.len());
                    assert(p[j] == p[j]);
                    assert(next[i + j] == image[at - 1]);
                }
                assert forall|j: int|
                    #![trigger p[j]]
                    0 <= j < p.len() implies (p[j] matches Some(x) ==> w[i - at + j] == x) by {
                    assert(next[at + (i - at + j)] == Some(w[i - at + j]));
                }
            }
            if pattern::matches(p, w, i - at) {
                assert forall|j: int|
                    #![trigger p[j]]
                    0 <= j < p.len() implies next[i + j] is Some && (p[j] is Some ==> next[i + j]
                    == p[j]) by {
                    assert(next[at + (i - at + j)] == Some(w[i - at + j]));
                }
            }
        }
    }
}

/// The last bytes of the window are what has to be kept.
proof fn lemma_kept(plen: int, image: Seq<Option<u8>>, carry: Seq<u8>, b: Seq<u8>, next: Seq<u8>)
    requires
        plen > 0,
        kept(image, plen, carry),
        next == (carry + b).skip(
            if plen - 1 < carry.len() + b.len() {
                carry.len() + b.len() - (plen - 1)
            } else {
                0
            },
        ),
    ensures
        kept(image + readable(b), plen, next),
{
    let w = carry + b;
    let new_image = image + readable(b);
    let at = image.len() - carry.len();
    let k = new_image.len() - next.len();
    assert forall|i: int| 0 <= i < next.len() implies new_image.skip(k)[i] == #[trigger] readable(
        next,
    )[i] by {
        let x = w.len() - next.len() + i;
        assert(next[i] == w[x]);
        if x < carry.len() {
            assert(image.skip(at)[x] == readable(carry)[x]);
        }
    }
    assert(new_image.skip(k) =~= readable(next));
}

/// The scan of a region for the first match.
pub struct RegionScan<'p> {
    walk: Walk<'p>,
}

impl<'p> View for RegionScan<'p> {
    type V = Sweep;

    closed spec fn view(&self) -> Sweep {
        self.walk.sweep()
    }
}

/// Whether the scan for the first match goes on as it has to once it stands as
/// `s` does: it stops with the first match as soon as one is in sight.
pub open spec fn goes_on(
    r: Step<ReadRequest, RegionScan<'_>, Result<Option<usize>, Error>>,
    s: Sweep,
) -> bool {
    if hits(s.pattern, s.image) {
        &&& r matches Step::Done(Ok(Some(a)))
        &&& first_hit(s.pattern, s.image, a - s.start)
    } else if s.complete() {
        r == Step::<ReadRequest, RegionScan<'_>, Result<Option<usize>, Error>>::Done(Ok(None))
    } else {
        &&& r matches Step::Do(req, scan)
        &&& scan@ == s
        &&& req == s.request()
    }
}

impl<'p> RegionScan<'p> {
    #[verifier::type_invariant]
    spec fn inv(self) -> bool {
        &&& self.walk.wf()
        &&& self.walk.pos < self.walk.end
        &&& !hits(self.walk.pattern@, self.walk.image@)
    }

    /// Go on with what the read of the chunk gave.
    ///
    /// # Errors
    /// [`Error::Permission`] or [`Error::Io`] from the reads (an
    /// [`Error::Unmapped`] or [`Error::Partial`] on a sub-range is treated as a
    /// hole and skipped, not an error).
    pub fn resume(self, reply: Result<Vec<u8>, Error>) -> (r: Step<
        ReadRequest,
        RegionScan<'p>,
        Result<Option<usize>, Error>,
    >)
        requires
            reply matches Ok(b) ==> b@.len() == self@.request().len,
        ensures
            match self@.after(io::bytes_read(reply)) {
                None => reply matches Err(e) && r == Step::<
                    ReadRequest,
                    RegionScan<'p>,
                    Result<Option<usize>, Error>,
                >::Done(Err(e)),
                Some(next) => goes_on(r, next),
            },
    {
        proof {
            use_type_invariant(&self);
        }
        let RegionScan { walk } = self;
        let ghost old_walk = walk;
        match walk.absorb(reply) {
            Err(e) => Step::Done(Err(e)),
            Ok((walk, window)) => {
                let ghost next = walk.sweep();
                let ghost p = next.pattern;
                let ghost shift = window.base - old_walk.start;
                match walk.pattern.first_match(window.bytes.as_slice()) {
                    Some(off) => {
                        proof {
                            assert(hit(p, next.image, off + shift));
                            assert forall|j: int| j < off + shift implies !#[trigger] hit(
                                p,
                                next.image,
                                j,
                            ) by {
                                assert(!hit(p, old_walk.image@, j));
                                if hit(p, next.image, j) {
                                    assert(pattern::matches(p, window.bytes@, j - shift));
                                }
                            }
                        }
                        assert(window.base + off <= walk.end);
                        Step::Done(Ok(Some(window.base + off)))
                    },
                    None => {
                        assert forall|j: int| !#[trigger] hit(p, next.image, j) by {
                            assert(!hit(p, old_walk.image@, j));
                            assert(!pattern::matches(p, window.bytes@, j - shift));
                        }
                        if walk.pos >= walk.end {
                            return Step::Done(Ok(None));
                        }
                        let req = walk.request();
                        Step::Do(req, RegionScan { walk })
                    },
                }
            },
        }
    }
}

/// Whether `v` lists each address at which the pattern matches, ascending.
/// `image` is what is known of memory from `start` on.
pub open spec fn lists_hits(
    p: Seq<Option<u8>>,
    image: Seq<Option<u8>>,
    start: usize,
    v: Seq<usize>,
) -> bool {
    &&& pattern::ascending(v)
    &&& forall|a: usize| #[trigger] v.contains(a) <==> hit(p, image, a - start)
}

/// The scan of a region for all matches.
pub struct RegionScanAll<'p> {
    walk: Walk<'p>,
    found: Vec<usize>,
}

impl<'p> View for RegionScanAll<'p> {
    type V = Sweep;

    closed spec fn view(&self) -> Sweep {
        self.walk.sweep()
    }
}

/// The addresses of the matches in the window go behind those found before.
proof fn lemma_more_hits(
    p: Seq<Option<u8>>,
    old_image: Seq<Option<u8>>,
    image: Seq<Option<u8>>,
    start: usize,
    end: int,
    before: Seq<usize>,
    w: Seq<u8>,
    base: usize,
    offs: Seq<usize>,
    after: Seq<usize>,
)
    requires
        p.len() > 0,
        start <= base,
        base + w.len() <= end <= usize::MAX,
        lists_hits(p, old_image, start, before),
        forall|i: int| #[trigger]
            hit(p, image, i) <==> hit(p, old_image, i) || (i + p.len() > old_image.len()
                && pattern::matches(p, w, i - (base - start))),
        forall|o: int| #[trigger]
            pattern::matches(p, w, o) ==> o + (base - start) + p.len() > old_image.len(),
        pattern::ascending(offs),
        forall|i: usize| offs.contains(i) <==> #[trigger] pattern::matches(p, w, i as int),
        after.len() == before.len() + offs.len(),
        forall|k: int| 0 <= k < before.len() ==> #[trigger] after[k] == before[k],
        forall|k: int|
            before.len() <= k < after.len() ==> #[trigger] after[k] == base + offs[k - before.len()],
    ensures
        lists_hits(p, image, start, after),
{
    let n = before.len() as int;
    assert forall|i: int, j: int| 0 <= i < j < after.len() implies after[i] < after[j] by {
        if i < n && j >= n {
            assert(before.contains(before[i]));
            assert(offs.contains(offs[j - n]));
            assert(pattern::matches(p, w, offs[j - n] as int));
        } else if i >= n {
            assert(offs[i - n] < offs[j - n]);
        }
    }
    assert forall|a: usize| #[trigger] after.contains(a) <==> hit(p, image, a - start) by {
        if after.contains(a) {
            let k = after.index_of(a);
            if k < n {
                assert(before.contains(a)) by {
                    assert(before[k] == a);
                }
            } else {
                assert(offs.contains(offs[k - n]));
                assert(pattern::matches(p, w, offs[k - n] as int));
                assert(pattern::matches(p, w, (a - start) - (base - start)));
            }
        }
        if hit(p, image, a - start) {
            if hit(p, old_image, a - start) {
                assert(before.contains(a));
                let k = before.index_of(a);
                assert(after[k] == a);
            } else {
                let o = a - base;
                assert(pattern::matches(p, w, o));
                assert(offs.contains(o as usize));
                let k = offs.index_of(o as usize);
                assert(after[n + k] == a);
            }
        }
    }
}

/// Whether the scan for all matches goes on as it has to once it stands as `s`
/// does.
pub open spec fn goes_on_with_all(
    r: Step<ReadRequest, RegionScanAll<'_>, Result<Vec<usize>, Error>>,
    s: Sweep,
) -> bool {
    if s.complete() {
        &&& r matches Step::Done(Ok(v))
        &&& lists_hits(s.pattern, s.image, s.start, v@)
    } else {
        &&& r matches Step::Do(req, scan)
        &&& scan@ == s
        &&& req == s.request()
    }
}

impl<'p> RegionScanAll<'p> {
    #[verifier::type_invariant]
    spec fn inv(self) -> bool {
        &&& self.walk.wf()
        &&& self.walk.pos < self.walk.end
        &&& lists_hits(self.walk.pattern@, self.walk.image@, self.walk.start, self.found@)
    }

    /// Go on with what the read of the chunk gave.
    ///
    /// # Errors
    /// As [`RegionScan::resume`].
    pub fn resume(self, reply: Result<Vec<u8>, Error>) -> (r: Step<
        ReadRequest,
        RegionScanAll<'p>,
        Result<Vec<usize>, Error>,
    >)
        requires
            reply matches Ok(b) ==> b@.len() == self@.request().len,
        ensures
            match self@.after(io::bytes_read(reply)) {
                None => reply matches Err(e) && r == Step::<
                    ReadRequest,
                    RegionScanAll<'p>,
                    Result<Vec<usize>, Error>,
                >::Done(Err(e)),
                Some(next) => goes_on_with_all(r, next),
            },
    {
        proof {
            use_type_invariant(&self);
        }
        let RegionScanAll { walk, found } = self;
        let mut found = found;
        let ghost old_walk = walk;
        let ghost before = found@;
        match walk.absorb(reply) {
            Err(e) => Step::Done(Err(e)),
            Ok((walk, window)) => {
                let ghost p = walk.pattern@;
                assert(old_walk.sweep().after(io::bytes_read(reply)) == Some(walk.sweep()));
                assert(walk.sweep().start == walk.start && walk.sweep().image == walk.image@);
                assert(walk.start == old_walk.start);
                let offs: Vec<usize> = walk.pattern.all_matches(window.bytes.as_slice());
                let mut i: usize = 0;
                while i < offs.len()
                    invariant
                        i <= offs@.len(),
                        p.len() > 0,
                        window.base + window.bytes@.len() <= walk.end,
                        found@.len() == before.len() + i,
                        forall|k: usize|
                            offs@.contains(k) <==> p.len() > 0 && #[trigger] pattern::matches(
                                p,
                                window.bytes@,
                                k as int,
                            ),
                        forall|k: int| 0 <= k < before.len() ==> #[trigger] found@[k] == before[k],
                        forall|k: int|
                            before.len() <= k < found@.len() ==> #[trigger] found@[k] == window.base
                                + offs@[k - before.len()],
                    decreases offs.len() - i,
                {
                    assert(offs@.contains(offs@[i as int]));
                    assert(pattern::matches(p, window.bytes@, offs@[i as int] as int));
                    found.push(window.base + offs[i]);
                    i = i + 1;
                }
                proof {
                    lemma_more_hits(
                        p,
                        old_walk.image@,
                        walk.image@,
                        walk.start,
                        walk.end as int,
                        before,
                        window.bytes@,
                        window.base,
                        offs@,
                        found@,
                    );
                }
                if walk.pos >= walk.end {
                    return Step::Done(Ok(found));
                }
                let req = walk.request();
                Step::Do(req, RegionScanAll { walk, found })
            },
        }
    }
}

impl Process {
    /// Scan a single readable region for `pattern`; gives the absolute address
    /// of the first match.
    ///
    /// Reads in 1 MiB chunks with overlap, so matches straddling chunk
    /// boundaries are still found. Sub-page holes inside an `r` region are
    /// skipped. A non-readable or empty input yields `Ok(None)`.
    pub fn scan_region<'p>(&self, region: &MapRegion, pattern: &'p Pattern) -> (r: Step<
        ReadRequest,
        RegionScan<'p>,
        Result<Option<usize>, Error>,
    >)
        ensures
            if !region@.readable() || pattern@.len() == 0 || region@.start >= region@.end {
                r == Step::<ReadRequest, RegionScan<'p>, Result<Option<usize>, Error>>::Done(
                    Ok(None),
                )
            } else {
                &&& r matches Step::Do(req, scan)
                &&& scan@ == (Sweep {
                    start: region@.start,
                    end: region@.end,
                    pattern: pattern@,
                    image: Seq::empty(),
                })
                &&& req == scan@.request()
            },
    {
        if !region.readable() || pattern.is_empty() || region.start >= region.end {
            return Step::Done(Ok(None));
        }
        let walk = new_walk(region.start, region.end, pattern);
        let req = walk.request();
        proof {
            lemma_nothing_in_nothing(pattern@);
        }
        Step::Do(req, RegionScan { walk })
    }

    /// Collect every match of `pattern` within a region (deduplicated and
    /// ascending). Boundary-straddling matches are found via chunk overlap.
    pub fn scan_region_all<'p>(&self, region: &MapRegion, pattern: &'p Pattern) -> (r: Step<
        ReadRequest,
        RegionScanAll<'p>,
        Result<Vec<usize>, Error>,
    >)
        ensures
            if !region@.readable() || pattern@.len() == 0 || region@.start >= region@.end {
                r matches Step::Done(Ok(v)) && v@.len() == 0
            } else {
                &&& r matches Step::Do(req, scan)
                &&& scan@ == (Sweep {
                    start: region@.start,
                    end: region@.end,
                    pattern: pattern@,
                    image: Seq::empty(),
                })
                &&& req == scan@.request()
            },
    {
        if !region.readable() || pattern.is_empty() || region.start >= region.end {
            return Step::Done(Ok(Vec::new()));
        }
        let walk = new_walk(region.start, region.end, pattern);
        let req = walk.request();
        proof {
            lemma_nothing_in_nothing(pattern@);
        }
        let found: Vec<usize> = Vec::new();
        assert(lists_hits(pattern@, Seq::empty(), region.start, found@));
        Step::Do(req, RegionScanAll { walk, found })
    }
}

proof fn lemma_nothing_in_nothing(p: Seq<Option<u8>>)
    requires
        p.len() > 0,
    ensures
        forall|i: int| !#[trigger] hit(p, Seq::empty(), i),
{
}

fn new_walk<'p>(start: usize, end: usize, pattern: &'p Pattern) -> (r: Walk<'p>)
    requires
        start < end,
        pattern@.len() > 0,
    ensures
        r.wf(),
        r.pos < r.end,
        r.sweep() == (Sweep { start, end, pattern: pattern@, image: Seq::empty() }),
{
    assert(Seq::<Option<u8>>::empty().skip(0) =~= readable(Seq::<u8>::empty()));
    Walk {
        pattern,
        start,
        end,
        pos: start,
        carry: Vec::new(),
        image: Ghost(Seq::empty()),
    }
}

/// Whatever is read later, the first match in what is known stays the first.
pub proof fn law_first_hit_is_final(
    p: Seq<Option<u8>>,
    image: Seq<Option<u8>>,
    rest: Seq<Option<u8>>,
    i: int,
)
    requires
        first_hit(p, image, i),
    ensures
        first_hit(p, image + rest, i),
{
    let all = image + rest;
    assert forall|j: int| j <= i implies hit(p, all, j) == #[trigger] hit(p, image, j) by {
        assert forall|x: int| 0 <= x < image.len() implies #[trigger] all[x] == image[x] by {}
    }
    assert forall|j: int| j < i implies !#[trigger] hit(p, all, j) by {
        assert(!hit(p, image, j));
    }
    assert(hit(p, image, i));
}

/// The first match of a region is the lowest of all its matches, and there is
/// one if and only if there are any.
pub proof fn law_first_of_all_hits(
    p: Seq<Option<u8>>,
    image: Seq<Option<u8>>,
    start: usize,
    v: Seq<usize>,
)
    requires
        p.len() > 0,
        start + image.len() <= usize::MAX,
        lists_hits(p, image, start, v),
    ensures
        hits(p, image) <==> v.len() > 0,
        v.len() > 0 ==> first_hit(p, image, v[0] - start),
{
    if hits(p, image) {
        let i = choose|i: int| #[trigger] hit(p, image, i);
        assert(v.contains((start + i) as usize));
    }
    if v.len() > 0 {
        assert(v.contains(v[0]));
        assert forall|j: int| j < v[0] - start implies !#[trigger] hit(p, image, j) by {
            if hit(p, image, j) {
                let a = (start + j) as usize;
                assert(v.contains(a));
                let k = v.index_of(a);
                if k > 0 {
                    assert(v[0] < v[k]);
                }
            }
        }
    }
}

/// The sweep of a region once its next chunk is read from `m`.
pub open spec fn next_sweep(m: Map<int, u8>, s: Sweep) -> Sweep {
    s.after(s.request().on(m))->0
}

proof fn lemma_next_sweep(m: Map<int, u8>, s: Sweep)
    requires
        !s.complete(),
    ensures
        next_sweep(m, s).image.len() == s.image.len() + s.request().len,
        next_sweep(m, s).image.take(s.image.len() as int) == s.image,
        next_sweep(m, s) == (Sweep { image: next_sweep(m, s).image, ..s }),
        s.request().len > 0,
        s.start + next_sweep(m, s).image.len() <= s.end,
{
    let n = next_sweep(m, s);
    assert(n.image.take(s.image.len() as int) =~= s.image);
}

/// What the sweep of a region knows in the end if its chunks are read from `m`.
pub open spec fn swept(m: Map<int, u8>, s: Sweep) -> Sweep
    decreases s.end - s.start - s.image.len(),
    via swept_ends
{
    if s.complete() {
        s
    } else {
        swept(m, next_sweep(m, s))
    }
}

#[via_fn]
proof fn swept_ends(m: Map<int, u8>, s: Sweep) {
    if !s.complete() {
        lemma_next_sweep(m, s);
    }
}

/// A sweep over memory that is mapped throughout sees all of it: no chunk
/// boundary hides anything.
pub proof fn law_sweep_sees_mapped_memory(m: Map<int, u8>, s: Sweep)
    requires
        s.start <= s.end,
        s.image.len() == 0,
        memory::mapped(m, s.start as int, s.end - s.start),
    ensures
        swept(m, s) == (Sweep {
            image: readable(memory::peek(m, s.start as int, (s.end - s.start) as nat)),
            ..s
        }),
{
    assert(s.image =~= readable(memory::peek(m, s.start as int, 0)));
    lemma_swept(m, s);
}

proof fn lemma_swept(m: Map<int, u8>, s: Sweep)
    requires
        s.start + s.image.len() <= s.end,
        s.image == readable(memory::peek(m, s.start as int, s.image.len())),
        memory::mapped(m, s.start as int, s.end - s.start),
    ensures
        swept(m, s) == (Sweep {
            image: readable(memory::peek(m, s.start as int, (s.end - s.start) as nat)),
            ..s
        }),
    decreases s.end - s.start - s.image.len(),
{
    if !s.complete() {
        lemma_next_sweep(m, s);
        let req = s.request();
        assert(memory::mapped(m, req.addr as int, req.len as int));
        let next = next_sweep(m, s);
        assert(next.image =~= readable(memory::peek(m, s.start as int, next.image.len())));
        lemma_swept(m, next);
    }
}

/// What is known at one point of a sweep stays known.
proof fn lemma_swept_extends(m: Map<int, u8>, s: Sweep)
    requires
        s.start + s.image.len() <= s.end,
    ensures
        swept(m, s).image.len() == s.end - s.start,
        swept(m, s).image.take(s.image.len() as int) == s.image,
        swept(m, s).pattern == s.pattern,
        swept(m, s).start == s.start,
    decreases s.end - s.start - s.image.len(),
{
    if !s.complete() {
        lemma_next_sweep(m, s);
        let n = next_sweep(m, s);
        lemma_swept_extends(m, n);
        assert(swept(m, s).image.take(s.image.len() as int) =~= swept(m, n).image.take(
            n.image.len() as int,
        ).take(s.image.len() as int));
    } else {
        assert(s.image.take(s.image.len() as int) =~= s.image);
    }
}

/// Where the scan of a region for the first match stops if its chunks are read
/// from `m`: as soon as a match is in sight, or at the end.
pub open spec fn stopped(m: Map<int, u8>, s: Sweep) -> Sweep
    decreases s.end - s.start - s.image.len(),
    via stopped_ends
{
    if s.complete() || hits(s.pattern, s.image) {
        s
    } else {
        stopped(m, next_sweep(m, s))
    }
}

#[via_fn]
proof fn stopped_ends(m: Map<int, u8>, s: Sweep) {
    if !s.complete() {
        lemma_next_sweep(m, s);
    }
}

/// The scan of a region for the first match may stop early, and still finds the
/// first match of the whole region; it goes to the end without a match if and
/// only if there is none.
pub proof fn law_scan_finds_the_first_match(m: Map<int, u8>, s: Sweep, i: int)
    requires
        s.start + s.image.len() <= s.end,
    ensures
        hits(s.pattern, stopped(m, s).image) <==> hits(s.pattern, swept(m, s).image),
        first_hit(s.pattern, stopped(m, s).image, i) ==> first_hit(
            s.pattern,
            swept(m, s).image,
            i,
        ),
    decreases s.end - s.start - s.image.len(),
{
    if s.complete() {
    } else if hits(s.pattern, s.image) {
        lemma_swept_extends(m, s);
        let full = swept(m, s).image;
        let rest = full.skip(s.image.len() as int);
        assert(full =~= s.image + rest);
        if first_hit(s.pattern, s.image, i) {
            law_first_hit_is_final(s.pattern, s.image, rest, i);
        }
        let j = choose|j: int| #[trigger] hit(s.pattern, s.image, j);
        assert(hit(s.pattern, full, j)) by {
            assert forall|x: int| 0 <= x < s.image.len() implies #[trigger] full[x]
                == s.image[x] by {}
        }
    } else {
        lemma_next_sweep(m, s);
        law_scan_finds_the_first_match(m, next_sweep(m, s), i);
    }
}

/// In memory that is mapped throughout, the matches that a sweep sees are those
/// of its bytes.
pub proof fn law_mapped_hits_are_matches(p: Seq<Option<u8>>, b: Seq<u8>, i: int)
    ensures
        hit(p, readable(b), i) == pattern::matches(p, b, i),
{
    let image = readable(b);
    assert forall|x: int| 0 <= x < b.len() implies #[trigger] image[x] == Some(b[x]) by {}
    if pattern::matches(p, b, i) {
        assert forall|j: int|
            #![trigger p[j]]
            0 <= j < p.len() implies image[i + j] is Some && (p[j] is Some ==> image[i + j]
            == p[j]) by {
            assert(image[i + j] == Some(b[i + j]));
        }
    }
    if hit(p, image, i) {
        assert forall|j: int|
            #![trigger p[j]]
            0 <= j < p.len() implies (p[j] matches Some(x) ==> b[i + j] == x) by {
            assert(image[i + j] == Some(b[i + j]));
        }
    }
}

/// Whether a region is read at all when the pattern is looked for in it.
pub open spec fn scannable(p: Seq<Option<u8>>, r: Region) -> bool {
    r.readable() && p.len() > 0 && r.start < r.end
}

/// The scan of a region as it starts.
pub open spec fn sweep_of(p: Seq<Option<u8>>, r: Region) -> Sweep {
    Sweep { start: r.start, end: r.end, pattern: p, image: Seq::empty() }
}

/// The addresses at which the pattern matches in a region of memory `m`.
pub open spec fn region_hits(m: Map<int, u8>, p: Seq<Option<u8>>, r: Region) -> Set<usize> {
    Set::new(|a: usize| scannable(p, r) && hit(p, swept(m, sweep_of(p, r)).image, a - r.start))
}

/// The address at which the scan of a region of memory `m` for the first match
/// stops, if it finds one.
pub open spec fn region_first(m: Map<int, u8>, p: Seq<Option<u8>>, r: Region) -> Option<usize> {
    let image = stopped(m, sweep_of(p, r)).image;
    if scannable(p, r) && hits(p, image) {
        Some((r.start + choose|i: int| first_hit(p, image, i)) as usize)
    } else {
        None
    }
}

/// Where there is a match, there is a first one.
proof fn lemma_first_exists(p: Seq<Option<u8>>, image: Seq<Option<u8>>, i: int)
    requires
        hit(p, image, i),
    ensures
        exists|j: int| first_hit(p, image, j),
    decreases i,
{
    if exists|k: int| k < i && #[trigger] hit(p, image, k) {
        let k = choose|k: int| k < i && #[trigger] hit(p, image, k);
        lemma_first_exists(p, image, k);
    } else {
        assert(first_hit(p, image, i));
    }
}

/// The scan of a region for the first match gives the lowest of all its matches,
/// and nothing only if there are none. All matches lie in the region.
pub proof fn law_region_first_is_lowest(m: Map<int, u8>, p: Seq<Option<u8>>, r: Region)
    ensures
        match region_first(m, p, r) {
            Some(a) => region_hits(m, p, r).contains(a) && forall|b: usize| #[trigger]
                region_hits(m, p, r).contains(b) ==> a <= b,
            None => forall|b: usize| !#[trigger] region_hits(m, p, r).contains(b),
        },
        forall|b: usize| #[trigger]
            region_hits(m, p, r).contains(b) ==> r.start <= b && b < r.end,
{
    if scannable(p, r) {
        let s = sweep_of(p, r);
        let early = stopped(m, s).image;
        let full = swept(m, s).image;
        lemma_swept_extends(m, s);
        law_scan_finds_the_first_match(m, s, 0);
        assert forall|b: usize| #[trigger] region_hits(m, p, r).contains(b) implies r.start <= b
            && b < r.end && hits(p, full) by {
            assert(hit(p, full, b - r.start));
        }
        if hits(p, early) {
            let j = choose|j: int| #[trigger] hit(p, early, j);
            lemma_first_exists(p, early, j);
            let i = choose|i: int| first_hit(p, early, i);
            law_scan_finds_the_first_match(m, s, i);
            assert(first_hit(p, full, i));
            assert((r.start + i) as usize == r.start + i);
        }
    }
}

/// Each step of the scan for the first match on memory `m` leads to where that
/// scan stops: the next one keeps it, and the last one gives the first match
/// there, if there is one.
pub proof fn law_first_scan_steps(
    m: Map<int, u8>,
    s: Sweep,
    r: Step<ReadRequest, RegionScan<'_>, Result<Option<usize>, Error>>,
)
    requires
        !s.complete(),
        !hits(s.pattern, s.image),
        goes_on(r, next_sweep(m, s)),
    ensures
        s.after(s.request().on(m)) == Some(next_sweep(m, s)),
        match r {
            Step::Do(req, scan) => req == scan@.request() && stopped(m, s) == stopped(m, scan@),
            Step::Done(Ok(Some(a))) => first_hit(
                s.pattern,
                stopped(m, s).image,
                a - s.start,
            ),
            Step::Done(Ok(None)) => !hits(s.pattern, stopped(m, s).image),
            Step::Done(Err(_)) => false,
        },
{
    lemma_next_sweep(m, s);
    let next = next_sweep(m, s);
    assert(stopped(m, s) == stopped(m, next));
}

/// Each step of the scan for all matches on memory `m` leads to what the sweep
/// knows in the end: the next one keeps it, and the last one lists the matches
/// there.
pub proof fn law_all_scan_steps(
    m: Map<int, u8>,
    s: Sweep,
    r: Step<ReadRequest, RegionScanAll<'_>, Result<Vec<usize>, Error>>,
)
    requires
        !s.complete(),
        goes_on_with_all(r, next_sweep(m, s)),
    ensures
        s.after(s.request().on(m)) == Some(next_sweep(m, s)),
        match r {
            Step::Do(req, scan) => req == scan@.request() && swept(m, s) == swept(m, scan@),
            Step::Done(Ok(v)) => lists_hits(s.pattern, swept(m, s).image, s.start, v@),
            Step::Done(Err(_)) => false,
        },
{
    lemma_next_sweep(m, s);
    let next = next_sweep(m, s);
    assert(swept(m, s) == swept(m, next));
}

/// What the scans of a region give in the end are its first match and the set of
/// its matches.
pub proof fn law_region_scan_results(
    m: Map<int, u8>,
    p: Seq<Option<u8>>,
    r: Region,
    a: usize,
    v: Seq<usize>,
)
    requires
        scannable(p, r),
    ensures
        first_hit(p, stopped(m, sweep_of(p, r)).image, a - r.start) ==> region_first(m, p, r)
            == Some(a),
        !hits(p, stopped(m, sweep_of(p, r)).image) ==> region_first(m, p, r) is None,
        lists_hits(p, swept(m, sweep_of(p, r)).image, r.start, v) ==> v.to_set() == region_hits(
            m,
            p,
            r,
        ),
{
    let image = stopped(m, sweep_of(p, r)).image;
    if first_hit(p, image, a - r.start) {
        assert(hit(p, image, a - r.start));
        let i = choose|i: int| first_hit(p, image, i);
        assert(i == a - r.start);
    }
    if lists_hits(p, swept(m, sweep_of(p, r)).image, r.start, v) {
        assert forall|b: usize| v.to_set().contains(b) <==> region_hits(m, p, r).contains(b) by {
            assert(v.contains(b) <==> v.to_set().contains(b));
        }
        assert(v.to_set() =~= region_hits(m, p, r));
    }
}

/// Whether the pattern matches memory at `a`: every byte of the range is mapped,
/// and equal to the pattern's where that has one.
pub open spec fn found_at(m: Map<int, u8>, p: Seq<Option<u8>>, a: int) -> bool {
    forall|j: int|
        #![trigger p[j]]
        0 <= j < p.len() ==> m.contains_key(a + j) && (p[j] matches Some(b) ==> m[a + j] == b)
}

/// Whether the scan of a region for the first match, with its reads answered by
/// memory `m`, ends within `n` reads and gives `found`.
pub open spec fn ends_with(
    m: Map<int, u8>,
    r: Step<ReadRequest, RegionScan<'_>, Result<Option<usize>, Error>>,
    n: nat,
    found: Option<usize>,
) -> bool
    decreases n,
{
    match r {
        Step::Done(x) => x == Ok::<Option<usize>, Error>(found),
        Step::Do(req, s) => n > 0 && exists|
            reply: Result<Vec<u8>, Error>,
            next: Step<ReadRequest, RegionScan<'_>, Result<Option<usize>, Error>>,
        |
            io::answered(m, req, reply) && #[trigger] call_ensures(
                RegionScan::resume,
                (s, reply),
                next,
            ) && ends_with(m, next, (n - 1) as nat, found),
    }
}

/// Whether the scan of a region for all matches, with its reads answered by memory
/// `m`, ends within `n` reads and gives `found`.
pub open spec fn ends_with_all(
    m: Map<int, u8>,
    r: Step<ReadRequest, RegionScanAll<'_>, Result<Vec<usize>, Error>>,
    n: nat,
    found: Seq<usize>,
) -> bool
    decreases n,
{
    match r {
        Step::Done(x) => x matches Ok(v) && v@ == found,
        Step::Do(req, s) => n > 0 && exists|
            reply: Result<Vec<u8>, Error>,
            next: Step<ReadRequest, RegionScanAll<'_>, Result<Vec<usize>, Error>>,
        |
            io::answered(m, req, reply) && #[trigger] call_ensures(
                RegionScanAll::resume,
                (s, reply),
                next,
            ) && ends_with_all(m, next, (n - 1) as nat, found),
    }
}

proof fn lemma_ends_with(
    m: Map<int, u8>,
    r: Step<ReadRequest, RegionScan<'_>, Result<Option<usize>, Error>>,
    s: Sweep,
    n: nat,
    found: Option<usize>,
)
    requires
        goes_on(r, s),
        ends_with(m, r, n, found),
    ensures
        match found {
            Some(a) => first_hit(s.pattern, stopped(m, s).image, a - s.start),
            None => !hits(s.pattern, stopped(m, s).image),
        },
    decreases n,
{
    if let Step::Do(req, t) = r {
        let (reply, next) = choose|
            reply: Result<Vec<u8>, Error>,
            next: Step<ReadRequest, RegionScan<'_>, Result<Option<usize>, Error>>,
        |
            io::answered(m, req, reply) && #[trigger] call_ensures(
                RegionScan::resume,
                (t, reply),
                next,
            ) && ends_with(m, next, (n - 1) as nat, found);
        assert(io::bytes_read(reply) == req.on(m));
        lemma_next_sweep(m, s);
        let u = next_sweep(m, s);
        assert(s.after(req.on(m)) == Some(u));
        lemma_ends_with(m, next, u, (n - 1) as nat, found);
        assert(stopped(m, s) == stopped(m, u));
    }
}

proof fn lemma_ends_with_all(
    m: Map<int, u8>,
    r: Step<ReadRequest, RegionScanAll<'_>, Result<Vec<usize>, Error>>,
    s: Sweep,
    n: nat,
    found: Seq<usize>,
)
    requires
        goes_on_with_all(r, s),
        ends_with_all(m, r, n, found),
    ensures
        lists_hits(s.pattern, swept(m, s).image, s.start, found),
    decreases n,
{
    if let Step::Do(req, t) = r {
        let (reply, next) = choose|
            reply: Result<Vec<u8>, Error>,
            next: Step<ReadRequest, RegionScanAll<'_>, Result<Vec<usize>, Error>>,
        |
            io::answered(m, req, reply) && #[trigger] call_ensures(
                RegionScanAll::resume,
                (t, reply),
                next,
            ) && ends_with_all(m, next, (n - 1) as nat, found);
        assert(io::bytes_read(reply) == req.on(m));
        lemma_next_sweep(m, s);
        let u = next_sweep(m, s);
        assert(s.after(req.on(m)) == Some(u));
        lemma_ends_with_all(m, next, u, (n - 1) as nat, found);
        assert(swept(m, s) == swept(m, u));
    }
}

/// What a sweep knows of memory is so.
proof fn lemma_image_is_memory(m: Map<int, u8>, s: Sweep, x: int)
    requires
        s.start + s.image.len() <= s.end,
        0 <= x < s.end - s.start,
        x < s.image.len() ==> (s.image[x] matches Some(b) ==> m.contains_key(s.start + x) && m[s.start
            + x] == b),
    ensures
        swept(m, s).image.len() == s.end - s.start,
        swept(m, s).image[x] matches Some(b) ==> m.contains_key(s.start + x) && m[s.start + x] == b,
    decreases s.end - s.start - s.image.len(),
{
    lemma_swept_extends(m, s);
    if !s.complete() {
        lemma_next_sweep(m, s);
        let u = next_sweep(m, s);
        let req = s.request();
        if x < u.image.len() && x >= s.image.len() {
            let i = x - s.image.len();
            if memory::mapped(m, req.addr as int, req.len as int) {
                assert(u.image[x] == Some(memory::peek(m, req.addr as int, req.len as nat)[i]));
                assert(m.contains_key(req.addr + i));
            } else {
                assert(u.image[x] is None);
            }
        } else if x < s.image.len() {
            assert(u.image.take(s.image.len() as int)[x] == u.image[x]);
        }
        lemma_image_is_memory(m, u, x);
    }
}

/// Whether the stretch of 1 MiB, counted from the start of the region, that holds
/// the address is mapped.
pub open spec fn in_reach(m: Map<int, u8>, r: Region, a: int) -> bool {
    let from = r.start + (a - r.start) / 0x10_0000 * 0x10_0000;
    memory::mapped(
        m,
        from,
        if r.end - from < 0x10_0000 {
            r.end - from
        } else {
            0x10_0000
        },
    )
}

/// Whether the pattern matches at `a` in a region, all of it in stretches that are
/// mapped.
pub open spec fn visible(m: Map<int, u8>, p: Seq<Option<u8>>, r: Region, a: int) -> bool {
    &&& r.start <= a
    &&& a + p.len() <= r.end
    &&& found_at(m, p, a)
    &&& forall|j: int| #![trigger p[j]] 0 <= j < p.len() ==> in_reach(m, r, a + j)
}

/// In a region that is mapped throughout, every match is visible.
pub proof fn law_mapped_matches_are_visible(
    m: Map<int, u8>,
    p: Seq<Option<u8>>,
    r: Region,
    a: int,
)
    requires
        memory::mapped(m, r.start as int, r.end - r.start),
        r.start <= a,
        a + p.len() <= r.end,
        found_at(m, p, a),
    ensures
        visible(m, p, r, a),
{
    assert forall|j: int| #![trigger p[j]] 0 <= j < p.len() implies in_reach(m, r, a + j) by {
        let c = (a + j - r.start) / 0x10_0000;
        assert(c >= 0);
        assert(c * 0x10_0000 <= a + j - r.start);
    }
}

/// What a sweep sees of a mapped stretch is what is there.
proof fn lemma_stretch_is_seen(m: Map<int, u8>, s: Sweep, r: Region, x: int)
    requires
        s.start == r.start,
        s.end == r.end,
        s.start + s.image.len() <= s.end,
        s.image.len() % 0x10_0000 == 0 || s.complete(),
        0 <= x < s.end - s.start,
        in_reach(m, r, s.start + x),
        x < s.image.len() ==> s.image[x] == Some(m[s.start + x]),
    ensures
        swept(m, s).image.len() == s.end - s.start,
        swept(m, s).image[x] == Some(m[s.start + x]),
    decreases s.end - s.start - s.image.len(),
{
    lemma_swept_extends(m, s);
    if !s.complete() {
        lemma_next_sweep(m, s);
        let u = next_sweep(m, s);
        let req = s.request();
        let n = s.image.len() as int;
        if n <= x < u.image.len() {
            assert(x / 0x10_0000 * 0x10_0000 == n);
            assert(memory::mapped(m, req.addr as int, req.len as int));
            assert(u.image[x] == Some(memory::peek(m, req.addr as int, req.len as nat)[x - n]));
        } else if x < n {
            assert(u.image.take(n)[x] == u.image[x]);
        }
        lemma_stretch_is_seen(m, u, r, x);
    }
}

/// A match that a sweep sees is one of memory, and it sees every visible one.
proof fn lemma_hits_are_matches(m: Map<int, u8>, p: Seq<Option<u8>>, r: Region, a: int)
    requires
        r.start <= a,
        p.len() > 0,
        r.start < r.end,
    ensures
        hit(p, swept(m, sweep_of(p, r)).image, a - r.start) ==> found_at(m, p, a) && a + p.len()
            <= r.end,
        visible(m, p, r, a) ==> hit(p, swept(m, sweep_of(p, r)).image, a - r.start),
{
    let s = sweep_of(p, r);
    let image = swept(m, s).image;
    let i = a - r.start;
    lemma_swept_extends(m, s);
    if hit(p, image, i) {
        assert forall|j: int|
            #![trigger p[j]]
            0 <= j < p.len() implies m.contains_key(a + j) && (p[j] matches Some(b) ==> m[a + j]
            == b) by {
            lemma_image_is_memory(m, s, i + j);
            assert(image[i + j] is Some);
        }
    }
    if visible(m, p, r, a) {
        assert forall|j: int|
            #![trigger p[j]]
            0 <= j < p.len() implies image[i + j] is Some && (p[j] is Some ==> image[i + j]
            == p[j]) by {
            lemma_stretch_is_seen(m, s, r, i + j);
            assert(image[i + j] == Some(m[a + j]));
        }
    }
}

/// Whether a region says by its first letter that it can be read.
pub open spec fn letters_readable(r: Region) -> bool {
    r.perms.len() > 0 && r.perms[0] == 'r'
}

/// Whether `found` is the first match of the pattern in a region of memory `m`: it
/// is one, no visible one comes before it, and there is one if the region is
/// readable and holds any that is visible.
pub open spec fn is_first_match(
    m: Map<int, u8>,
    p: Seq<Option<u8>>,
    r: Region,
    found: Option<usize>,
) -> bool {
    match found {
        Some(a) => {
            &&& letters_readable(r)
            &&& p.len() > 0
            &&& r.start <= a && a + p.len() <= r.end
            &&& found_at(m, p, a as int)
            &&& forall|b: int| b < a ==> !#[trigger] visible(m, p, r, b)
        },
        None => letters_readable(r) && p.len() > 0 ==> forall|b: int|
            !#[trigger] visible(m, p, r, b),
    }
}

/// The scan of a region gives its first match, however its chunks fall.
pub proof fn law_scan_region_gives_the_first_match(
    m: Map<int, u8>,
    proc: &Process,
    region: &MapRegion,
    pattern: &Pattern,
    r: Step<ReadRequest, RegionScan<'_>, Result<Option<usize>, Error>>,
    n: nat,
    found: Option<usize>,
)
    requires
        vstd::utf8::is_ascii_chars(region@.perms),
        call_ensures(Process::scan_region, (proc, region, pattern), r),
        ends_with(m, r, n, found),
    ensures
        is_first_match(m, pattern@, region@, found),
{
    maps::law_ascii_perms(region@.perms, 0, 0x72);
    let p = pattern@;
    if scannable(p, region@) {
        let s = sweep_of(p, region@);
        lemma_nothing_in_nothing(p);
        lemma_ends_with(m, r, s, n, found);
        lemma_first_match(m, p, region@, found);
    } else if region@.start >= region@.end && p.len() > 0 {
        assert(found is None);
    }
}

proof fn lemma_first_match(m: Map<int, u8>, p: Seq<Option<u8>>, r: Region, found: Option<usize>)
    requires
        vstd::utf8::is_ascii_chars(r.perms),
        scannable(p, r),
        match found {
            Some(a) => first_hit(p, stopped(m, sweep_of(p, r)).image, a - r.start),
            None => !hits(p, stopped(m, sweep_of(p, r)).image),
        },
    ensures
        is_first_match(m, p, r, found),
{
    maps::law_ascii_perms(r.perms, 0, 0x72);
    let s = sweep_of(p, r);
    let full = swept(m, s).image;
    match found {
        Some(a) => {
            law_scan_finds_the_first_match(m, s, a - r.start);
            assert(first_hit(p, full, a - r.start));
            assert(hit(p, full, a - r.start));
            lemma_hits_are_matches(m, p, r, a as int);
            assert forall|b: int| b < a implies !#[trigger] visible(m, p, r, b) by {
                if r.start <= b {
                    lemma_hits_are_matches(m, p, r, b);
                    assert(!hit(p, full, b - r.start));
                }
            }
        },
        None => {
            law_scan_finds_the_first_match(m, s, 0);
            assert forall|b: int| !#[trigger] visible(m, p, r, b) by {
                if r.start <= b {
                    lemma_hits_are_matches(m, p, r, b);
                    assert(!hit(p, full, b - r.start));
                }
            }
        },
    }
}

/// Whether `found` lists the matches of the pattern in a region of memory `m`: in
/// ascending order, each of them one, and every visible one if the region can be
/// read.
pub open spec fn are_matches(
    m: Map<int, u8>,
    p: Seq<Option<u8>>,
    r: Region,
    found: Seq<usize>,
) -> bool {
    &&& pattern::ascending(found)
    &&& forall|a: usize| #[trigger]
        found.contains(a) ==> letters_readable(r) && p.len() > 0 && r.start <= a && a + p.len()
            <= r.end && found_at(m, p, a as int)
    &&& letters_readable(r) && p.len() > 0 ==> forall|a: usize|
        visible(m, p, r, a as int) ==> #[trigger] found.contains(a)
}

/// The scan of a region for all matches gives each of them once, however its
/// chunks fall.
pub proof fn law_scan_region_all_gives_every_match(
    m: Map<int, u8>,
    proc: &Process,
    region: &MapRegion,
    pattern: &Pattern,
    r: Step<ReadRequest, RegionScanAll<'_>, Result<Vec<usize>, Error>>,
    n: nat,
    found: Seq<usize>,
)
    requires
        vstd::utf8::is_ascii_chars(region@.perms),
        call_ensures(Process::scan_region_all, (proc, region, pattern), r),
        ends_with_all(m, r, n, found),
    ensures
        are_matches(m, pattern@, region@, found),
{
    maps::law_ascii_perms(region@.perms, 0, 0x72);
    let p = pattern@;
    let reg = region@;
    if scannable(p, reg) {
        let s = sweep_of(p, reg);
        lemma_ends_with_all(m, r, s, n, found);
        let full = swept(m, s).image;
        assert forall|a: usize| #[trigger] found.contains(a) implies reg.start <= a && a + p.len()
            <= reg.end && found_at(m, p, a as int) by {
            assert(hit(p, full, a - reg.start));
            lemma_hits_are_matches(m, p, reg, a as int);
        }
        assert forall|a: usize| visible(m, p, reg, a as int) implies #[trigger] found.contains(
            a,
        ) by {
            lemma_hits_are_matches(m, p, reg, a as int);
        }
    } else {
        assert(found.len() == 0);
    }
}

/// A scan reads its region from the start on, each read where the one before it
/// ended, none of them empty and none beyond the end of the region; so it ends.
pub proof fn law_scan_reads_forward(
    proc: &Process,
    region: &MapRegion,
    pattern: &Pattern,
    first: ReadRequest,
    scan: RegionScan<'_>,
    s: RegionScan<'_>,
    reply: Result<Vec<u8>, Error>,
    next: ReadRequest,
    t: RegionScan<'_>,
)
    requires
        call_ensures(
            Process::scan_region,
            (proc, region, pattern),
            Step::<ReadRequest, RegionScan<'_>, Result<Option<usize>, Error>>::Do(first, scan),
        ),
        s@.start + s@.image.len() < s@.end,
        reply matches Ok(b) ==> b@.len() == s@.request().len,
        call_ensures(
            RegionScan::resume,
            (s, reply),
            Step::<ReadRequest, RegionScan<'_>, Result<Option<usize>, Error>>::Do(next, t),
        ),
    ensures
        first.addr == region@.start,
        0 < first.len <= region@.end - region@.start,
        next.addr == s@.request().addr + s@.request().len,
        0 < next.len <= s@.end - next.addr,
        t@.end == s@.end,
        t@.request() == next,
{
}

/// A chunk that is not mapped, or not all of it, does not end a scan; any other
/// error does, and is what comes of it.
pub proof fn law_scan_skips_holes(
    s: RegionScan<'_>,
    all: RegionScanAll<'_>,
    e: Error,
    r: Step<ReadRequest, RegionScan<'_>, Result<Option<usize>, Error>>,
    q: Step<ReadRequest, RegionScanAll<'_>, Result<Vec<usize>, Error>>,
)
    requires
        call_ensures(RegionScan::resume, (s, Err::<Vec<u8>, Error>(e)), r),
        call_ensures(RegionScanAll::resume, (all, Err::<Vec<u8>, Error>(e)), q),
    ensures
        e is Unmapped || e is Partial ==> !(r matches Step::Done(Err(_))) && !(q matches Step::Done(
            Err(_),
        )),
        !(e is Unmapped) && !(e is Partial) ==> r == Step::<
            ReadRequest,
            RegionScan<'_>,
            Result<Option<usize>, Error>,
        >::Done(Err(e)) && q == Step::<
            ReadRequest,
            RegionScanAll<'_>,
            Result<Vec<usize>, Error>,
        >::Done(Err(e)),
{
}

/// A chunk that is only partly readable is passed over just as one that is not
/// mapped is.
pub proof fn law_partial_chunks_are_holes(
    s: RegionScan<'_>,
    addr: usize,
    len: usize,
    wanted: usize,
    moved: usize,
    r: Step<ReadRequest, RegionScan<'_>, Result<Option<usize>, Error>>,
    q: Step<ReadRequest, RegionScan<'_>, Result<Option<usize>, Error>>,
)
    requires
        call_ensures(
            RegionScan::resume,
            (s, Err::<Vec<u8>, Error>(Error::Unmapped { addr, len })),
            r,
        ),
        call_ensures(
            RegionScan::resume,
            (s, Err::<Vec<u8>, Error>(Error::Partial { addr, wanted, moved })),
            q,
        ),
    ensures
        match (r, q) {
            (Step::Do(a, t), Step::Do(b, u)) => a == b && t@ == u@,
            (Step::Done(Ok(a)), Step::Done(Ok(b))) => a == b,
            _ => false,
        },
{
    let next = s@.after(Err(Error::Unmapped { addr, len }))->0;
    assert(s@.after(Err(Error::Partial { addr, wanted, moved })) == Some(next));
    if hits(next.pattern, next.image) {
        let a = (r->Done_0)->Ok_0->0;
        let b = (q->Done_0)->Ok_0->0;
        assert(hit(next.pattern, next.image, a - next.start));
        assert(hit(next.pattern, next.image, b - next.start));
    }
}

} // verus!
