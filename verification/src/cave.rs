//! Finding unused bytes in the code of a module.
use vstd::prelude::*;

use crate::error::Error;
use crate::io;
use crate::io::ReadRequest;
use crate::maps;
use crate::maps::{MapRegion, Region};
use crate::memory;
use crate::process::Process;
use crate::search;
use crate::search::Scope;
use crate::step::Step;

verus! {

/// How long a run has to be so that `len` bytes find room: a run has at least
/// one byte.
pub open spec fn run_len(len: usize) -> int {
    if len == 0 {
        1
    } else {
        len as int
    }
}

/// Whether `n` bytes from `i` on are all `filler`.
pub open spec fn is_run(b: Seq<u8>, i: int, n: int, filler: u8) -> bool {
    &&& 0 <= i
    &&& i + n <= b.len()
    &&& forall|j: int| i <= j < i + n ==> b[j] == filler
}

/// Whether `i` is the first place with `n` bytes of `filler`.
pub open spec fn first_run(b: Seq<u8>, i: int, n: int, filler: u8) -> bool {
    &&& is_run(b, i, n, filler)
    &&& forall|j: int| j < i ==> !#[trigger] is_run(b, j, n, filler)
}

/// Whether there are `n` bytes of `filler` anywhere.
pub open spec fn has_run(b: Seq<u8>, n: int, filler: u8) -> bool {
    exists|i: int| #[trigger] is_run(b, i, n, filler)
}

fn find_run(b: &Vec<u8>, len: usize, filler: u8) -> (r: Option<usize>)
    ensures
        match r {
            Some(i) => first_run(b@, i as int, run_len(len), filler),
            None => !has_run(b@, run_len(len), filler),
        },
{
    let ghost n = run_len(len);
    let mut run: usize = 0;
    let mut i: usize = 0;
    while i < b.len()
        invariant
            n == run_len(len),
            i <= b@.len(),
            run <= i,
            run < n,
            forall|j: int| i - run <= j < i ==> b@[j] == filler,
            run == i || b@[i - run - 1] != filler,
            forall|j: int| j + n <= i ==> !#[trigger] is_run(b@, j, n, filler),
        decreases b.len() - i,
    {
        if b[i] == filler {
            assert forall|j: int| j + n <= i + 1 && run + 1 < n implies !#[trigger] is_run(
                b@,
                j,
                n,
                filler,
            ) by {
                if j + n == i + 1 && 0 <= j {
                    assert(b@[i - run - 1] != filler);
                }
            }
            run = run + 1;
            if run >= len {
                assert(is_run(b@, i + 1 - run, n, filler));
                return Some(i - (run - 1));
            }
        } else {
            assert forall|j: int| j + n <= i + 1 implies !#[trigger] is_run(b@, j, n, filler) by {
                if j + n == i + 1 {
                    assert(b@[i as int] != filler);
                }
            }
            run = 0;
        }
        i = i + 1;
    }
    None
}

/// What a search for a cave is for.
#[verifier::ext_equal]
pub struct Wanted {
    pub len: usize,
    pub filler: u8,
}

/// A search for a cave as it stands.
#[verifier::ext_equal]
pub struct Search {
    pub wanted: Wanted,
    /// Which of the regions are looked at.
    pub scope: Scope,
    /// The regions.
    pub regions: Seq<Region>,
    /// The region that is being read.
    pub at: int,
}

impl Search {
    /// The read of the region.
    pub open spec fn request(self) -> ReadRequest {
        let r = self.regions[self.at];
        ReadRequest { addr: r.start, len: (r.end - r.start) as usize }
    }

    /// No region that is looked at ends before it starts.
    pub open spec fn ordered(self) -> bool {
        forall|i: int|
            0 <= i < self.regions.len() && search::selects(self.scope, #[trigger] self.regions[i])
                ==> self.regions[i].start <= self.regions[i].end
    }
}

/// A search for a cave that reads a region.
pub struct CaveScan {
    len: usize,
    filler: u8,
    scope: Scope,
    regions: Vec<MapRegion>,
    at: usize,
}

impl View for CaveScan {
    type V = Search;

    closed spec fn view(&self) -> Search {
        Search {
            wanted: Wanted { len: self.len, filler: self.filler },
            scope: self.scope,
            regions: maps::region_views(self.regions@),
            at: self.at as int,
        }
    }
}

/// Whether a search goes on as it has to from region `from` on: with the read of
/// the next region that it looks at, or with the answer that there is no cave.
pub open spec fn goes_on(
    r: Step<ReadRequest, CaveScan, Result<Option<usize>, Error>>,
    s: Search,
    from: int,
) -> bool {
    match search::next_selected(s.scope, s.regions, from) {
        Some(k) => {
            &&& r matches Step::Do(req, scan)
            &&& scan@ == (Search { at: k, ..s })
            &&& req == scan@.request()
        },
        None => r == Step::<ReadRequest, CaveScan, Result<Option<usize>, Error>>::Done(Ok(None)),
    }
}

fn scan_from(
    len: usize,
    filler: u8,
    scope: Scope,
    regions: Vec<MapRegion>,
    from: usize,
) -> (r: Step<ReadRequest, CaveScan, Result<Option<usize>, Error>>)
    requires
        from <= regions@.len(),
        (Search {
            wanted: Wanted { len, filler },
            scope,
            regions: maps::region_views(regions@),
            at: 0,
        }).ordered(),
    ensures
        goes_on(
            r,
            (Search {
                wanted: Wanted { len, filler },
                scope,
                regions: maps::region_views(regions@),
                at: 0,
            }),
            from as int,
        ),
{
    match search::find_selected(scope, &regions, from) {
        Some(k) => {
            let region: &MapRegion = &regions[k];
            assert(region@ == maps::region_views(regions@)[k as int]);
            let req = ReadRequest { addr: region.start, len: region.len() };
            Step::Do(req, CaveScan { len, filler, scope, regions, at: k })
        },
        None => Step::Done(Ok(None)),
    }
}

impl CaveScan {
    #[verifier::type_invariant]
    spec fn inv(self) -> bool {
        &&& self.at < self.regions@.len()
        &&& search::selects(self.scope, self.regions@[self.at as int]@)
        &&& self@.ordered()
    }

    /// Go on with what the read of the region gave. A region that cannot be read
    /// is skipped.
    pub fn resume(self, reply: Result<Vec<u8>, Error>) -> (r: Step<
        ReadRequest,
        CaveScan,
        Result<Option<usize>, Error>,
    >)
        requires
            reply matches Ok(b) ==> b@.len() == self@.request().len,
        ensures
            match reply {
                Err(_) => goes_on(r, self@, self@.at + 1),
                Ok(b) => if has_run(b@, run_len(self@.wanted.len), self@.wanted.filler) {
                    &&& r matches Step::Done(Ok(Some(a)))
                    &&& first_run(
                        b@,
                        a - self@.request().addr,
                        run_len(self@.wanted.len),
                        self@.wanted.filler,
                    )
                } else {
                    goes_on(r, self@, self@.at + 1)
                },
            },
    {
        proof {
            use_type_invariant(&self);
        }
        let CaveScan { len, filler, scope, regions, at } = self;
        assert(maps::region_views(regions@)[at as int] == regions@[at as int]@);
        assert(at < regions.len());
        if let Ok(b) = reply {
            match find_run(&b, len, filler) {
                Some(i) => {
                    let start: usize = regions[at].start;
                    assert(start + b@.len() <= usize::MAX);
                    return Step::Done(Ok(Some(start + i)));
                },
                None => {},
            }
        }
        scan_from(len, filler, scope, regions, at + 1)
    }
}

/// A search for a cave that wants the regions of the process.
#[derive(Debug)]
pub struct CaveRegions {
    len: usize,
    filler: u8,
    scope: Scope,
}

impl View for CaveRegions {
    type V = (Wanted, Scope);

    /// What is looked for, and where.
    closed spec fn view(&self) -> (Wanted, Scope) {
        (Wanted { len: self.len, filler: self.filler }, self.scope)
    }
}

impl CaveRegions {
    /// Whether no region that is looked at ends before it starts. It holds of
    /// what the kernel lists.
    pub fn in_order(&self, maps: &Vec<MapRegion>) -> (r: bool)
        ensures
            r == (Search {
                wanted: self@.0,
                scope: self@.1,
                regions: maps::region_views(maps@),
                at: 0,
            }).ordered(),
    {
        let ghost v = maps::region_views(maps@);
        let mut i: usize = 0;
        while i < maps.len()
            invariant
                i <= maps@.len(),
                v == maps::region_views(maps@),
                forall|j: int|
                    0 <= j < i && search::selects(self.scope, #[trigger] v[j]) ==> v[j].start
                        <= v[j].end,
            decreases maps.len() - i,
        {
            assert(v[i as int] == maps@[i as int]@);
            if search::in_scope(self.scope, &maps[i]) && maps[i].start > maps[i].end {
                return false;
            }
            i = i + 1;
        }
        true
    }

    /// Go on with the regions of the process.
    ///
    /// # Errors
    /// The error of reading the maps.
    pub fn resume(self, maps: Result<Vec<MapRegion>, Error>) -> (r: Step<
        ReadRequest,
        CaveScan,
        Result<Option<usize>, Error>,
    >)
        requires
            maps matches Ok(v) ==> (Search {
                wanted: self@.0,
                scope: self@.1,
                regions: maps::region_views(v@),
                at: 0,
            }).ordered(),
        ensures
            match maps {
                Err(e) => r == Step::<ReadRequest, CaveScan, Result<Option<usize>, Error>>::Done(
                    Err(e),
                ),
                Ok(v) => goes_on(
                    r,
                    (Search {
                        wanted: self@.0,
                        scope: self@.1,
                        regions: maps::region_views(v@),
                        at: 0,
                    }),
                    0,
                ),
            },
    {
        match maps {
            Err(e) => Step::Done(Err(e)),
            Ok(v) => scan_from(self.len, self.filler, self.scope, v, 0),
        }
    }
}

/// A search for a cave that wants the regions of the process to find the module.
#[derive(Debug)]
pub struct CaveModule {
    proc: Process,
    module: String,
    len: usize,
    filler: u8,
}

/// What a search for a cave in a module is for.
#[verifier::ext_equal]
pub struct ModuleSearch {
    pub pid: i32,
    pub module: Seq<char>,
    pub wanted: Wanted,
}

impl View for CaveModule {
    type V = ModuleSearch;

    closed spec fn view(&self) -> ModuleSearch {
        ModuleSearch {
            pid: self.proc@,
            module: self.module@,
            wanted: Wanted { len: self.len, filler: self.filler },
        }
    }
}

impl CaveModule {
    /// Go on with the regions of the process.
    ///
    /// # Errors
    /// [`Error::ModuleNotFound`] if the module is not mapped, or the error of
    /// reading the maps.
    pub fn resume(self, maps: Result<Vec<MapRegion>, Error>) -> (r: Result<CaveRegions, Error>)
        requires
            maps matches Ok(v) ==> maps::has_extent(
                maps::region_views(v@),
                |m: Region| m.is_of(self@.module),
            ),
        ensures
            match maps {
                Err(e) => r == Err::<CaveRegions, Error>(e),
                Ok(v) => {
                    let wanted = |m: Region| m.is_of(self@.module);
                    if maps::any(maps::region_views(v@), wanted) {
                        &&& r matches Ok(next)
                        &&& next@.0 == self@.wanted
                        &&& exists|base: usize, end: usize|
                            #[trigger] maps::spans(maps::region_views(v@), wanted, base, end)
                                && next@.1 == (Scope::Code { base, end })
                    } else {
                        &&& r matches Err(Error::ModuleNotFound { module, pid })
                        &&& module@ == self@.module
                        &&& pid == self@.pid
                    }
                },
            },
    {
        let ghost wanted = |m: Region| m.is_of(self@.module);
        match self.proc.module(self.module.as_str(), maps) {
            Err(e) => Err(e),
            Ok(m) => {
                let base: usize = m.base;
                let end: usize = m.base + m.size;
                proof {
                    let v = maps->Ok_0@;
                    assert(maps::spans(maps::region_views(v), wanted, base, end));
                }
                Ok(
                    CaveRegions {
                        len: self.len,
                        filler: self.filler,
                        scope: Scope::Code { base, end },
                    },
                )
            },
        }
    }
}

impl Process {
    /// Find `len` consecutive `filler` bytes inside an executable region of
    /// `module`: a "free" code cave needing no allocation (just write rights).
    ///
    /// Common fillers: `0x00`, `0xCC` (int3 padding), `0x90` (nop). Gives the
    /// absolute address of the start of the run, or `None` if no run is long
    /// enough.
    pub fn find_code_cave(&self, module: &str, len: usize, filler: u8) -> (r: CaveModule)
        ensures
            r@ == (ModuleSearch { pid: self@, module: module@, wanted: Wanted { len, filler } }),
    {
        CaveModule { proc: *self, module: module.to_owned(), len, filler }
    }
}

/// What a search for a cave answers if `read` gives what each read gives.
pub open spec fn answer(
    read: spec_fn(ReadRequest) -> Result<Seq<u8>, Error>,
    s: Search,
    from: int,
) -> Option<int>
    decreases s.regions.len() - from,
    via answer_ends
{
    if from < 0 || from > s.regions.len() {
        None
    } else {
        match search::next_selected(s.scope, s.regions, from) {
            Some(k) => {
                let req = Search { at: k, ..s }.request();
                match read(req) {
                    Ok(b) => if has_run(b, run_len(s.wanted.len), s.wanted.filler) {
                        Some(
                            req.addr + choose|i: int|
                                first_run(b, i, run_len(s.wanted.len), s.wanted.filler),
                        )
                    } else {
                        answer(read, s, k + 1)
                    },
                    Err(_) => answer(read, s, k + 1),
                }
            },
            None => None,
        }
    }
}

#[via_fn]
proof fn answer_ends(read: spec_fn(ReadRequest) -> Result<Seq<u8>, Error>, s: Search, from: int) {
    if 0 <= from <= s.regions.len() {
        search::law_next_selected(s.scope, s.regions, from);
    }
}

/// Whether region `k` can be read and has a cave.
pub open spec fn has_cave(
    read: spec_fn(ReadRequest) -> Result<Seq<u8>, Error>,
    s: Search,
    k: int,
) -> bool {
    read(Search { at: k, ..s }.request()) matches Ok(b) && has_run(
        b,
        run_len(s.wanted.len),
        s.wanted.filler,
    )
}

/// Whether `a` is where the first cave of region `k` starts.
pub open spec fn first_cave(
    read: spec_fn(ReadRequest) -> Result<Seq<u8>, Error>,
    s: Search,
    k: int,
    a: int,
) -> bool {
    let req = Search { at: k, ..s }.request();
    read(req) matches Ok(b) && first_run(
        b,
        a - req.addr,
        run_len(s.wanted.len),
        s.wanted.filler,
    )
}

/// Whether no region from `from` up to `to` that is looked at has a cave.
pub open spec fn no_cave(
    read: spec_fn(ReadRequest) -> Result<Seq<u8>, Error>,
    s: Search,
    from: int,
    to: int,
) -> bool {
    forall|i: int|
        from <= i < to && search::selects(s.scope, #[trigger] s.regions[i]) ==> !has_cave(
            read,
            s,
            i,
        )
}

/// Whether region `k` is the first from `from` on that is looked at and has a
/// cave, and its first cave starts at `a`.
pub open spec fn found_in(
    read: spec_fn(ReadRequest) -> Result<Seq<u8>, Error>,
    s: Search,
    from: int,
    k: int,
    a: int,
) -> bool {
    &&& from <= k < s.regions.len()
    &&& search::selects(s.scope, s.regions[k])
    &&& first_cave(read, s, k, a)
    &&& no_cave(read, s, from, k)
}

/// Where there is a run, there is a first one.
proof fn lemma_first_run_exists(b: Seq<u8>, i: int, n: int, filler: u8)
    requires
        is_run(b, i, n, filler),
    ensures
        exists|j: int| first_run(b, j, n, filler),
    decreases i,
{
    if exists|k: int| k < i && #[trigger] is_run(b, k, n, filler) {
        let k = choose|k: int| k < i && #[trigger] is_run(b, k, n, filler);
        lemma_first_run_exists(b, k, n, filler);
    } else {
        assert(first_run(b, i, n, filler));
    }
}

/// A search for a cave answers with the first run of the first region in its
/// scope that can be read and has one, and with nothing only if none has.
pub proof fn law_search_takes_the_first_cave(
    read: spec_fn(ReadRequest) -> Result<Seq<u8>, Error>,
    s: Search,
    from: int,
)
    requires
        0 <= from <= s.regions.len(),
    ensures
        match answer(read, s, from) {
            Some(a) => exists|k: int| found_in(read, s, from, k, a),
            None => no_cave(read, s, from, s.regions.len() as int),
        },
    decreases s.regions.len() - from,
{
    search::law_next_selected(s.scope, s.regions, from);
    if let Some(k) = search::next_selected(s.scope, s.regions, from) {
        if has_cave(read, s, k) {
            let n = run_len(s.wanted.len);
            let filler = s.wanted.filler;
            let req = Search { at: k, ..s }.request();
            let b = read(req)->Ok_0;
            let j = choose|j: int| #[trigger] is_run(b, j, n, filler);
            lemma_first_run_exists(b, j, n, filler);
            let i = choose|i: int| first_run(b, i, n, filler);
            assert(answer(read, s, from) == Some(req.addr + i));
            let a = answer(read, s, from)->0;
            assert(found_in(read, s, from, k, a));
        } else {
            let next = k + 1;
            law_search_takes_the_first_cave(read, s, next);
            assert(answer(read, s, from) == answer(read, s, next));
            if let Some(a) = answer(read, s, next) {
                let j = choose|j: int| found_in(read, s, next, j, a);
                assert(found_in(read, s, from, j, a));
            }
        }
    }
}

/// What a search answers does not depend on the region that it has got to.
proof fn lemma_answer_at(
    read: spec_fn(ReadRequest) -> Result<Seq<u8>, Error>,
    s: Search,
    at: int,
    from: int,
)
    ensures
        answer(read, Search { at, ..s }, from) == answer(read, s, from),
    decreases s.regions.len() - from,
{
    if 0 <= from <= s.regions.len() {
        search::law_next_selected(s.scope, s.regions, from);
        if let Some(k) = search::next_selected(s.scope, s.regions, from) {
            lemma_answer_at(read, s, at, k + 1);
            assert(Search { at: k, ..Search { at, ..s } } == Search { at: k, ..s });
        }
    }
}

/// Each step of a search for a cave leads to its answer: if it is done, there is
/// none, and otherwise it reads the region that the answer depends on next.
pub proof fn law_search_steps(
    read: spec_fn(ReadRequest) -> Result<Seq<u8>, Error>,
    s: Search,
    from: int,
    r: Step<ReadRequest, CaveScan, Result<Option<usize>, Error>>,
)
    requires
        0 <= from <= s.regions.len(),
        goes_on(r, s, from),
    ensures
        match r {
            Step::Do(req, next) => {
                &&& from <= next@.at < s.regions.len()
                &&& next@ == (Search { at: next@.at, ..s })
                &&& req == next@.request()
                &&& !has_cave(read, s, next@.at) ==> answer(read, s, from) == answer(
                    read,
                    next@,
                    next@.at + 1,
                )
                &&& has_cave(read, s, next@.at) ==> (answer(read, s, from) matches Some(a)
                    && first_cave(read, s, next@.at, a))
            },
            Step::Done(Ok(found)) => found is None && answer(read, s, from) is None,
            Step::Done(Err(_)) => false,
        },
{
    search::law_next_selected(s.scope, s.regions, from);
    if let Some(k) = search::next_selected(s.scope, s.regions, from) {
        lemma_answer_at(read, s, k, k + 1);
        if has_cave(read, s, k) {
            let n = run_len(s.wanted.len);
            let b = read(Search { at: k, ..s }.request())->Ok_0;
            let j = choose|j: int| #[trigger] is_run(b, j, n, s.wanted.filler);
            lemma_first_run_exists(b, j, n, s.wanted.filler);
        }
    }
}

/// Whether memory holds nothing but `filler` from `a` on, for as many bytes as are
/// wanted and for at least one.
pub open spec fn free_at(m: Map<int, u8>, a: int, len: usize, filler: u8) -> bool {
    forall|i: int|
        a <= i < a + len || i == a ==> #[trigger] m.contains_key(i) && m[i] == filler
}

/// Whether a cave at `a` lies in a region.
pub open spec fn free_in(m: Map<int, u8>, r: Region, a: int, len: usize, filler: u8) -> bool {
    r.start <= a && a < r.end && a + len <= r.end && free_at(m, a, len, filler)
}

/// Whether `found` is the first cave of a region of memory `m`, or there is none. A
/// region that is not all mapped counts as having none.
pub open spec fn is_first_cave(
    m: Map<int, u8>,
    r: Region,
    len: usize,
    filler: u8,
    found: Option<usize>,
) -> bool {
    match found {
        Some(a) => free_in(m, r, a as int, len, filler) && forall|b: int|
            b < a ==> !#[trigger] free_in(m, r, b, len, filler),
        None => memory::mapped(m, r.start as int, r.end - r.start) ==> forall|b: int|
            !#[trigger] free_in(m, r, b, len, filler),
    }
}

/// Whether `found` is what a search for a cave in the regions that `wanted` picks
/// has to give on memory `m`: the first cave of the first of those regions that has
/// one.
pub open spec fn is_first_of(
    m: Map<int, u8>,
    v: Seq<Region>,
    from: int,
    wanted: spec_fn(Region) -> bool,
    len: usize,
    filler: u8,
    found: Option<usize>,
) -> bool {
    match found {
        Some(a) => exists|k: int|
            from <= k < v.len() && wanted(#[trigger] v[k]) && is_first_cave(
                m,
                v[k],
                len,
                filler,
                Some(a),
            ) && forall|i: int|
                from <= i < k && wanted(#[trigger] v[i]) ==> is_first_cave(
                    m,
                    v[i],
                    len,
                    filler,
                    None,
                ),
        None => forall|i: int|
            from <= i < v.len() && wanted(#[trigger] v[i]) ==> is_first_cave(
                m,
                v[i],
                len,
                filler,
                None,
            ),
    }
}

/// Whether a search for a cave, with its reads answered by memory `m`, ends within
/// `n` reads and gives `found`.
pub open spec fn ends_with(
    m: Map<int, u8>,
    r: Step<ReadRequest, CaveScan, Result<Option<usize>, Error>>,
    n: nat,
    found: Option<usize>,
) -> bool
    decreases n,
{
    match r {
        Step::Done(x) => x == Ok::<Option<usize>, Error>(found),
        Step::Do(req, s) => n > 0 && exists|
            reply: Result<Vec<u8>, Error>,
            next: Step<ReadRequest, CaveScan, Result<Option<usize>, Error>>,
        |
            io::answered(m, req, reply) && #[trigger] call_ensures(
                CaveScan::resume,
                (s, reply),
                next,
            ) && ends_with(m, next, (n - 1) as nat, found),
    }
}

/// A run in the bytes of a region is a cave of the region.
proof fn lemma_runs_are_caves(
    m: Map<int, u8>,
    r: Region,
    b: Seq<u8>,
    len: usize,
    filler: u8,
    i: int,
)
    requires
        r.start <= r.end,
        memory::mapped(m, r.start as int, r.end - r.start),
        b == memory::peek(m, r.start as int, (r.end - r.start) as nat),
    ensures
        is_run(b, i, run_len(len), filler) <==> free_in(m, r, r.start + i, len, filler),
{
    let a = r.start + i;
    let n = run_len(len);
    if is_run(b, i, n, filler) {
        assert forall|x: int| a <= x < a + len || x == a implies #[trigger] m.contains_key(x) && m[x]
            == filler by {
            let j = x - r.start;
            assert(b[j] == filler);
            assert(b[j] == m[r.start + j]);
        }
        assert(free_at(m, a, len, filler));
        assert(free_in(m, r, a, len, filler));
    }
    if free_in(m, r, a, len, filler) {
        assert forall|j: int| i <= j < i + n implies b[j] == filler by {
            let x = r.start + j;
            assert(m.contains_key(x) && m[x] == filler);
        }
        assert(is_run(b, i, n, filler));
    }
}

proof fn lemma_ends_with(
    m: Map<int, u8>,
    r: Step<ReadRequest, CaveScan, Result<Option<usize>, Error>>,
    s: Search,
    from: int,
    wanted: spec_fn(Region) -> bool,
    n: nat,
    found: Option<usize>,
)
    requires
        0 <= from <= s.regions.len(),
        s.ordered(),
        goes_on(r, s, from),
        forall|i: int|
            0 <= i < s.regions.len() ==> (wanted(#[trigger] s.regions[i]) <==> search::selects(
                s.scope,
                s.regions[i],
            )),
        ends_with(m, r, n, found),
    ensures
        is_first_of(m, s.regions, from, wanted, s.wanted.len, s.wanted.filler, found),
    decreases n,
{
    let v = s.regions;
    let (len, filler) = (s.wanted.len, s.wanted.filler);
    search::law_next_selected(s.scope, v, from);
    if let Step::Do(req, t) = r {
        let k = search::next_selected(s.scope, v, from)->0;
        let (reply, next) = choose|
            reply: Result<Vec<u8>, Error>,
            next: Step<ReadRequest, CaveScan, Result<Option<usize>, Error>>,
        |
            io::answered(m, req, reply) && #[trigger] call_ensures(
                CaveScan::resume,
                (t, reply),
                next,
            ) && ends_with(m, next, (n - 1) as nat, found);
        assert(search::selects(s.scope, v[k]));
        assert(wanted(v[k]));
        assert(v[k].start <= v[k].end);
        let u = Search { at: k, ..s };
        let has = reply matches Ok(b) && has_run(b@, run_len(len), filler);
        if has {
            let b = reply->Ok_0@;
            let a = found->0;
            let i = a - v[k].start;
            assert(first_run(b, i, run_len(len), filler));
            assert forall|x: int| x < a implies !#[trigger] free_in(m, v[k], x, len, filler) by {
                lemma_runs_are_caves(m, v[k], b, len, filler, x - v[k].start);
                assert(!is_run(b, x - v[k].start, run_len(len), filler));
            }
            lemma_runs_are_caves(m, v[k], b, len, filler, i);
            assert(is_first_cave(m, v[k], len, filler, Some(a)));
        } else {
            assert(is_first_cave(m, v[k], len, filler, None)) by {
                if let Ok(b) = reply {
                    assert forall|x: int| !#[trigger] free_in(m, v[k], x, len, filler) by {
                        lemma_runs_are_caves(m, v[k], b@, len, filler, x - v[k].start);
                        assert(!is_run(b@, x - v[k].start, run_len(len), filler));
                    }
                }
            }
            assert(u.ordered());
            lemma_ends_with(m, next, u, k + 1, wanted, (n - 1) as nat, found);
            if let Some(a) = found {
                let x = choose|x: int|
                    k + 1 <= x < v.len() && wanted(#[trigger] v[x]) && is_first_cave(
                        m,
                        v[x],
                        len,
                        filler,
                        Some(a),
                    ) && forall|i: int|
                        k + 1 <= i < x && wanted(#[trigger] v[i]) ==> is_first_cave(
                            m,
                            v[i],
                            len,
                            filler,
                            None,
                        );
                assert(wanted(v[x]));
                assert forall|i: int| from <= i < x && wanted(#[trigger] v[i]) implies is_first_cave(
                m, v[i], len, filler, None) by {}
            }
        }
    }
}

/// A search for a cave looks at every region that can be executed and lies within
/// the span of the module's own, in the order of the listing. It gives the first
/// place with as many bytes of the filler as were asked for, and nothing only if
/// none of those regions has one.
pub proof fn law_cave_is_the_first_free_run(
    m: Map<int, u8>,
    p: &Process,
    module: &str,
    len: usize,
    filler: u8,
    find: CaveModule,
    v: Vec<MapRegion>,
    list: CaveRegions,
    r: Step<ReadRequest, CaveScan, Result<Option<usize>, Error>>,
    n: nat,
    found: Option<usize>,
)
    requires
        search::ascii_perms(maps::region_views(v@)),
        forall|i: int| 0 <= i < v@.len() ==> (#[trigger] v@[i])@.start <= v@[i]@.end,
        call_ensures(Process::find_code_cave, (p, module, len, filler), find),
        call_ensures(
            CaveModule::resume,
            (find, Ok::<Vec<MapRegion>, Error>(v)),
            Ok::<CaveRegions, Error>(list),
        ),
        call_ensures(CaveRegions::resume, (list, Ok::<Vec<MapRegion>, Error>(v)), r),
        ends_with(m, r, n, found),
    ensures
        exists|base: usize, end: usize|
            #[trigger] search::module_spans(maps::region_views(v@), module@, base, end)
                && is_first_of(
                m,
                maps::region_views(v@),
                0,
                |x: Region|
                    x.perms.len() > 2 && x.perms[2] == 'x' && base <= x.start && x.end <= end,
                len,
                filler,
                found,
            ),
{
    let regions = maps::region_views(v@);
    let named = |x: Region| x.is_of(module@);
    assert(named =~= (|x: Region| x.is_of(find@.module)));
    let (base, end) = choose|base: usize, end: usize|
        #[trigger] maps::spans(regions, named, base, end) && list@.1 == (Scope::Code { base, end });
    search::lemma_module_spans(regions, module@, base, end);
    let s = Search { wanted: list@.0, scope: list@.1, regions, at: 0 };
    let pick = |x: Region|
        x.perms.len() > 2 && x.perms[2] == 'x' && base <= x.start && x.end <= end;
    assert forall|i: int| 0 <= i < regions.len() implies (pick(#[trigger] regions[i])
        <==> search::selects(s.scope, regions[i])) by {
        maps::law_ascii_perms(regions[i].perms, 2, 0x78);
    }
    assert(s.ordered()) by {
        assert forall|i: int| 0 <= i < regions.len() implies (#[trigger] regions[i]).start
            <= regions[i].end by {
            assert(regions[i] == v@[i]@);
        }
    }
    lemma_ends_with(m, r, s, 0, pick, n, found);
    assert(search::module_spans(regions, module@, base, end) && is_first_of(
        m,
        regions,
        0,
        pick,
        len,
        filler,
        found,
    ));
}

/// A region that cannot be read is passed over, whatever the error; an error of the
/// listing ends the search.
pub proof fn law_unreadable_regions_are_passed_over(
    s: CaveScan,
    e: Error,
    r: Step<ReadRequest, CaveScan, Result<Option<usize>, Error>>,
    list: CaveRegions,
    listed: Step<ReadRequest, CaveScan, Result<Option<usize>, Error>>,
    find: CaveModule,
    found: Result<CaveRegions, Error>,
)
    requires
        call_ensures(CaveScan::resume, (s, Err::<Vec<u8>, Error>(e)), r),
        call_ensures(CaveRegions::resume, (list, Err::<Vec<MapRegion>, Error>(e)), listed),
        call_ensures(CaveModule::resume, (find, Err::<Vec<MapRegion>, Error>(e)), found),
    ensures
        !(r matches Step::Done(Err(_))) && !(r matches Step::Done(Ok(Some(_)))),
        listed == Step::<ReadRequest, CaveScan, Result<Option<usize>, Error>>::Done(Err(e)),
        found == Err::<CaveRegions, Error>(e),
{
}

/// A search for a cave in a module that no region is backed by fails with the
/// module's name.
pub proof fn law_cave_needs_its_module(
    find: CaveModule,
    v: Vec<MapRegion>,
    r: Result<CaveRegions, Error>,
)
    requires
        maps::has_extent(maps::region_views(v@), |x: Region| x.is_of(find@.module)),
        call_ensures(CaveModule::resume, (find, Ok::<Vec<MapRegion>, Error>(v)), r),
        forall|i: int| 0 <= i < v@.len() ==> !maps::backed_by((#[trigger] v@[i])@, find@.module),
    ensures
        r matches Err(Error::ModuleNotFound { module, pid }) && module@ == find@.module && pid
            == find@.pid,
{
    let regions = maps::region_views(v@);
    let wanted = |x: Region| x.is_of(find@.module);
    if maps::any(regions, wanted) {
        let i = choose|i: int| 0 <= i < regions.len() && wanted(#[trigger] regions[i]);
        maps::lemma_backed_by(v@[i]@, find@.module);
        assert(regions[i] == v@[i]@);
    }
}

/// Regions are in order for a search if none that it looks at ends before it
/// starts, and only then.
pub proof fn law_order_is_tested(
    list: &CaveRegions,
    base: usize,
    end: usize,
    v: &Vec<MapRegion>,
    r: bool,
)
    requires
        search::ascii_perms(maps::region_views(v@)),
        list@.1 == (Scope::Code { base, end }),
        call_ensures(CaveRegions::in_order, (list, v), r),
    ensures
        r <==> forall|i: int|
            0 <= i < v@.len() && (#[trigger] v@[i])@.perms.len() > 2 && v@[i]@.perms[2] == 'x'
                && base <= v@[i]@.start && v@[i]@.end <= end ==> v@[i]@.start <= v@[i]@.end,
{
    let regions = maps::region_views(v@);
    assert forall|i: int| 0 <= i < v@.len() implies regions[i] == (#[trigger] v@[i])@ && (
    search::selects(list@.1, regions[i]) <==> v@[i]@.perms.len() > 2 && v@[i]@.perms[2] == 'x'
        && base <= v@[i]@.start && v@[i]@.end <= end) by {
        assert(vstd::utf8::is_ascii_chars(regions[i].perms));
        maps::law_ascii_perms(regions[i].perms, 2, 0x78);
    }
    if r {
        assert forall|i: int|
            0 <= i < v@.len() && (#[trigger] v@[i])@.perms.len() > 2 && v@[i]@.perms[2] == 'x'
                && base <= v@[i]@.start && v@[i]@.end <= end implies v@[i]@.start <= v@[i]@.end by {
            assert(search::selects(list@.1, regions[i]));
        }
    } else {
        let s = Search { wanted: list@.0, scope: list@.1, regions, at: 0 };
        assert(!s.ordered());
        let k = choose|k: int|
            0 <= k < regions.len() && search::selects(s.scope, #[trigger] regions[k])
                && regions[k].start > regions[k].end;
        assert(regions[k] == v@[k]@);
    }
}

} // verus!
