//! Signature searches over whole modules and processes.
use vstd::prelude::*;

use crate::bytes;
use crate::error::Error;
use crate::io::ReadRequest;
use crate::machine;
use crate::maps;
use crate::maps::{MapRegion, Region};
use crate::pattern;
use crate::pattern::Pattern;
use crate::process::Process;
use crate::scan;
use crate::scan::{RegionScan, RegionScanAll};
use crate::step::Step;

verus! {

/// Which regions a search looks at.
#[derive(Clone, Copy, Debug, PartialEq, Eq, Structural)]
pub enum Scope {
    /// All of them.
    Everything,
    /// The file-backed regions of the module that lies there.
    Module { base: usize, end: usize },
    /// The executable regions of the module that lies there.
    Code { base: usize, end: usize },
}

/// Whether a search looks at the region.
pub open spec fn selects(scope: Scope, r: Region) -> bool {
    match scope {
        Scope::Everything => true,
        Scope::Module { base, end } => base <= r.start && r.end <= end && r.path is Some,
        Scope::Code { base, end } => base <= r.start && r.end <= end && r.executable(),
    }
}

pub(crate) fn in_scope(scope: Scope, r: &MapRegion) -> (b: bool)
    ensures
        b == selects(scope, r@),
{
    match scope {
        Scope::Everything => true,
        Scope::Module { base, end } => base <= r.start && r.end <= end && r.path.is_some(),
        Scope::Code { base, end } => base <= r.start && r.end <= end && r.executable(),
    }
}

/// The first region from `k` on that a search looks at, if there is one.
pub open spec fn next_selected(scope: Scope, v: Seq<Region>, k: int) -> Option<int>
    decreases v.len() - k,
{
    if k < 0 || k >= v.len() {
        None
    } else if selects(scope, v[k]) {
        Some(k)
    } else {
        next_selected(scope, v, k + 1)
    }
}

pub(crate) fn find_selected(scope: Scope, v: &Vec<MapRegion>, from: usize) -> (r: Option<usize>)
    requires
        from <= v@.len(),
    ensures
        match r {
            Some(k) => next_selected(scope, maps::region_views(v@), from as int) == Some(k as int)
                && k < v@.len() && selects(scope, v@[k as int]@),
            None => next_selected(scope, maps::region_views(v@), from as int) is None,
        },
{
    let mut k: usize = from;
    while k < v.len()
        invariant
            from <= k <= v@.len(),
            next_selected(scope, maps::region_views(v@), from as int) == next_selected(
                scope,
                maps::region_views(v@),
                k as int,
            ),
        decreases v.len() - k,
    {
        assert(maps::region_views(v@)[k as int] == v@[k as int]@);
        if in_scope(scope, &v[k]) {
            return Some(k);
        }
        k = k + 1;
    }
    None
}

/// A search for the first match as it stands.
#[verifier::ext_equal]
pub struct Search {
    /// What is looked for.
    pub pattern: Seq<Option<u8>>,
    /// Which of the regions are looked at.
    pub scope: Scope,
    /// The regions.
    pub regions: Seq<Region>,
    /// The region that is being scanned.
    pub at: int,
}

/// A search for the first match in the regions of a process.
pub struct Scan {
    pattern: Pattern,
    scope: Scope,
    regions: Vec<MapRegion>,
    at: usize,
}

impl View for Scan {
    type V = Search;

    closed spec fn view(&self) -> Search {
        Search {
            pattern: self.pattern@,
            scope: self.scope,
            regions: maps::region_views(self.regions@),
            at: self.at as int,
        }
    }
}

/// Whether a search goes on as it has to from region `from` on: with a scan of
/// the next region that it looks at, or with the answer that there is no match.
pub open spec fn goes_on(
    r: Step<MapRegion, Scan, Result<Option<usize>, Error>>,
    s: Search,
    from: int,
) -> bool {
    match next_selected(s.scope, s.regions, from) {
        Some(k) => {
            &&& r matches Step::Do(region, scan)
            &&& scan@ == (Search { at: k, ..s })
            &&& region@ == s.regions[k]
        },
        None => r == Step::<MapRegion, Scan, Result<Option<usize>, Error>>::Done(Ok(None)),
    }
}

impl Scan {
    #[verifier::type_invariant]
    spec fn inv(self) -> bool {
        self.at < self.regions@.len()
    }

    /// What is looked for.
    pub fn pattern(&self) -> (r: &Pattern)
        ensures
            r@ == self@.pattern,
    {
        &self.pattern
    }

    /// Go on with what [`Process::scan_region`] gave for the region.
    ///
    /// # Errors
    /// The error of the scan of the region.
    pub fn resume(self, reply: Result<Option<usize>, Error>) -> (r: Step<
        MapRegion,
        Scan,
        Result<Option<usize>, Error>,
    >)
        ensures
            match reply {
                Ok(None) => goes_on(r, self@, self@.at + 1),
                _ => r == Step::<MapRegion, Scan, Result<Option<usize>, Error>>::Done(reply),
            },
    {
        proof {
            use_type_invariant(&self);
        }
        match reply {
            Ok(None) => {
                let Scan { pattern, scope, regions, at } = self;
                assert(at < regions.len());
                scan_from(pattern, scope, regions, at + 1)
            },
            other => Step::Done(other),
        }
    }
}

fn scan_from(pattern: Pattern, scope: Scope, regions: Vec<MapRegion>, from: usize) -> (r: Step<
    MapRegion,
    Scan,
    Result<Option<usize>, Error>,
>)
    requires
        from <= regions@.len(),
    ensures
        goes_on(
            r,
            (Search { pattern: pattern@, scope, regions: maps::region_views(regions@), at: 0 }),
            from as int,
        ),
{
    match find_selected(scope, &regions, from) {
        Some(k) => {
            let region: MapRegion = regions[k].clone();
            assert(region@ == maps::region_views(regions@)[k as int]);
            Step::Do(region, Scan { pattern, scope, regions, at: k })
        },
        None => Step::Done(Ok(None)),
    }
}

/// A search that wants the regions of the process.
pub struct ListRegions {
    pattern: Pattern,
    scope: Scope,
}

impl View for ListRegions {
    type V = (Seq<Option<u8>>, Scope);

    /// What is looked for, and where.
    closed spec fn view(&self) -> (Seq<Option<u8>>, Scope) {
        (self.pattern@, self.scope)
    }
}

impl ListRegions {
    /// Go on with the regions of the process.
    ///
    /// # Errors
    /// The error of reading the maps.
    pub fn resume(self, maps: Result<Vec<MapRegion>, Error>) -> (r: Step<
        MapRegion,
        Scan,
        Result<Option<usize>, Error>,
    >)
        ensures
            match maps {
                Err(e) => r == Step::<MapRegion, Scan, Result<Option<usize>, Error>>::Done(Err(e)),
                Ok(v) => goes_on(
                    r,
                    (Search {
                        pattern: self@.0,
                        scope: self@.1,
                        regions: maps::region_views(v@),
                        at: 0,
                    }),
                    0,
                ),
            },
    {
        match maps {
            Err(e) => Step::Done(Err(e)),
            Ok(v) => scan_from(self.pattern, self.scope, v, 0),
        }
    }
}

/// A search that wants the regions of the process to find the module.
pub struct FindModule {
    proc: Process,
    pattern: Pattern,
    module: String,
    code: bool,
}

/// What a search in a module is for.
#[verifier::ext_equal]
pub struct ModuleSearch {
    pub pid: i32,
    pub pattern: Seq<Option<u8>>,
    pub module: Seq<char>,
    /// Whether only executable regions are looked at.
    pub code: bool,
}

impl View for FindModule {
    type V = ModuleSearch;

    closed spec fn view(&self) -> ModuleSearch {
        ModuleSearch {
            pid: self.proc@,
            pattern: self.pattern@,
            module: self.module@,
            code: self.code,
        }
    }
}

impl FindModule {
    /// Go on with the regions of the process.
    ///
    /// # Errors
    /// [`Error::ModuleNotFound`] if the module is not mapped, or the error of
    /// reading the maps.
    pub fn resume(self, maps: Result<Vec<MapRegion>, Error>) -> (r: Result<ListRegions, Error>)
        requires
            maps matches Ok(v) ==> maps::has_extent(
                maps::region_views(v@),
                |m: Region| m.is_of(self@.module),
            ),
        ensures
            match maps {
                Err(e) => r == Err::<ListRegions, Error>(e),
                Ok(v) => {
                    let wanted = |m: Region| m.is_of(self@.module);
                    if maps::any(maps::region_views(v@), wanted) {
                        &&& r matches Ok(next)
                        &&& next@.0 == self@.pattern
                        &&& exists|base: usize, end: usize|
                            #[trigger] maps::spans(maps::region_views(v@), wanted, base, end)
                                && next@.1 == (if self@.code {
                                Scope::Code { base, end }
                            } else {
                                Scope::Module { base, end }
                            })
                    } else {
                        &&& r matches Err(Error::ModuleNotFound { module, pid })
                        &&& module@ == self@.module
                        &&& pid == self@.pid
                    }
                },
            },
    {
        let ghost wanted = |m: Region| m.is_of(self@.module);
        match self.proc.module(self.module.as_str(), maps) {
            Err(e) => Err(e),
            Ok(m) => {
                let base: usize = m.base;
                let end: usize = m.base + m.size;
                proof {
                    let v = maps->Ok_0@;
                    assert(maps::spans(maps::region_views(v), wanted, base, end));
                }
                let scope = if self.code {
                    Scope::Code { base, end }
                } else {
                    Scope::Module { base, end }
                };
                Ok(ListRegions { pattern: self.pattern, scope })
            },
        }
    }
}

/// A search for all matches as it stands.
#[verifier::ext_equal]
pub struct SearchAll {
    /// What is looked for.
    pub pattern: Seq<Option<u8>>,
    /// The regions.
    pub regions: Seq<Region>,
    /// The region that is being scanned.
    pub at: int,
    /// Where it was found so far.
    pub found: Set<usize>,
}

/// A search for all matches in the regions of a process.
pub struct ScanAll {
    pattern: Pattern,
    regions: Vec<MapRegion>,
    at: usize,
    found: Vec<usize>,
}

impl View for ScanAll {
    type V = SearchAll;

    closed spec fn view(&self) -> SearchAll {
        SearchAll {
            pattern: self.pattern@,
            regions: maps::region_views(self.regions@),
            at: self.at as int,
            found: self.found@.to_set(),
        }
    }
}

/// Whether a search for all matches goes on as it has to from region `s.at` on.
pub open spec fn goes_on_with_all(
    r: Step<MapRegion, ScanAll, Result<Vec<usize>, Error>>,
    s: SearchAll,
) -> bool {
    if s.at < s.regions.len() {
        &&& r matches Step::Do(region, scan)
        &&& scan@ == s
        &&& region@ == s.regions[s.at]
    } else {
        &&& r matches Step::Done(Ok(v))
        &&& pattern::ascending(v@)
        &&& v@.to_set() == s.found
    }
}

impl ScanAll {
    #[verifier::type_invariant]
    spec fn inv(self) -> bool {
        &&& self.at < self.regions@.len()
        &&& pattern::ascending(self.found@)
    }

    /// What is looked for.
    pub fn pattern(&self) -> (r: &Pattern)
        ensures
            r@ == self@.pattern,
    {
        &self.pattern
    }

    /// Go on with what [`Process::scan_region_all`] gave for the region.
    ///
    /// # Errors
    /// The error of the scan of the region.
    pub fn resume(self, reply: Result<Vec<usize>, Error>) -> (r: Step<
        MapRegion,
        ScanAll,
        Result<Vec<usize>, Error>,
    >)
        ensures
            match reply {
                Err(e) => r == Step::<MapRegion, ScanAll, Result<Vec<usize>, Error>>::Done(Err(e)),
                Ok(v) => goes_on_with_all(
                    r,
                    (SearchAll {
                        at: self@.at + 1,
                        found: self@.found.union(v@.to_set()),
                        ..self@
                    }),
                ),
            },
    {
        proof {
            use_type_invariant(&self);
        }
        match reply {
            Err(e) => Step::Done(Err(e)),
            Ok(v) => {
                let ScanAll { pattern, regions, at, found } = self;
                let mut found = found;
                let mut i: usize = 0;
                let ghost before = found@;
                assert(before.to_set().union(v@.take(0).to_set()) =~= before.to_set());
                while i < v.len()
                    invariant
                        i <= v@.len(),
                        pattern::ascending(found@),
                        found@.to_set() == before.to_set().union(v@.take(i as int).to_set()),
                    decreases v.len() - i,
                {
                    let ghost set = found@.to_set();
                    insert_hit(&mut found, v[i]);
                    proof {
                        lemma_one_more(v@, i as int);
                        assert(set.insert(v@[i as int]) =~= before.to_set().union(
                            v@.take(i + 1).to_set(),
                        ));
                    }
                    i = i + 1;
                }
                assert(v@.take(i as int) =~= v@);
                assert(at < regions.len());
                scan_all_from(pattern, regions, at + 1, found)
            },
        }
    }
}

proof fn lemma_one_more(v: Seq<usize>, i: int)
    requires
        0 <= i < v.len(),
    ensures
        v.take(i + 1).to_set() == v.take(i).to_set().insert(v[i]),
{
    let a = v.take(i);
    let b = v.take(i + 1);
    assert forall|x: usize| b.to_set().contains(x) <==> a.to_set().insert(v[i]).contains(x) by {
        if b.contains(x) {
            let k = b.index_of(x);
            if k < i {
                assert(a[k] == x);
            }
        }
        if a.contains(x) {
            let k = a.index_of(x);
            assert(b[k] == x);
        }
        assert(b[i] == v[i]);
    }
    assert(b.to_set() =~= a.to_set().insert(v[i]));
}

/// Put `a` in its place, unless it is there already.
fn insert_hit(v: &mut Vec<usize>, a: usize)
    requires
        pattern::ascending(old(v)@),
    ensures
        pattern::ascending(final(v)@),
        final(v)@.to_set() == old(v)@.to_set().insert(a),
{
    let ghost before = v@;
    let mut k: usize = v.len();
    while k > 0 && v[k - 1] > a
        invariant
            k <= v@.len(),
            forall|i: int| k <= i < v@.len() ==> #[trigger] v@[i] > a,
        decreases k,
    {
        k = k - 1;
    }
    if k > 0 && v[k - 1] == a {
        assert(v@.contains(a));
        assert(v@.to_set().insert(a) =~= v@.to_set());
        return;
    }
    v.insert(k, a);
    proof {
        let w = v@;
        assert forall|i: int| 0 <= i < w.len() && i != k implies #[trigger] w[i] == before[if i < k {
            i
        } else {
            i - 1
        }] by {}
        assert forall|x: usize| w.to_set().contains(x) <==> before.to_set().insert(a).contains(
            x,
        ) by {
            if w.contains(x) {
                let i = w.index_of(x);
                if i != k {
                    assert(before.contains(x));
                }
            }
            if before.contains(x) {
                let i = before.index_of(x);
                let j = if i < k {
                    i
                } else {
                    i + 1
                };
                assert(w[j] == x);
            }
            assert(w[k as int] == a);
        }
        assert(w.to_set() =~= before.to_set().insert(a));
    }
}

fn scan_all_from(
    pattern: Pattern,
    regions: Vec<MapRegion>,
    at: usize,
    found: Vec<usize>,
) -> (r: Step<MapRegion, ScanAll, Result<Vec<usize>, Error>>)
    requires
        pattern::ascending(found@),
    ensures
        goes_on_with_all(
            r,
            (SearchAll {
                pattern: pattern@,
                regions: maps::region_views(regions@),
                at: at as int,
                found: found@.to_set(),
            }),
        ),
{
    if at < regions.len() {
        let region: MapRegion = regions[at].clone();
        assert(region@ == maps::region_views(regions@)[at as int]);
        Step::Do(region, ScanAll { pattern, regions, at, found })
    } else {
        Step::Done(Ok(found))
    }
}

/// A search for all matches that wants the regions of the process.
pub struct ListAll {
    pattern: Pattern,
}

impl View for ListAll {
    type V = Seq<Option<u8>>;

    /// What is looked for.
    closed spec fn view(&self) -> Seq<Option<u8>> {
        self.pattern@
    }
}

impl ListAll {
    /// Go on with the regions of the process.
    ///
    /// # Errors
    /// The error of reading the maps.
    pub fn resume(self, maps: Result<Vec<MapRegion>, Error>) -> (r: Step<
        MapRegion,
        ScanAll,
        Result<Vec<usize>, Error>,
    >)
        ensures
            match maps {
                Err(e) => r == Step::<MapRegion, ScanAll, Result<Vec<usize>, Error>>::Done(Err(e)),
                Ok(v) => goes_on_with_all(
                    r,
                    (SearchAll {
                        pattern: self@,
                        regions: maps::region_views(v@),
                        at: 0,
                        found: Set::empty(),
                    }),
                ),
            },
    {
        match maps {
            Err(e) => Step::Done(Err(e)),
            Ok(v) => {
                let found: Vec<usize> = Vec::new();
                assert(found@.to_set() =~= Set::<usize>::empty());
                scan_all_from(self.pattern, v, 0, found)
            },
        }
    }
}

/// A RIP-relative reference that is being resolved.
#[derive(Debug)]
pub struct ResolveRip {
    next_instr: usize,
}

impl View for ResolveRip {
    type V = usize;

    /// The address of the instruction behind the one that is looked at.
    closed spec fn view(&self) -> usize {
        self.next_instr
    }
}

impl ResolveRip {
    /// Finish with what the read of the `disp32` field gave.
    ///
    /// # Errors
    /// The error of the read.
    pub fn resume(self, reply: Result<Vec<u8>, Error>) -> (r: Result<usize, Error>)
        requires
            reply matches Ok(b) ==> b@.len() == 4,
        ensures
            match reply {
                Ok(b) => r == Ok::<usize, Error>(
                    self@.wrapping_add_signed(bytes::signed32(bytes::le_value(b@)) as isize),
                ),
                Err(e) => r == Err::<usize, Error>(e),
            },
    {
        match reply {
            Ok(b) => {
                let disp: i32 = bytes::pod_i32(b.as_slice());
                Ok(self.next_instr.wrapping_add_signed(disp as isize))
            },
            Err(e) => Err(e),
        }
    }
}

impl Process {
    /// Scan all readable regions of the process for `sig`.
    ///
    /// # Errors
    /// Anything [`Pattern::parse`] returns.
    pub fn scan(&self, sig: &str) -> (r: Result<ListRegions, Error>)
        ensures
            match r {
                Ok(next) => pattern::parsed(sig@, next@.0) && next@.1 == Scope::Everything,
                Err(e) => pattern::rejected(sig@, e),
            },
    {
        match Pattern::parse(sig) {
            Ok(pattern) => Ok(ListRegions { pattern, scope: Scope::Everything }),
            Err(e) => Err(e),
        }
    }

    /// Scan every readable, file-backed region of `module` for `sig`.
    ///
    /// # Errors
    /// Anything [`Pattern::parse`] returns.
    pub fn scan_module(&self, module: &str, sig: &str) -> (r: Result<FindModule, Error>)
        ensures
            match r {
                Ok(next) => pattern::parsed(sig@, next@.pattern) && next@ == (ModuleSearch {
                    pid: self@,
                    pattern: next@.pattern,
                    module: module@,
                    code: false,
                }),
                Err(e) => pattern::rejected(sig@, e),
            },
    {
        match Pattern::parse(sig) {
            Ok(pattern) => Ok(
                FindModule { proc: *self, pattern, module: module.to_owned(), code: false },
            ),
            Err(e) => Err(e),
        }
    }

    /// First match of `sig` within only the executable regions of `module`.
    ///
    /// This is what you want for code signatures, since data regions can
    /// contain coincidental byte matches.
    ///
    /// # Errors
    /// Anything [`Pattern::parse`] returns.
    pub fn scan_code(&self, module: &str, sig: &str) -> (r: Result<FindModule, Error>)
        ensures
            match r {
                Ok(next) => pattern::parsed(sig@, next@.pattern) && next@ == (ModuleSearch {
                    pid: self@,
                    pattern: next@.pattern,
                    module: module@,
                    code: true,
                }),
                Err(e) => pattern::rejected(sig@, e),
            },
    {
        match Pattern::parse(sig) {
            Ok(pattern) => Ok(
                FindModule { proc: *self, pattern, module: module.to_owned(), code: true },
            ),
            Err(e) => Err(e),
        }
    }

    /// Every match of `sig` across all readable regions (deduplicated,
    /// ascending).
    ///
    /// # Errors
    /// Anything [`Pattern::parse`] returns.
    pub fn scan_all(&self, sig: &str) -> (r: Result<ListAll, Error>)
        ensures
            match r {
                Ok(next) => pattern::parsed(sig@, next@),
                Err(e) => pattern::rejected(sig@, e),
            },
    {
        match Pattern::parse(sig) {
            Ok(pattern) => Ok(ListAll { pattern }),
            Err(e) => Err(e),
        }
    }

    /// Resolve an x86-64 RIP-relative reference.
    ///
    /// `instr_addr` is where the instruction starts, `disp_offset` is the byte
    /// offset of the `disp32` field within it, and `instr_len` is the full
    /// instruction length. Gives `instr_addr + instr_len + disp32`, i.e. the
    /// address the instruction points at. Typical use: find a
    /// `mov reg,[rip+x]` via [`scan`](Self::scan), then turn it into the
    /// absolute data address.
    pub fn resolve_rip(&self, instr_addr: usize, disp_offset: usize, instr_len: usize) -> (r: (
        ReadRequest,
        ResolveRip,
    ))
        ensures
            r.0 == (ReadRequest { addr: instr_addr.wrapping_add(disp_offset), len: 4 }),
            r.1@ == instr_addr.wrapping_add(instr_len),
    {
        (
            ReadRequest { addr: instr_addr.wrapping_add(disp_offset), len: 4 },
            ResolveRip { next_instr: instr_addr.wrapping_add(instr_len) },
        )
    }
}

/// The next region that a search looks at is the first one in its scope.
pub proof fn law_next_selected(scope: Scope, v: Seq<Region>, k: int)
    requires
        0 <= k <= v.len(),
    ensures
        match next_selected(scope, v, k) {
            Some(j) => k <= j < v.len() && selects(scope, v[j]) && forall|i: int|
                k <= i < j ==> !selects(scope, #[trigger] v[i]),
            None => forall|i: int| k <= i < v.len() ==> !selects(scope, #[trigger] v[i]),
        },
    decreases v.len() - k,
{
    if k < v.len() && !selects(scope, v[k]) {
        law_next_selected(scope, v, k + 1);
    }
}

/// What a search answers if `scan` gives the first match of each region.
pub open spec fn answer(scan: spec_fn(Region) -> Option<usize>, s: Search, from: int) -> Option<
    usize,
>
    decreases s.regions.len() - from,
    via answer_ends
{
    if from < 0 || from > s.regions.len() {
        None
    } else {
        match next_selected(s.scope, s.regions, from) {
            Some(k) => match scan(s.regions[k]) {
                Some(a) => Some(a),
                None => answer(scan, s, k + 1),
            },
            None => None,
        }
    }
}

#[via_fn]
proof fn answer_ends(scan: spec_fn(Region) -> Option<usize>, s: Search, from: int) {
    if 0 <= from <= s.regions.len() {
        law_next_selected(s.scope, s.regions, from);
    }
}

/// A search answers with the match of the first region in its scope that has
/// one, and with nothing only if none has.
pub proof fn law_search_takes_the_first_hit(
    scan: spec_fn(Region) -> Option<usize>,
    s: Search,
    from: int,
)
    requires
        0 <= from <= s.regions.len(),
    ensures
        match answer(scan, s, from) {
            Some(a) => exists|k: int|
                from <= k < s.regions.len() && selects(s.scope, #[trigger] s.regions[k]) && scan(
                    s.regions[k],
                ) == Some(a) && forall|i: int|
                    from <= i < k && selects(s.scope, #[trigger] s.regions[i]) ==> scan(
                        s.regions[i],
                    ) is None,
            None => forall|i: int|
                from <= i < s.regions.len() && selects(s.scope, #[trigger] s.regions[i]) ==> scan(
                    s.regions[i],
                ) is None,
        },
    decreases s.regions.len() - from,
{
    law_next_selected(s.scope, s.regions, from);
    match next_selected(s.scope, s.regions, from) {
        Some(k) => {
            if scan(s.regions[k]) is Some {
                assert(selects(s.scope, s.regions[k]));
            } else {
                law_search_takes_the_first_hit(scan, s, k + 1);
                if let Some(a) = answer(scan, s, k + 1) {
                    let j = choose|j: int|
                        k + 1 <= j < s.regions.len() && selects(s.scope, #[trigger] s.regions[j])
                            && scan(s.regions[j]) == Some(a) && forall|i: int|
                            k + 1 <= i < j && selects(s.scope, #[trigger] s.regions[i]) ==> scan(
                                s.regions[i],
                            ) is None;
                    assert forall|i: int|
                        from <= i < j && selects(s.scope, #[trigger] s.regions[i]) implies scan(
                        s.regions[i],
                    ) is None by {}
                    assert(selects(s.scope, s.regions[j]));
                }
            }
        },
        None => {},
    }
}

/// What a search for all matches collects if `scan` gives those of each region.
pub open spec fn collected(scan: spec_fn(Region) -> Set<usize>, s: SearchAll) -> Set<usize>
    decreases s.regions.len() - s.at,
{
    if s.at < s.regions.len() {
        collected(
            scan,
            SearchAll { at: s.at + 1, found: s.found.union(scan(s.regions[s.at])), ..s },
        )
    } else {
        s.found
    }
}

/// A search for all matches collects those of every region, and no others.
pub proof fn law_search_collects_every_region(
    scan: spec_fn(Region) -> Set<usize>,
    s: SearchAll,
    a: usize,
)
    requires
        0 <= s.at <= s.regions.len(),
    ensures
        collected(scan, s).contains(a) <==> s.found.contains(a) || exists|i: int|
            s.at <= i < s.regions.len() && scan(#[trigger] s.regions[i]).contains(a),
    decreases s.regions.len() - s.at,
{
    if s.at < s.regions.len() {
        let next = SearchAll { at: s.at + 1, found: s.found.union(scan(s.regions[s.at])), ..s };
        law_search_collects_every_region(scan, next, a);
        if exists|i: int| s.at <= i < s.regions.len() && scan(#[trigger] s.regions[i]).contains(a) {
            let i = choose|i: int|
                s.at <= i < s.regions.len() && scan(#[trigger] s.regions[i]).contains(a);
            assert(scan(s.regions[i]).contains(a));
            if i > s.at {
                assert(scan(next.regions[i]).contains(a));
            }
        }
        if exists|i: int|
            next.at <= i < next.regions.len() && scan(#[trigger] next.regions[i]).contains(a) {
            let i = choose|i: int|
                next.at <= i < next.regions.len() && scan(#[trigger] next.regions[i]).contains(a);
            assert(scan(s.regions[i]).contains(a));
        }
        if scan(s.regions[s.at]).contains(a) {
            assert(scan(s.regions[s.at]).contains(a));
        }
    }
}

/// Whether the regions are in the order of their addresses and do not overlap,
/// as the kernel lists them.
pub open spec fn laid_out(v: Seq<Region>) -> bool {
    forall|i: int, j: int|
        0 <= i < j < v.len() ==> (#[trigger] v[i]).end <= (#[trigger] v[j]).start
}

/// On the same memory and regions, [`Process::scan`] gives the first address that
/// [`Process::scan_all`] gives, and nothing if that gives none.
pub proof fn law_scan_gives_the_first_of_all(
    m: Map<int, u8>,
    p: Seq<Option<u8>>,
    regions: Seq<Region>,
    all: Seq<usize>,
)
    requires
        laid_out(regions),
        pattern::ascending(all),
        all.to_set() == collected(
            |r: Region| scan::region_hits(m, p, r),
            SearchAll { pattern: p, regions, at: 0, found: Set::empty() },
        ),
    ensures
        answer(
            |r: Region| scan::region_first(m, p, r),
            Search { pattern: p, scope: Scope::Everything, regions, at: 0 },
            0,
        ) == (if all.len() == 0 {
            None
        } else {
            Some(all[0])
        }),
{
    let hits = |r: Region| scan::region_hits(m, p, r);
    let first = |r: Region| scan::region_first(m, p, r);
    let s = Search { pattern: p, scope: Scope::Everything, regions, at: 0 };
    let t = SearchAll { pattern: p, regions, at: 0, found: Set::empty() };
    law_search_takes_the_first_hit(first, s, 0);
    assert forall|i: int| 0 <= i < regions.len() implies selects(
        s.scope,
        #[trigger] s.regions[i],
    ) by {}
    if all.len() > 0 {
        assert(all.contains(all[0]));
        assert(all.to_set().contains(all[0]));
        law_search_collects_every_region(hits, t, all[0]);
        let j = choose|j: int|
            0 <= j < regions.len() && hits(#[trigger] regions[j]).contains(all[0]);
        scan::law_region_first_is_lowest(m, p, regions[j]);
        assert(scan::region_hits(m, p, regions[j]).contains(all[0]));
        assert(first(s.regions[j]) is Some);
        let a = answer(first, s, 0)->0;
        let k = choose|k: int|
            0 <= k < s.regions.len() && selects(s.scope, #[trigger] s.regions[k]) && first(
                s.regions[k],
            ) == Some(a) && forall|i: int|
                0 <= i < k && selects(s.scope, #[trigger] s.regions[i]) ==> first(
                    s.regions[i],
                ) is None;
        scan::law_region_first_is_lowest(m, p, regions[k]);
        assert(hits(regions[k]).contains(a));
        law_search_collects_every_region(hits, t, a);
        assert(all.to_set().contains(a));
        let x = all.index_of(a);
        assert(all[0] <= all[x]);
        assert(selects(s.scope, s.regions[j]));
        assert(k <= j);
        if k < j {
            assert(regions[k].end <= regions[j].start);
        }
    } else if answer(first, s, 0) is Some {
        let a = answer(first, s, 0)->0;
        let k = choose|k: int|
            0 <= k < s.regions.len() && selects(s.scope, #[trigger] s.regions[k]) && first(
                s.regions[k],
            ) == Some(a) && forall|i: int|
                0 <= i < k && selects(s.scope, #[trigger] s.regions[i]) ==> first(
                    s.regions[i],
                ) is None;
        scan::law_region_first_is_lowest(m, p, regions[k]);
        assert(hits(regions[k]).contains(a));
        law_search_collects_every_region(hits, t, a);
        assert(all.to_set().contains(a));
    }
}

/// What a search answers does not depend on the region that it has got to.
proof fn lemma_answer_at(
    scan: spec_fn(Region) -> Option<usize>,
    s: Search,
    at: int,
    from: int,
)
    ensures
        answer(scan, Search { at, ..s }, from) == answer(scan, s, from),
    decreases s.regions.len() - from,
{
    if 0 <= from <= s.regions.len() {
        law_next_selected(s.scope, s.regions, from);
        if let Some(k) = next_selected(s.scope, s.regions, from) {
            lemma_answer_at(scan, s, at, k + 1);
        }
    }
}

/// Each step of a search for the first match leads to its answer: the last one
/// gives it, and any other asks for the region that it depends on next.
pub proof fn law_search_steps(
    scan: spec_fn(Region) -> Option<usize>,
    s: Search,
    from: int,
    r: Step<MapRegion, Scan, Result<Option<usize>, Error>>,
)
    requires
        0 <= from <= s.regions.len(),
        goes_on(r, s, from),
    ensures
        match r {
            Step::Do(region, next) => {
                &&& from <= next@.at < s.regions.len()
                &&& next@ == (Search { at: next@.at, ..s })
                &&& region@ == s.regions[next@.at]
                &&& answer(scan, s, from) == (match scan(region@) {
                    Some(a) => Some(a),
                    None => answer(scan, next@, next@.at + 1),
                })
            },
            Step::Done(Ok(found)) => found == answer(scan, s, from),
            Step::Done(Err(_)) => false,
        },
{
    law_next_selected(s.scope, s.regions, from);
    if let Some(k) = next_selected(s.scope, s.regions, from) {
        lemma_answer_at(scan, s, k, k + 1);
    }
}

/// Each step of a search for all matches leads to what it collects: the last one
/// gives it, and any other asks for the region that comes next.
pub proof fn law_search_all_steps(
    scan: spec_fn(Region) -> Set<usize>,
    s: SearchAll,
    r: Step<MapRegion, ScanAll, Result<Vec<usize>, Error>>,
)
    requires
        0 <= s.at,
        goes_on_with_all(r, s),
    ensures
        match r {
            Step::Do(region, next) => next@ == s && region@ == s.regions[s.at] && collected(scan, s)
                == collected(
                scan,
                SearchAll {
                    at: next@.at + 1,
                    found: next@.found.union(scan(region@)),
                    ..next@
                },
            ),
            Step::Done(Ok(v)) => pattern::ascending(v@) && v@.to_set() == collected(scan, s),
            Step::Done(Err(_)) => false,
        },
{
}

/// Whether the scan of a region for the first match gives `found` on memory `m`.
pub open spec fn region_gives(
    m: Map<int, u8>,
    region: MapRegion,
    pattern: &Pattern,
    found: Option<usize>,
) -> bool {
    exists|
        proc: &Process,
        r: Step<ReadRequest, RegionScan<'_>, Result<Option<usize>, Error>>,
        n: nat,
    | #[trigger]
        call_ensures(Process::scan_region, (proc, &region, pattern), r) && #[trigger] scan::ends_with(
            m,
            r,
            n,
            found,
        )
}

/// Whether the scan of a region for all matches gives `found` on memory `m`.
pub open spec fn region_gives_all(
    m: Map<int, u8>,
    region: MapRegion,
    pattern: &Pattern,
    found: Seq<usize>,
) -> bool {
    exists|
        proc: &Process,
        r: Step<ReadRequest, RegionScanAll<'_>, Result<Vec<usize>, Error>>,
        n: nat,
    | #[trigger]
        call_ensures(Process::scan_region_all, (proc, &region, pattern), r)
            && #[trigger] scan::ends_with_all(m, r, n, found)
}

/// Whether a search for the first match, with its regions scanned in memory `m`,
/// ends within `n` regions and gives `found`.
pub open spec fn ends_with(
    m: Map<int, u8>,
    r: Step<MapRegion, Scan, Result<Option<usize>, Error>>,
    n: nat,
    found: Option<usize>,
) -> bool
    decreases n,
{
    match r {
        Step::Done(x) => x == Ok::<Option<usize>, Error>(found),
        Step::Do(region, s) => n > 0 && exists|
            pattern: &Pattern,
            hit: Option<usize>,
            next: Step<MapRegion, Scan, Result<Option<usize>, Error>>,
        |
            #![trigger call_ensures(Scan::pattern, (&s,), pattern), call_ensures(Scan::resume, (s, Ok::<Option<usize>, Error>(hit)), next)]
            call_ensures(Scan::pattern, (&s,), pattern) && region_gives(m, region, pattern, hit)
                && call_ensures(
                Scan::resume,
                (s, Ok::<Option<usize>, Error>(hit)),
                next,
            ) && ends_with(m, next, (n - 1) as nat, found),
    }
}

/// Whether a search for all matches, with its regions scanned in memory `m`, ends
/// within `n` regions and gives `found`.
pub open spec fn ends_with_all(
    m: Map<int, u8>,
    r: Step<MapRegion, ScanAll, Result<Vec<usize>, Error>>,
    n: nat,
    found: Seq<usize>,
) -> bool
    decreases n,
{
    match r {
        Step::Done(x) => x matches Ok(v) && v@ == found,
        Step::Do(region, s) => n > 0 && exists|
            pattern: &Pattern,
            hits: Vec<usize>,
            next: Step<MapRegion, ScanAll, Result<Vec<usize>, Error>>,
        |
            #![trigger call_ensures(ScanAll::pattern, (&s,), pattern), call_ensures(ScanAll::resume, (s, Ok::<Vec<usize>, Error>(hits)), next)]
            call_ensures(ScanAll::pattern, (&s,), pattern) && region_gives_all(
                m,
                region,
                pattern,
                hits@,
            ) && call_ensures(
                ScanAll::resume,
                (s, Ok::<Vec<usize>, Error>(hits)),
                next,
            ) && ends_with_all(m, next, (n - 1) as nat, found),
    }
}

/// Whether `found` is what a search that looks at the regions `wanted` picks has
/// to give on memory `m`: the first match of the first of those regions that has
/// one. There is none only if no such region has a visible match.
pub open spec fn is_first_of(
    m: Map<int, u8>,
    p: Seq<Option<u8>>,
    v: Seq<Region>,
    from: int,
    wanted: spec_fn(Region) -> bool,
    found: Option<usize>,
) -> bool {
    match found {
        Some(a) => exists|k: int|
            from <= k < v.len() && wanted(#[trigger] v[k]) && scan::is_first_match(
                m,
                p,
                v[k],
                Some(a),
            ) && forall|i: int|
                from <= i < k && wanted(#[trigger] v[i]) ==> scan::is_first_match(m, p, v[i], None),
        None => forall|i: int|
            from <= i < v.len() && wanted(#[trigger] v[i]) ==> scan::is_first_match(
                m,
                p,
                v[i],
                None,
            ),
    }
}

/// Whether the permissions of the regions are written in ASCII, as the kernel
/// writes them.
pub open spec fn ascii_perms(v: Seq<Region>) -> bool {
    forall|i: int| 0 <= i < v.len() ==> vstd::utf8::is_ascii_chars((#[trigger] v[i]).perms)
}

proof fn lemma_ends_with(
    m: Map<int, u8>,
    r: Step<MapRegion, Scan, Result<Option<usize>, Error>>,
    s: Search,
    from: int,
    wanted: spec_fn(Region) -> bool,
    n: nat,
    found: Option<usize>,
)
    requires
        0 <= from <= s.regions.len(),
        ascii_perms(s.regions),
        goes_on(r, s, from),
        forall|i: int|
            0 <= i < s.regions.len() ==> (wanted(#[trigger] s.regions[i]) <==> selects(
                s.scope,
                s.regions[i],
            )),
        ends_with(m, r, n, found),
    ensures
        is_first_of(m, s.pattern, s.regions, from, wanted, found),
    decreases n,
{
    let v = s.regions;
    let p = s.pattern;
    law_next_selected(s.scope, v, from);
    if let Step::Do(region, t) = r {
        let k = next_selected(s.scope, v, from)->0;
        let (pattern, hit, next) = choose|
            pattern: &Pattern,
            hit: Option<usize>,
            next: Step<MapRegion, Scan, Result<Option<usize>, Error>>,
        |
            #![trigger call_ensures(Scan::pattern, (&t,), pattern), call_ensures(Scan::resume, (t, Ok::<Option<usize>, Error>(hit)), next)]
            call_ensures(Scan::pattern, (&t,), pattern) && region_gives(m, region, pattern, hit)
                && call_ensures(
                Scan::resume,
                (t, Ok::<Option<usize>, Error>(hit)),
                next,
            ) && ends_with(m, next, (n - 1) as nat, found);
        let (proc, q, j) = choose|
            proc: &Process,
            q: Step<ReadRequest, RegionScan<'_>, Result<Option<usize>, Error>>,
            j: nat,
        | #[trigger]
            call_ensures(Process::scan_region, (proc, &region, pattern), q)
                && #[trigger] scan::ends_with(m, q, j, hit);
        assert(region@ == v[k]);
        scan::law_scan_region_gives_the_first_match(m, proc, &region, pattern, q, j, hit);
        assert(pattern@ == p);
        if hit is None {
            let u = Search { at: k, ..s };
            lemma_ends_with(m, next, u, k + 1, wanted, (n - 1) as nat, found);
            if let Some(a) = found {
                let x = choose|x: int|
                    k + 1 <= x < v.len() && wanted(#[trigger] v[x]) && scan::is_first_match(
                        m,
                        p,
                        v[x],
                        Some(a),
                    ) && forall|i: int|
                        k + 1 <= i < x && wanted(#[trigger] v[i]) ==> scan::is_first_match(
                            m,
                            p,
                            v[i],
                            None,
                        );
                assert(wanted(v[x]));
                assert forall|i: int| from <= i < x && wanted(#[trigger] v[i]) implies scan::is_first_match(
                m, p, v[i], None) by {}
            }
        } else {
            assert(wanted(v[k]));
            assert(scan::is_first_match(m, p, v[k], found));
        }
    }
}

/// A search of the whole process looks at every region that can be read, in the
/// order of the listing, and gives the first match that it comes to.
pub proof fn law_scan_looks_everywhere(
    m: Map<int, u8>,
    p: &Process,
    sig: &str,
    list: ListRegions,
    v: Vec<MapRegion>,
    r: Step<MapRegion, Scan, Result<Option<usize>, Error>>,
    n: nat,
    found: Option<usize>,
)
    requires
        ascii_perms(maps::region_views(v@)),
        call_ensures(Process::scan, (p, sig), Ok::<ListRegions, Error>(list)),
        call_ensures(ListRegions::resume, (list, Ok::<Vec<MapRegion>, Error>(v)), r),
        ends_with(m, r, n, found),
    ensures
        pattern::parsed(sig@, list@.0),
        is_first_of(m, list@.0, maps::region_views(v@), 0, |x: Region| true, found),
{
    let s = Search {
        pattern: list@.0,
        scope: list@.1,
        regions: maps::region_views(v@),
        at: 0,
    };
    lemma_ends_with(m, r, s, 0, |x: Region| true, n, found);
}

/// Whether a module spans from `base` to `end`: the least start and the greatest
/// end of the regions that its file backs.
pub open spec fn module_spans(v: Seq<Region>, module: Seq<char>, base: usize, end: usize) -> bool {
    &&& exists|i: int|
        0 <= i < v.len() && maps::backed_by(#[trigger] v[i], module) && v[i].start == base
    &&& exists|i: int|
        0 <= i < v.len() && maps::backed_by(#[trigger] v[i], module) && v[i].end == end
    &&& forall|i: int|
        0 <= i < v.len() && maps::backed_by(#[trigger] v[i], module) ==> base <= v[i].start
            && v[i].end <= end
}

pub(crate) proof fn lemma_module_spans(v: Seq<Region>, module: Seq<char>, base: usize, end: usize)
    requires
        maps::spans(v, |x: Region| x.is_of(module), base, end),
    ensures
        module_spans(v, module, base, end),
{
    let pick = |x: Region| x.is_of(module);
    assert forall|i: int| 0 <= i < v.len() implies (maps::backed_by(#[trigger] v[i], module)
        <==> pick(v[i])) by {
        maps::lemma_backed_by(v[i], module);
    }
    let a = choose|a: int| 0 <= a < v.len() && pick(#[trigger] v[a]) && v[a].start == base;
    let b = choose|b: int| 0 <= b < v.len() && pick(#[trigger] v[b]) && v[b].end == end;
    assert(maps::backed_by(v[a], module) && maps::backed_by(v[b], module));
    assert forall|i: int| 0 <= i < v.len() && maps::backed_by(#[trigger] v[i], module) implies base
        <= v[i].start && v[i].end <= end by {
        assert(pick(v[i]));
    }
}

/// A search in a module looks at every region with a path that lies within the
/// span of the module's own, and can be read, whatever its other rights; it gives
/// the first match that it comes to. So it gives nothing only if none of those
/// regions holds a match, and the regions that the module's file backs are among
/// them.
pub proof fn law_scan_module_looks_at_every_mapped_file(
    m: Map<int, u8>,
    p: &Process,
    module: &str,
    sig: &str,
    find: FindModule,
    v: Vec<MapRegion>,
    list: ListRegions,
    r: Step<MapRegion, Scan, Result<Option<usize>, Error>>,
    n: nat,
    found: Option<usize>,
)
    requires
        ascii_perms(maps::region_views(v@)),
        maps::has_extent(maps::region_views(v@), |x: Region| x.is_of(module@)),
        call_ensures(Process::scan_module, (p, module, sig), Ok::<FindModule, Error>(find)),
        call_ensures(
            FindModule::resume,
            (find, Ok::<Vec<MapRegion>, Error>(v)),
            Ok::<ListRegions, Error>(list),
        ),
        call_ensures(ListRegions::resume, (list, Ok::<Vec<MapRegion>, Error>(v)), r),
        ends_with(m, r, n, found),
    ensures
        pattern::parsed(sig@, list@.0),
        exists|base: usize, end: usize|
            #[trigger] module_spans(maps::region_views(v@), module@, base, end) && is_first_of(
                m,
                list@.0,
                maps::region_views(v@),
                0,
                |x: Region| x.path is Some && base <= x.start && x.end <= end,
                found,
            ),
        found is None ==> forall|i: int|
            0 <= i < v@.len() && maps::backed_by((#[trigger] v@[i])@, module@)
                ==> scan::is_first_match(m, list@.0, v@[i]@, None),
{
    let regions = maps::region_views(v@);
    let wanted = |x: Region| x.is_of(module@);
    assert(wanted =~= (|x: Region| x.is_of(find@.module)));
    let (base, end) = choose|base: usize, end: usize|
        #[trigger] maps::spans(regions, wanted, base, end) && list@.1 == (Scope::Module {
            base,
            end,
        });
    lemma_module_spans(regions, module@, base, end);
    let s = Search { pattern: list@.0, scope: list@.1, regions, at: 0 };
    let pick = |x: Region| x.path is Some && base <= x.start && x.end <= end;
    lemma_ends_with(m, r, s, 0, pick, n, found);
    assert(module_spans(regions, module@, base, end) && is_first_of(
        m,
        list@.0,
        regions,
        0,
        pick,
        found,
    ));
    if found is None {
        assert forall|i: int|
            0 <= i < v@.len() && maps::backed_by((#[trigger] v@[i])@, module@) implies scan::is_first_match(
        m, list@.0, v@[i]@, None) by {
            assert(regions[i] == v@[i]@);
            assert(pick(regions[i]));
        }
    }
}

/// A search in the code of a module looks at every region that can be executed and
/// read and lies within the span of the module's own, and gives the first match
/// that it comes to.
pub proof fn law_scan_code_looks_at_all_code(
    m: Map<int, u8>,
    p: &Process,
    module: &str,
    sig: &str,
    find: FindModule,
    v: Vec<MapRegion>,
    list: ListRegions,
    r: Step<MapRegion, Scan, Result<Option<usize>, Error>>,
    n: nat,
    found: Option<usize>,
)
    requires
        ascii_perms(maps::region_views(v@)),
        maps::has_extent(maps::region_views(v@), |x: Region| x.is_of(module@)),
        call_ensures(Process::scan_code, (p, module, sig), Ok::<FindModule, Error>(find)),
        call_ensures(
            FindModule::resume,
            (find, Ok::<Vec<MapRegion>, Error>(v)),
            Ok::<ListRegions, Error>(list),
        ),
        call_ensures(ListRegions::resume, (list, Ok::<Vec<MapRegion>, Error>(v)), r),
        ends_with(m, r, n, found),
    ensures
        pattern::parsed(sig@, list@.0),
        exists|base: usize, end: usize|
            #[trigger] module_spans(maps::region_views(v@), module@, base, end) && is_first_of(
                m,
                list@.0,
                maps::region_views(v@),
                0,
                |x: Region|
                    x.perms.len() > 2 && x.perms[2] == 'x' && base <= x.start && x.end <= end,
                found,
            ),
{
    let regions = maps::region_views(v@);
    let wanted = |x: Region| x.is_of(module@);
    assert(wanted =~= (|x: Region| x.is_of(find@.module)));
    let (base, end) = choose|base: usize, end: usize|
        #[trigger] maps::spans(regions, wanted, base, end) && list@.1 == (Scope::Code {
            base,
            end,
        });
    lemma_module_spans(regions, module@, base, end);
    let s = Search { pattern: list@.0, scope: list@.1, regions, at: 0 };
    let pick = |x: Region|
        x.perms.len() > 2 && x.perms[2] == 'x' && base <= x.start && x.end <= end;
    assert forall|i: int| 0 <= i < regions.len() implies (pick(#[trigger] regions[i]) <==> selects(
        s.scope,
        regions[i],
    )) by {
        maps::law_ascii_perms(regions[i].perms, 2, 0x78);
    }
    lemma_ends_with(m, r, s, 0, pick, n, found);
    assert(module_spans(regions, module@, base, end) && is_first_of(
        m,
        list@.0,
        regions,
        0,
        pick,
        found,
    ));
}

/// A search in a module that no region is backed by fails with the module's name,
/// and one in a module that is mapped does not.
pub proof fn law_search_needs_its_module(
    find: FindModule,
    v: Vec<MapRegion>,
    r: Result<ListRegions, Error>,
)
    requires
        maps::has_extent(maps::region_views(v@), |x: Region| x.is_of(find@.module)),
        call_ensures(FindModule::resume, (find, Ok::<Vec<MapRegion>, Error>(v)), r),
    ensures
        match r {
            Ok(_) => exists|i: int|
                0 <= i < v@.len() && maps::backed_by((#[trigger] v@[i])@, find@.module),
            Err(Error::ModuleNotFound { module, pid }) => {
                &&& module@ == find@.module
                &&& pid == find@.pid
                &&& forall|i: int|
                    0 <= i < v@.len() ==> !maps::backed_by((#[trigger] v@[i])@, find@.module)
            },
            Err(_) => false,
        },
{
    let regions = maps::region_views(v@);
    let wanted = |x: Region| x.is_of(find@.module);
    assert forall|i: int| 0 <= i < v@.len() implies (maps::backed_by(
        (#[trigger] v@[i])@,
        find@.module,
    ) <==> wanted(regions[i])) by {
        assert(regions[i] == v@[i]@);
        maps::lemma_backed_by(v@[i]@, find@.module);
    }
    if maps::any(regions, wanted) {
        let i = choose|i: int| 0 <= i < regions.len() && wanted(#[trigger] regions[i]);
        assert(maps::backed_by(v@[i]@, find@.module));
    }
}

/// Whether `found` are the matches of regions of memory `m`, together with those of
/// `before`: in ascending order, each of them a match of a region, and every
/// visible one among them.
pub open spec fn are_all_of(
    m: Map<int, u8>,
    p: Seq<Option<u8>>,
    v: Seq<Region>,
    from: int,
    before: Set<usize>,
    found: Seq<usize>,
) -> bool {
    &&& pattern::ascending(found)
    &&& forall|a: usize| #[trigger]
        found.contains(a) ==> before.contains(a) || exists|i: int|
            from <= i < v.len() && matched_in(m, p, #[trigger] v[i], a)
    &&& forall|a: usize| before.contains(a) ==> #[trigger] found.contains(a)
    &&& forall|a: usize, i: int|
        from <= i < v.len() && scan::visible(m, p, v[i], a as int) && #[trigger] matched_in(
            m,
            p,
            v[i],
            a,
        ) ==> found.contains(a)
}

/// Whether a region can be read and the pattern matches at `a` in it.
pub open spec fn matched_in(m: Map<int, u8>, p: Seq<Option<u8>>, r: Region, a: usize) -> bool {
    &&& scan::letters_readable(r)
    &&& p.len() > 0
    &&& r.start <= a && a + p.len() <= r.end
    &&& scan::found_at(m, p, a as int)
}

proof fn lemma_ends_with_all(
    m: Map<int, u8>,
    r: Step<MapRegion, ScanAll, Result<Vec<usize>, Error>>,
    s: SearchAll,
    n: nat,
    found: Seq<usize>,
)
    requires
        0 <= s.at <= s.regions.len(),
        ascii_perms(s.regions),
        goes_on_with_all(r, s),
        ends_with_all(m, r, n, found),
    ensures
        are_all_of(m, s.pattern, s.regions, s.at, s.found, found),
    decreases n,
{
    let v = s.regions;
    let p = s.pattern;
    match r {
        Step::Done(_) => {
            assert forall|a: usize| #[trigger] found.contains(a) <==> s.found.contains(a) by {
                assert(found.to_set().contains(a) <==> found.contains(a));
            }
        },
        Step::Do(region, t) => {
            let (pattern, hits, next) = choose|
                pattern: &Pattern,
                hits: Vec<usize>,
                next: Step<MapRegion, ScanAll, Result<Vec<usize>, Error>>,
            |
                #![trigger call_ensures(ScanAll::pattern, (&t,), pattern), call_ensures(ScanAll::resume, (t, Ok::<Vec<usize>, Error>(hits)), next)]
                call_ensures(ScanAll::pattern, (&t,), pattern) && region_gives_all(
                    m,
                    region,
                    pattern,
                    hits@,
                ) && call_ensures(
                    ScanAll::resume,
                    (t, Ok::<Vec<usize>, Error>(hits)),
                    next,
                ) && ends_with_all(m, next, (n - 1) as nat, found);
            let (proc, q, j) = choose|
                proc: &Process,
                q: Step<ReadRequest, RegionScanAll<'_>, Result<Vec<usize>, Error>>,
                j: nat,
            | #[trigger]
                call_ensures(Process::scan_region_all, (proc, &region, pattern), q)
                    && #[trigger] scan::ends_with_all(m, q, j, hits@);
            scan::law_scan_region_all_gives_every_match(m, proc, &region, pattern, q, j, hits@);
            assert(pattern@ == p && region@ == v[s.at]);
            let u = SearchAll { at: s.at + 1, found: s.found.union(hits@.to_set()), ..s };
            lemma_ends_with_all(m, next, u, (n - 1) as nat, found);
            lemma_one_more_region(m, p, v, s.at, s.found, hits@, found);
        },
    }
}

proof fn lemma_one_more_region(
    m: Map<int, u8>,
    p: Seq<Option<u8>>,
    v: Seq<Region>,
    at: int,
    before: Set<usize>,
    hits: Seq<usize>,
    found: Seq<usize>,
)
    requires
        0 <= at < v.len(),
        scan::are_matches(m, p, v[at], hits),
        are_all_of(m, p, v, at + 1, before.union(hits.to_set()), found),
    ensures
        are_all_of(m, p, v, at, before, found),
{
    let both = before.union(hits.to_set());
    assert forall|a: usize| #[trigger] hits.contains(a) implies hits.to_set().contains(a) by {}
    assert forall|a: usize| #[trigger] found.contains(a) implies before.contains(a) || exists|i: int|
        at <= i < v.len() && matched_in(m, p, #[trigger] v[i], a) by {
        if both.contains(a) {
            if !before.contains(a) {
                assert(hits.contains(a));
                assert(matched_in(m, p, v[at], a));
            }
        } else {
            let i = choose|i: int| at + 1 <= i < v.len() && matched_in(m, p, #[trigger] v[i], a);
            assert(matched_in(m, p, v[i], a));
        }
    }
    assert forall|a: usize| before.contains(a) implies #[trigger] found.contains(a) by {
        assert(both.contains(a));
    }
    assert forall|a: usize, i: int|
        at <= i < v.len() && scan::visible(m, p, v[i], a as int) && #[trigger] matched_in(
            m,
            p,
            v[i],
            a,
        ) implies found.contains(a) by {
        if i == at {
            assert(hits.contains(a));
            assert(both.contains(a));
        }
    }
}

/// A search for all matches gives each match of each region that can be read, once
/// and in ascending order, and nothing else.
pub proof fn law_scan_all_gives_every_match(
    m: Map<int, u8>,
    p: &Process,
    sig: &str,
    list: ListAll,
    v: Vec<MapRegion>,
    r: Step<MapRegion, ScanAll, Result<Vec<usize>, Error>>,
    n: nat,
    found: Seq<usize>,
)
    requires
        ascii_perms(maps::region_views(v@)),
        call_ensures(Process::scan_all, (p, sig), Ok::<ListAll, Error>(list)),
        call_ensures(ListAll::resume, (list, Ok::<Vec<MapRegion>, Error>(v)), r),
        ends_with_all(m, r, n, found),
    ensures
        pattern::parsed(sig@, list@),
        are_all_of(m, list@, maps::region_views(v@), 0, Set::empty(), found),
{
    let s = SearchAll {
        pattern: list@,
        regions: maps::region_views(v@),
        at: 0,
        found: Set::empty(),
    };
    lemma_ends_with_all(m, r, s, n, found);
}

/// A reference relative to the instruction pointer leads to the end of its
/// instruction and as much further as the signed number in its four bytes says,
/// around the address space.
pub proof fn law_rip_reference_counts_from_the_end(
    p: &Process,
    instr_addr: usize,
    disp_offset: usize,
    instr_len: usize,
    started: (ReadRequest, ResolveRip),
    b: Vec<u8>,
    r: Result<usize, Error>,
)
    requires
        call_ensures(Process::resolve_rip, (p, instr_addr, disp_offset, instr_len), started),
        b@.len() == 4,
        call_ensures(ResolveRip::resume, (started.1, Ok::<Vec<u8>, Error>(b)), r),
    ensures
        started.0.addr == (instr_addr + disp_offset) % (usize::MAX + 1),
        started.0.len == 4,
        r matches Ok(a) && a == (instr_addr + instr_len + machine::i32_at(b@, 0)) % (usize::MAX
            + 1),
{
    bytes::lemma_wraps(instr_addr, disp_offset);
    bytes::lemma_wraps(instr_addr, instr_len);
    bytes::law_places(b@);
    let d = machine::i32_at(b@, 0);
    assert(bytes::signed32(bytes::le_value(b@)) == d);
    let m = usize::MAX + 1;
    let x = instr_addr.wrapping_add(instr_len) as int;
    let a = r->Ok_0 as int;
    assert(a == x + d || a == x + d - m || a == x + d + m);
    vstd::arithmetic::div_mod::lemma_small_mod(a as nat, m as nat);
    if a == x + d - m {
        vstd::arithmetic::div_mod::lemma_mod_multiples_vanish(1, a, m);
    } else if a == x + d + m {
        vstd::arithmetic::div_mod::lemma_mod_multiples_vanish(-1, a, m);
    }
    assert((x + d) % m == a);
    vstd::arithmetic::div_mod::lemma_add_mod_noop(instr_addr + instr_len, d, m);
    vstd::arithmetic::div_mod::lemma_add_mod_noop(x, d, m);
    vstd::arithmetic::div_mod::lemma_small_mod(x as nat, m as nat);
}

/// An error on the way ends a search, and is what comes of it.
pub proof fn law_errors_end_a_search(
    e: Error,
    find: FindModule,
    found: Result<ListRegions, Error>,
    list: ListRegions,
    listed: Step<MapRegion, Scan, Result<Option<usize>, Error>>,
    scan: Scan,
    scanned: Step<MapRegion, Scan, Result<Option<usize>, Error>>,
    all: ListAll,
    listed_all: Step<MapRegion, ScanAll, Result<Vec<usize>, Error>>,
    scan_all: ScanAll,
    scanned_all: Step<MapRegion, ScanAll, Result<Vec<usize>, Error>>,
    rip: ResolveRip,
    resolved: Result<usize, Error>,
)
    requires
        call_ensures(FindModule::resume, (find, Err::<Vec<MapRegion>, Error>(e)), found),
        call_ensures(ListRegions::resume, (list, Err::<Vec<MapRegion>, Error>(e)), listed),
        call_ensures(Scan::resume, (scan, Err::<Option<usize>, Error>(e)), scanned),
        call_ensures(ListAll::resume, (all, Err::<Vec<MapRegion>, Error>(e)), listed_all),
        call_ensures(ScanAll::resume, (scan_all, Err::<Vec<usize>, Error>(e)), scanned_all),
        call_ensures(ResolveRip::resume, (rip, Err::<Vec<u8>, Error>(e)), resolved),
    ensures
        found == Err::<ListRegions, Error>(e),
        listed == Step::<MapRegion, Scan, Result<Option<usize>, Error>>::Done(Err(e)),
        scanned == Step::<MapRegion, Scan, Result<Option<usize>, Error>>::Done(Err(e)),
        listed_all == Step::<MapRegion, ScanAll, Result<Vec<usize>, Error>>::Done(Err(e)),
        scanned_all == Step::<MapRegion, ScanAll, Result<Vec<usize>, Error>>::Done(Err(e)),
        resolved == Err::<usize, Error>(e),
{
}

/// A search looks for the pattern of its signature, in the process that it was
/// started in, and a bad signature is rejected before anything is read.
pub proof fn law_searches_parse_their_signature(
    p: &Process,
    module: &str,
    sig: &str,
    parsed: Result<Pattern, Error>,
    scan: Result<ListRegions, Error>,
    in_module: Result<FindModule, Error>,
    in_code: Result<FindModule, Error>,
    all: Result<ListAll, Error>,
)
    requires
        call_ensures(Pattern::parse, (sig,), parsed),
        call_ensures(Process::scan, (p, sig), scan),
        call_ensures(Process::scan_module, (p, module, sig), in_module),
        call_ensures(Process::scan_code, (p, module, sig), in_code),
        call_ensures(Process::scan_all, (p, sig), all),
    ensures
        match parsed {
            Ok(q) => {
                &&& scan matches Ok(s) && s@.0 == q@
                &&& in_module matches Ok(s) && s@.pattern == q@ && s@.pid == p@ && s@.module
                    == module@
                &&& in_code matches Ok(s) && s@.pattern == q@ && s@.pid == p@ && s@.module
                    == module@
                &&& all matches Ok(s) && s@ == q@
            },
            Err(_) => scan is Err && in_module is Err && in_code is Err && all is Err,
        },
{
    match parsed {
        Ok(q) => {
            let none = Error::InvalidPattern(arbitrary());
            pattern::law_parse_is_decided(sig@, q@, q@, none);
            match scan {
                Ok(s) => pattern::law_parse_is_decided(sig@, q@, s@.0, none),
                Err(e) => pattern::law_parse_is_decided(sig@, q@, q@, e),
            }
            match in_module {
                Ok(s) => pattern::law_parse_is_decided(sig@, q@, s@.pattern, none),
                Err(e) => pattern::law_parse_is_decided(sig@, q@, q@, e),
            }
            match in_code {
                Ok(s) => pattern::law_parse_is_decided(sig@, q@, s@.pattern, none),
                Err(e) => pattern::law_parse_is_decided(sig@, q@, q@, e),
            }
            match all {
                Ok(s) => pattern::law_parse_is_decided(sig@, q@, s@, none),
                Err(e) => pattern::law_parse_is_decided(sig@, q@, q@, e),
            }
        },
        Err(e) => {
            if let Ok(s) = scan {
                pattern::law_parse_is_decided(sig@, s@.0, s@.0, e);
            }
            if let Ok(s) = in_module {
                pattern::law_parse_is_decided(sig@, s@.pattern, s@.pattern, e);
            }
            if let Ok(s) = in_code {
                pattern::law_parse_is_decided(sig@, s@.pattern, s@.pattern, e);
            }
            if let Ok(s) = all {
                pattern::law_parse_is_decided(sig@, s@, s@, e);
            }
        },
    }
}

} // verus!
