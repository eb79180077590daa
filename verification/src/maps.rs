//! Parsing `/proc/<pid>/maps` into [`MapRegion`]s and resolving [`Module`]s.
use vstd::prelude::*;
use vstd::slice::slice_subrange;

use crate::error::{Error, IoError};
use crate::process;
use crate::process::Process;
use crate::text;

verus! {

/// One line of `/proc/<pid>/maps`: a single contiguous virtual-memory region.
#[derive(Debug)]
pub struct MapRegion {
    /// First address of the region (inclusive).
    pub start: usize,
    /// One past the last address of the region (exclusive).
    pub end: usize,
    /// The four permission characters, e.g. `"r-xp"` (read, write, execute,
    /// private/shared).
    pub perms: String,
    /// Backing file path, if the region is file-backed; `None` for anonymous
    /// mappings and special regions like `[heap]` or `[stack]`.
    pub path: Option<String>,
}

/// A region with its texts as sequences.
#[verifier::ext_equal]
pub struct Region {
    pub start: usize,
    pub end: usize,
    pub perms: Seq<char>,
    pub path: Option<Seq<char>>,
}

impl View for MapRegion {
    type V = Region;

    open spec fn view(&self) -> Region {
        Region {
            start: self.start,
            end: self.end,
            perms: self.perms@,
            path: match self.path {
                Some(p) => Some(p@),
                None => None,
            },
        }
    }
}

impl Clone for MapRegion {
    fn clone(&self) -> (r: Self)
        ensures
            r@ == self@,
    {
        MapRegion {
            start: self.start,
            end: self.end,
            perms: self.perms.as_str().to_owned(),
            path: match &self.path {
                Some(p) => Some(p.as_str().to_owned()),
                None => None,
            },
        }
    }
}

/// The views of regions.
pub open spec fn region_views(v: Seq<MapRegion>) -> Seq<Region> {
    v.map_values(|r: MapRegion| r@)
}

/// Whether byte `i` of the permissions is `b`.
pub open spec fn has_perm(perms: Seq<char>, i: int, b: u8) -> bool {
    let bytes = vstd::utf8::encode_utf8(perms);
    i < bytes.len() && bytes[i] == b
}

impl Region {
    /// Whether the region is readable.
    pub open spec fn readable(self) -> bool {
        has_perm(self.perms, 0, 0x72)
    }

    /// Whether the region is writable.
    pub open spec fn writable(self) -> bool {
        has_perm(self.perms, 1, 0x77)
    }

    /// Whether the region is executable.
    pub open spec fn executable(self) -> bool {
        has_perm(self.perms, 2, 0x78)
    }

    /// Whether a file of that name backs the region.
    pub open spec fn is_of(self, name: Seq<char>) -> bool {
        self.path matches Some(p) && text::basename(p) == name
    }

    /// Whether the file at that path backs the region.
    pub open spec fn is_at(self, path: Seq<char>) -> bool {
        self.path == Some(path)
    }

    /// Whether a file given by its full path backs the region.
    pub open spec fn file_backed(self) -> bool {
        self.path matches Some(p) && p.len() > 0 && p[0] == '/'
    }
}

/// Permissions that are written in ASCII are read character by character.
pub proof fn law_ascii_perms(perms: Seq<char>, i: int, b: u8)
    requires
        vstd::utf8::is_ascii_chars(perms),
        0 <= i,
        b < 0x80,
    ensures
        has_perm(perms, i, b) == (i < perms.len() && perms[i] == b as char),
{
    vstd::utf8::is_ascii_chars_encode_utf8(perms);
}

impl MapRegion {
    fn perm_at(&self, i: usize, b: u8) -> (r: bool)
        ensures
            r == has_perm(self@.perms, i as int, b),
    {
        let bytes = self.perms.as_str().as_bytes();
        i < bytes.len() && bytes[i] == b
    }

    /// Whether the region is readable (`r` permission).
    pub fn readable(&self) -> (r: bool)
        ensures
            r == self@.readable(),
    {
        self.perm_at(0, 0x72)
    }

    /// Whether the region is writable (`w` permission).
    pub fn writable(&self) -> (r: bool)
        ensures
            r == self@.writable(),
    {
        self.perm_at(1, 0x77)
    }

    /// Whether the region is executable (`x` permission).
    pub fn executable(&self) -> (r: bool)
        ensures
            r == self@.executable(),
    {
        self.perm_at(2, 0x78)
    }

    /// Length of the region in bytes (`end - start`).
    pub fn len(&self) -> (r: usize)
        requires
            self@.start <= self@.end,
        ensures
            r == self@.end - self@.start,
    {
        self.end - self.start
    }

    /// Whether the region is empty (`start == end`).
    pub fn is_empty(&self) -> (r: bool)
        ensures
            r == (self@.start == self@.end),
    {
        self.start == self.end
    }
}

/// A loaded module (executable or shared object): its base, total span, path.
#[derive(Debug)]
pub struct Module {
    /// The module's file basename, e.g. `"libc.so.6"`.
    pub name: String,
    /// Lowest mapped address of the module.
    pub base: usize,
    /// `base .. base+size` covers every contiguous mapping of the file.
    pub size: usize,
    /// The module's full path on disk.
    pub path: String,
}

impl Clone for Module {
    fn clone(&self) -> (r: Self)
        ensures
            r.name@ == self.name@,
            r.base == self.base,
            r.size == self.size,
            r.path@ == self.path@,
    {
        Module {
            name: self.name.as_str().to_owned(),
            base: self.base,
            size: self.size,
            path: self.path.as_str().to_owned(),
        }
    }
}

impl Module {
    /// Whether `addr` falls within `base .. base+size`.
    pub fn contains(&self, addr: usize) -> (r: bool)
        ensures
            r == (self.base <= addr && addr < self.base + self.size && addr < usize::MAX),
    {
        self.base <= addr && addr < self.base.saturating_add(self.size)
    }
}

/// Whether a name is that of a special region, such as `[heap]` or `[stack]`.
pub open spec fn is_special(p: Seq<char>) -> bool {
    p.len() > 0 && p[0] == '[' && p.last() == ']'
}

/// The path that a path field stands for: nothing if it is empty or names a
/// special region.
pub open spec fn path_of(field: Seq<char>) -> Option<Seq<char>> {
    let p = text::trim(field);
    if p.len() == 0 || is_special(p) {
        None
    } else {
        Some(p)
    }
}

/// The address that a hexadecimal numeral stands for.
pub open spec fn address_of(s: Seq<char>) -> Option<usize> {
    match text::unsigned_value(s, 16) {
        Some(v) => if v <= usize::MAX {
            Some(v as usize)
        } else {
            None
        },
        None => None,
    }
}

/// The fields of a line: start and end, permissions, offset, device, inode and,
/// as far as there is one, path.
pub open spec fn fields_of(line: Seq<char>) -> Seq<Seq<char>> {
    text::filled(text::pieces(line, 6))
}

/// The region that a line describes, if it describes one.
pub open spec fn region_of(line: Seq<char>) -> Option<Region> {
    let f = fields_of(line);
    if f.len() == 0 {
        None
    } else {
        let dash = text::len_before(f[0], '-') as int;
        if dash >= f[0].len() {
            None
        } else {
            match (address_of(f[0].take(dash)), address_of(f[0].skip(dash + 1))) {
                (Some(start), Some(end)) => Some(
                    Region {
                        start,
                        end,
                        perms: if f.len() > 1 {
                            f[1]
                        } else {
                            Seq::empty()
                        },
                        path: if f.len() > 5 {
                            path_of(f[5])
                        } else {
                            None
                        },
                    },
                ),
                _ => None,
            }
        }
    }
}

/// The regions that lines describe, in their order.
pub open spec fn regions_of(lines: Seq<Seq<char>>) -> Seq<Region>
    decreases lines.len(),
{
    if lines.len() == 0 {
        Seq::empty()
    } else {
        match region_of(lines[0]) {
            Some(r) => seq![r] + regions_of(lines.drop_first()),
            None => regions_of(lines.drop_first()),
        }
    }
}

/// The views of texts.
spec fn views(v: Seq<&[char]>) -> Seq<Seq<char>> {
    v.map_values(|s: &[char]| s@)
}

fn fields(line: &[char]) -> (r: Vec<&[char]>)
    ensures
        views(r@) == fields_of(line@),
{
    let mut out: Vec<&[char]> = Vec::new();
    let mut rest: &[char] = line;
    let mut n: usize = 6;
    let ghost all = fields_of(line@);
    assert(views(out@) + text::filled(text::pieces(rest@, 6)) =~= all);
    loop
        invariant
            1 <= n <= 6,
            all == fields_of(line@),
            views(out@) + text::filled(text::pieces(rest@, n as nat)) == all,
        decreases n,
    {
        let i: usize = text::find_space(rest);
        let last = n == 1 || i >= rest.len();
        let piece: &[char] = if last {
            rest
        } else {
            slice_subrange(rest, 0, i)
        };
        let ghost before = views(out@);
        let ghost tail: Seq<Seq<char>> = if last {
            Seq::empty()
        } else {
            text::pieces(rest@.skip(i + 1), (n - 1) as nat)
        };
        proof {
            let ps = text::pieces(rest@, n as nat);
            assert(ps =~= seq![piece@] + tail);
            assert(ps.drop_first() =~= tail);
        }
        if piece.len() > 0 {
            out.push(piece);
            assert(views(out@) =~= before.push(piece@));
            assert(before + (seq![piece@] + text::filled(tail)) =~= views(out@) + text::filled(
                tail,
            ));
        }
        if last {
            assert(views(out@) + text::filled(tail) =~= views(out@));
            return out;
        }
        let next: &[char] = slice_subrange(rest, i + 1, rest.len());
        assert(next@ =~= rest@.skip(i + 1));
        rest = next;
        n = n - 1;
    }
}

fn parse_address(s: &[char]) -> (r: Option<usize>)
    ensures
        r == address_of(s@),
{
    match text::unsigned_up_to(s, 16, usize::MAX as u64) {
        Some(v) => Some(v as usize),
        None => None,
    }
}

fn parse_path(field: &[char]) -> (r: Option<String>)
    ensures
        path_of(field@) == (match r {
            Some(p) => Some(p@),
            None => None,
        }),
{
    let p: &[char] = text::trimmed(field);
    if p.len() == 0 || (p[0] == '[' && p[p.len() - 1] == ']') {
        None
    } else {
        Some(text::string_of(p))
    }
}

fn parse_line(line: &[char]) -> (r: Option<MapRegion>)
    ensures
        region_of(line@) == (match r {
            Some(m) => Some(m@),
            None => None,
        }),
{
    let f: Vec<&[char]> = fields(line);
    let ghost v = fields_of(line@);
    assert(f@.len() == v.len());
    if f.len() == 0 {
        return None;
    }
    let range: &[char] = f[0];
    assert(range@ == views(f@)[0]);
    let dash: usize = text::find_char(range, '-');
    if dash >= range.len() {
        return None;
    }
    let low: &[char] = slice_subrange(range, 0, dash);
    let high: &[char] = slice_subrange(range, dash + 1, range.len());
    assert(low@ =~= range@.take(dash as int));
    assert(high@ =~= range@.skip(dash + 1));
    match (parse_address(low), parse_address(high)) {
        (Some(start), Some(end)) => {
            let perms: String = if f.len() > 1 {
                assert(f@[1]@ == views(f@)[1]);
                text::string_of(f[1])
            } else {
                String::new()
            };
            let path: Option<String> = if f.len() > 5 {
                assert(f@[5]@ == views(f@)[5]);
                parse_path(f[5])
            } else {
                None
            };
            let m = MapRegion { start, end, perms, path };
            assert(region_of(line@) =~= Some(m@));
            Some(m)
        },
        _ => None,
    }
}

/// Whether `low` is the least start and `high` the greatest end among the
/// regions that `wanted` picks.
pub open spec fn spans(
    v: Seq<Region>,
    wanted: spec_fn(Region) -> bool,
    low: usize,
    high: usize,
) -> bool {
    &&& exists|i: int| 0 <= i < v.len() && wanted(#[trigger] v[i]) && v[i].start == low
    &&& exists|i: int| 0 <= i < v.len() && wanted(#[trigger] v[i]) && v[i].end == high
    &&& forall|i: int|
        0 <= i < v.len() && wanted(#[trigger] v[i]) ==> low <= v[i].start && v[i].end <= high
}

/// Whether `wanted` picks a region.
pub open spec fn any(v: Seq<Region>, wanted: spec_fn(Region) -> bool) -> bool {
    exists|i: int| 0 <= i < v.len() && wanted(#[trigger] v[i])
}

/// Whether the regions that `wanted` picks, if it picks any, start somewhere
/// before they end.
pub open spec fn has_extent(v: Seq<Region>, wanted: spec_fn(Region) -> bool) -> bool {
    any(v, wanted) ==> exists|i: int, j: int|
        0 <= i < v.len() && 0 <= j < v.len() && wanted(#[trigger] v[i]) && wanted(#[trigger] v[j])
            && v[i].start <= v[j].end
}

/// Regions that do not end before they start have an extent, whatever is
/// picked of them.
pub proof fn law_ordered_regions_have_extent(v: Seq<Region>, wanted: spec_fn(Region) -> bool)
    requires
        forall|i: int| 0 <= i < v.len() ==> (#[trigger] v[i]).start <= v[i].end,
    ensures
        has_extent(v, wanted),
{
    if any(v, wanted) {
        let i = choose|i: int| 0 <= i < v.len() && wanted(#[trigger] v[i]);
        assert(wanted(v[i]) && v[i].start <= v[i].end);
    }
}

/// Whether the files that back regions each have an extent.
pub open spec fn files_have_extent(v: Seq<Region>) -> bool {
    forall|i: int|
        0 <= i < v.len() && (#[trigger] v[i]).file_backed() ==> has_extent(
            v,
            |m: Region| m.is_at(v[i].path->0),
        )
}

/// The least start is no greater than the greatest end if and only if there is
/// an extent.
proof fn lemma_extent_is_order(
    v: Seq<Region>,
    wanted: spec_fn(Region) -> bool,
    low: usize,
    high: usize,
)
    requires
        spans(v, wanted, low, high),
    ensures
        has_extent(v, wanted) <==> low <= high,
{
    let x = choose|x: int| 0 <= x < v.len() && wanted(#[trigger] v[x]) && v[x].start == low;
    let y = choose|y: int| 0 <= y < v.len() && wanted(#[trigger] v[y]) && v[y].end == high;
    assert(wanted(v[x]) && wanted(v[y]));
    assert(any(v, wanted));
    if has_extent(v, wanted) {
        let (a, b) = choose|a: int, b: int|
            0 <= a < v.len() && 0 <= b < v.len() && wanted(#[trigger] v[a]) && wanted(
                #[trigger] v[b],
            ) && v[a].start <= v[b].end;
        assert(wanted(v[a]) && wanted(v[b]));
    }
}

/// The least start and the greatest end of the regions that a file of that name
/// backs, and the last of those regions; nothing if there are none.
fn span_of(maps: &Vec<MapRegion>, name: &str) -> (r: Option<(usize, usize, usize)>)
    ensures
        ({
            let regions = region_views(maps@);
            let pick = |m: Region| m.is_of(name@);
            match r {
                None => !any(regions, pick),
                Some((low, high, at)) => {
                    &&& any(regions, pick)
                    &&& spans(regions, pick, low, high)
                    &&& at < regions.len()
                    &&& regions[at as int].is_of(name@)
                    &&& forall|j: int|
                        at < j < regions.len() ==> !(#[trigger] regions[j]).is_of(name@)
                },
            }
        }),
{
    let wanted: Vec<char> = text::chars_of(name);
    let ghost regions = region_views(maps@);
    let ghost pick = |m: Region| m.is_of(name@);
    let mut found: Option<(usize, usize, usize)> = None;
    let mut i: usize = 0;
    while i < maps.len()
        invariant
            i <= maps.len(),
            wanted@ == name@,
            regions == region_views(maps@),
            pick == (|m: Region| m.is_of(name@)),
            match found {
                None => forall|j: int| 0 <= j < i ==> !pick(#[trigger] regions[j]),
                Some((low, high, at)) => {
                    &&& spans(regions.take(i as int), pick, low, high)
                    &&& at < i
                    &&& pick(regions[at as int])
                    &&& forall|j: int| at < j < i ==> !pick(#[trigger] regions[j])
                },
            },
        decreases maps.len() - i,
    {
        let m: &MapRegion = &maps[i];
        assert(m@ == regions[i as int]);
        let hit = match &m.path {
            Some(p) => text::same(
                text::base_of(text::chars_of(p.as_str()).as_slice()),
                wanted.as_slice(),
            ),
            None => false,
        };
        assert(hit == pick(regions[i as int]));
        let ghost old_found = found;
        if hit {
            let (low, high): (usize, usize) = match found {
                None => (m.start, m.end),
                Some((low, high, _)) => (
                    if m.start < low {
                        m.start
                    } else {
                        low
                    },
                    if m.end > high {
                        m.end
                    } else {
                        high
                    },
                ),
            };
            found = Some((low, high, i));
        }
        proof {
            lemma_spans_step(regions, pick, i as int, old_found, found);
        }
        i = i + 1;
    }
    assert(regions.take(maps.len() as int) =~= regions);
    proof {
        if let Some((low, high, at)) = found {
            assert(pick(regions[at as int]));
        }
    }
    found
}

/// Whether the regions of the module have an extent, so that it can be resolved.
/// It holds of what the kernel lists, where no region ends before it starts.
pub fn module_has_extent(maps: &Vec<MapRegion>, name: &str) -> (r: bool)
    ensures
        r == has_extent(region_views(maps@), |m: Region| m.is_of(name@)),
{
    match span_of(maps, name) {
        Some((low, high, _)) => {
            proof {
                lemma_extent_is_order(
                    region_views(maps@),
                    |m: Region| m.is_of(name@),
                    low,
                    high,
                );
            }
            low <= high
        },
        None => true,
    }
}

/// Whether `path` is the path of the last region that a file named `name` backs.
pub open spec fn last_path_of(v: Seq<Region>, name: Seq<char>, path: Seq<char>) -> bool {
    exists|i: int|
        0 <= i < v.len() && (#[trigger] v[i]).is_of(name) && v[i].is_at(path) && forall|j: int|
            i < j < v.len() ==> !(#[trigger] v[j]).is_of(name)
}

/// Whether `ms` lists the files that back regions: each once, in the order of
/// their paths, with its name and its span.
pub open spec fn lists_modules(v: Seq<Region>, ms: Seq<Module>) -> bool {
    &&& forall|a: int, b: int|
        0 <= a < b < ms.len() ==> text::before((#[trigger] ms[a]).path@, (#[trigger] ms[b]).path@)
    &&& forall|k: int|
        0 <= k < ms.len() ==> {
            let m = #[trigger] ms[k];
            &&& m.path@.len() > 0 && m.path@[0] == '/'
            &&& m.name@ == text::basename(m.path@)
            &&& m.base + m.size <= usize::MAX
            &&& spans(v, |r: Region| r.is_at(m.path@), m.base, (m.base + m.size) as usize)
        }
    &&& forall|i: int|
        0 <= i < v.len() && (#[trigger] v[i]).file_backed() ==> exists|k: int|
            0 <= k < ms.len() && v[i].is_at((#[trigger] ms[k]).path@)
}

/// A file and the span of its regions.
struct Extent {
    path: Vec<char>,
    low: usize,
    high: usize,
}

/// [`spans`] for the regions of one file.
#[verifier::opaque]
spec fn path_spans(v: Seq<Region>, path: Seq<char>, low: usize, high: usize) -> bool {
    spans(v, |r: Region| r.is_at(path), low, high)
}

/// Whether the file that backs the region is listed.
spec fn listed(r: Region, es: Seq<Extent>) -> bool {
    exists|k: int| 0 <= k < es.len() && r.is_at((#[trigger] es[k]).path@)
}

spec fn ascending(es: Seq<Extent>) -> bool {
    forall|a: int, b: int|
        0 <= a < b < es.len() ==> text::before((#[trigger] es[a]).path@, (#[trigger] es[b]).path@)
}

spec fn spanned(v: Seq<Region>, es: Seq<Extent>) -> bool {
    forall|k: int|
        0 <= k < es.len() ==> {
            let e = #[trigger] es[k];
            &&& e.path@.len() > 0 && e.path@[0] == '/'
            &&& path_spans(v, e.path@, e.low, e.high)
        }
}

/// Whether `es` lists the files that back the first `i` regions, as
/// [`lists_modules`] has it.
spec fn lists_extents(v: Seq<Region>, i: int, es: Seq<Extent>) -> bool {
    &&& ascending(es)
    &&& spanned(v.take(i), es)
    &&& forall|j: int| 0 <= j < i && (#[trigger] v[j]).file_backed() ==> listed(v[j], es)
}

/// The span of a path that the next region does not have stays as it is.
proof fn lemma_spans_other(v: Seq<Region>, i: int, path: Seq<char>, low: usize, high: usize)
    requires
        0 <= i < v.len(),
        !v[i].is_at(path),
        path_spans(v.take(i), path, low, high),
    ensures
        path_spans(v.take(i + 1), path, low, high),
{
    reveal(path_spans);
    lemma_spans_step(
        v,
        |r: Region| r.is_at(path),
        i,
        Some((low, high, 0)),
        Some((low, high, 0)),
    );
}

/// A region that is not file-backed changes nothing.
proof fn lemma_extents_skip(v: Seq<Region>, es: Seq<Extent>, i: int)
    requires
        0 <= i < v.len(),
        !v[i].file_backed(),
        lists_extents(v, i, es),
    ensures
        lists_extents(v, i + 1, es),
{
    assert forall|k: int| 0 <= k < es.len() implies path_spans(
        v.take(i + 1),
        (#[trigger] es[k]).path@,
        es[k].low,
        es[k].high,
    ) by {
        lemma_spans_other(v, i, es[k].path@, es[k].low, es[k].high);
    }
}

/// A region of a file that is listed at `k` widens its span.
proof fn lemma_extents_widen(v: Seq<Region>, es: Seq<Extent>, i: int, k: int, e: Extent)
    requires
        0 <= i < v.len(),
        0 <= k < es.len(),
        v[i].is_at(es[k].path@),
        lists_extents(v, i, es),
        e.path@ == es[k].path@,
        e.low == (if v[i].start < es[k].low {
            v[i].start
        } else {
            es[k].low
        }),
        e.high == (if v[i].end > es[k].high {
            v[i].end
        } else {
            es[k].high
        }),
    ensures
        lists_extents(v, i + 1, es.update(k, e)),
{
    let fs = es.update(k, e);
    assert forall|a: int| 0 <= a < fs.len() implies path_spans(
        v.take(i + 1),
        (#[trigger] fs[a]).path@,
        fs[a].low,
        fs[a].high,
    ) by {
        if a == k {
            reveal(path_spans);
            lemma_spans_step(
                v,
                |r: Region| r.is_at(es[k].path@),
                i,
                Some((es[k].low, es[k].high, 0)),
                Some((e.low, e.high, 0)),
            );
        } else {
            text::lemma_before(es[k].path@, es[k].path@, es[k].path@);
            assert(text::before(es[a].path@, es[k].path@) || text::before(
                es[k].path@,
                es[a].path@,
            ));
            lemma_spans_other(v, i, es[a].path@, es[a].low, es[a].high);
        }
    }
    assert forall|j: int| 0 <= j < i + 1 && (#[trigger] v[j]).file_backed() implies listed(
        v[j],
        fs,
    ) by {
        let b = if j < i {
            choose|b: int| 0 <= b < es.len() && v[j].is_at((#[trigger] es[b]).path@)
        } else {
            k
        };
        assert(fs[b].path@ == es[b].path@);
    }
}

/// A region of a file that is not listed adds the file at `k`.
proof fn lemma_extents_add(v: Seq<Region>, es: Seq<Extent>, i: int, k: int, e: Extent)
    requires
        0 <= i < v.len(),
        0 <= k <= es.len(),
        v[i].file_backed(),
        v[i].is_at(e.path@),
        e.low == v[i].start,
        e.high == v[i].end,
        lists_extents(v, i, es),
        forall|a: int| 0 <= a < k ==> text::before((#[trigger] es[a]).path@, e.path@),
        forall|a: int| k <= a < es.len() ==> text::before(e.path@, (#[trigger] es[a]).path@),
    ensures
        lists_extents(v, i + 1, es.insert(k, e)),
{
    let fs = es.insert(k, e);
    text::lemma_before(e.path@, e.path@, e.path@);
    assert forall|a: int| 0 <= a < fs.len() && a != k implies #[trigger] fs[a] == es[if a < k {
        a
    } else {
        a - 1
    }] by {}
    assert forall|a: int| 0 <= a < fs.len() implies path_spans(
        v.take(i + 1),
        (#[trigger] fs[a]).path@,
        fs[a].low,
        fs[a].high,
    ) by {
        if a == k {
            let pick = |r: Region| r.is_at(e.path@);
            assert forall|j: int| 0 <= j < i implies !pick(#[trigger] v[j]) by {
                if pick(v[j]) {
                    assert(listed(v[j], es));
                }
            }
            reveal(path_spans);
            lemma_spans_step(v, pick, i, None, Some((e.low, e.high, 0)));
        } else {
            lemma_spans_other(v, i, fs[a].path@, fs[a].low, fs[a].high);
        }
    }
    assert forall|j: int| 0 <= j < i + 1 && (#[trigger] v[j]).file_backed() implies listed(
        v[j],
        fs,
    ) by {
        if j < i {
            let b = choose|b: int| 0 <= b < es.len() && v[j].is_at((#[trigger] es[b]).path@);
            let c = if b < k {
                b
            } else {
                b + 1
            };
            assert(fs[c] == es[b]);
        } else {
            assert(fs[k] == e);
        }
    }
}

/// A file that is listed has an extent if each file has one.
proof fn lemma_extent_order(v: Seq<Region>, path: Seq<char>, low: usize, high: usize)
    requires
        path.len() > 0 && path[0] == '/',
        path_spans(v, path, low, high),
        files_have_extent(v),
    ensures
        low <= high,
{
    reveal(path_spans);
    let pick = |r: Region| r.is_at(path);
    let a = choose|a: int| 0 <= a < v.len() && pick(#[trigger] v[a]) && v[a].start == low;
    assert(v[a].file_backed());
    assert((|m: Region| m.is_at(v[a].path->0)) =~= pick);
    lemma_extent_is_order(v, pick, low, high);
}

/// The modules of a list of extents.
proof fn lemma_modules(v: Seq<Region>, es: Seq<Extent>, ms: Seq<Module>)
    requires
        lists_extents(v, v.len() as int, es),
        ms.len() == es.len(),
        forall|a: int|
            0 <= a < ms.len() ==> {
                let m = #[trigger] ms[a];
                &&& m.path@ == es[a].path@
                &&& m.name@ == text::basename(m.path@)
                &&& m.base == es[a].low
                &&& m.base + m.size == es[a].high
            },
    ensures
        lists_modules(v, ms),
{
    assert(v.take(v.len() as int) =~= v);
    assert forall|k: int| 0 <= k < ms.len() implies spans(
        v,
        |r: Region| r.is_at((#[trigger] ms[k]).path@),
        ms[k].base,
        (ms[k].base + ms[k].size) as usize,
    ) && ms[k].path@.len() > 0 && ms[k].path@[0] == '/' && ms[k].base + ms[k].size
        <= usize::MAX by {
        reveal(path_spans);
        assert(path_spans(v, es[k].path@, es[k].low, es[k].high));
    }
    assert forall|i: int| 0 <= i < v.len() && (#[trigger] v[i]).file_backed() implies exists|k: int|
        0 <= k < ms.len() && v[i].is_at((#[trigger] ms[k]).path@) by {
        let b = choose|b: int| 0 <= b < es.len() && v[i].is_at((#[trigger] es[b]).path@);
        assert(ms[b].path@ == es[b].path@);
    }
}

/// Take one region into account.
fn note_region(es: &mut Vec<Extent>, m: &MapRegion, Ghost(v): Ghost<Seq<Region>>, Ghost(i): Ghost<int>)
    requires
        0 <= i < v.len(),
        m@ == v[i],
        lists_extents(v, i, old(es)@),
    ensures
        lists_extents(v, i + 1, final(es)@),
{
    let path: Vec<char> = match &m.path {
        Some(p) => text::chars_of(p.as_str()),
        None => Vec::new(),
    };
    if path.len() == 0 || path[0] != '/' {
        proof {
            lemma_extents_skip(v, es@, i);
        }
        return;
    }
    assert(v[i].is_at(path@));
    let mut k: usize = 0;
    while k < es.len() && text::comes_before(es[k].path.as_slice(), path.as_slice())
        invariant
            k <= es.len(),
            forall|a: int| 0 <= a < k ==> text::before((#[trigger] es@[a]).path@, path@),
        decreases es.len() - k,
    {
        k = k + 1;
    }
    if k < es.len() && text::same(es[k].path.as_slice(), path.as_slice()) {
        let low: usize = if m.start < es[k].low {
            m.start
        } else {
            es[k].low
        };
        let high: usize = if m.end > es[k].high {
            m.end
        } else {
            es[k].high
        };
        let e = Extent { path, low, high };
        proof {
            lemma_extents_widen(v, es@, i, k as int, e);
        }
        es.set(k, e);
    } else {
        let e = Extent { path, low: m.start, high: m.end };
        proof {
            assert forall|a: int| k <= a < es@.len() implies text::before(
                e.path@,
                (#[trigger] es@[a]).path@,
            ) by {
                text::lemma_before(e.path@, es@[k as int].path@, es@[a].path@);
            }
            lemma_extents_add(v, es@, i, k as int, e);
        }
        es.insert(k, e);
    }
}

/// The files that back regions, and their spans.
fn extents_of(maps: &Vec<MapRegion>) -> (r: Vec<Extent>)
    ensures
        lists_extents(region_views(maps@), maps@.len() as int, r@),
{
    let ghost regions = region_views(maps@);
    let mut es: Vec<Extent> = Vec::new();
    let mut i: usize = 0;
    while i < maps.len()
        invariant
            i <= maps.len(),
            regions == region_views(maps@),
            lists_extents(regions, i as int, es@),
        decreases maps.len() - i,
    {
        note_region(&mut es, &maps[i], Ghost(regions), Ghost(i as int));
        i = i + 1;
    }
    es
}

/// Whether the files that back regions each have an extent, so that the modules
/// can be listed. It holds of what the kernel lists, where no region ends before
/// it starts.
pub fn modules_have_extent(maps: &Vec<MapRegion>) -> (r: bool)
    ensures
        r == files_have_extent(region_views(maps@)),
{
    let ghost v = region_views(maps@);
    let es: Vec<Extent> = extents_of(maps);
    assert(v.take(v.len() as int) =~= v);
    let mut k: usize = 0;
    while k < es.len()
        invariant
            k <= es@.len(),
            v == region_views(maps@),
            v.take(v.len() as int) == v,
            lists_extents(v, v.len() as int, es@),
            forall|a: int| 0 <= a < k ==> (#[trigger] es@[a]).low <= es@[a].high,
        decreases es.len() - k,
    {
        if es[k].low > es[k].high {
            proof {
                let e = es@[k as int];
                assert(path_spans(v, e.path@, e.low, e.high));
                if files_have_extent(v) {
                    lemma_extent_order(v, e.path@, e.low, e.high);
                }
            }
            return false;
        }
        k = k + 1;
    }
    proof {
        assert forall|i: int| 0 <= i < v.len() && (#[trigger] v[i]).file_backed() implies has_extent(
            v,
            |m: Region| m.is_at(v[i].path->0),
        ) by {
            let b = choose|b: int| 0 <= b < es@.len() && v[i].is_at((#[trigger] es@[b]).path@);
            let e = es@[b];
            assert(path_spans(v, e.path@, e.low, e.high));
            reveal(path_spans);
            let pick = |m: Region| m.is_at(e.path@);
            lemma_extent_is_order(v, pick, e.low, e.high);
            assert((|m: Region| m.is_at(v[i].path->0)) =~= pick);
        }
    }
    true
}

/// The outcome of a call that gives regions, by its view.
pub open spec fn regions_result(r: Result<Vec<MapRegion>, Error>) -> Result<Seq<Region>, Error> {
    match r {
        Ok(v) => Ok(region_views(v@)),
        Err(e) => Err(e),
    }
}

impl Process {
    /// The file that lists the process's regions.
    pub fn maps_path(&self) -> (r: String)
        ensures
            r@ == process::spec_proc_file(self@, "maps"@),
    {
        process::proc_file(self.pid(), "maps")
    }

    /// Parse `/proc/<pid>/maps`, as read, into one [`MapRegion`] per line.
    ///
    /// # Errors
    /// [`Error::Io`] if the maps file could not be read (e.g. the process
    /// exited).
    pub fn maps(&self, read: Result<String, IoError>) -> (r: Result<Vec<MapRegion>, Error>)
        ensures
            match read {
                Ok(t) => regions_result(r) == Ok::<Seq<Region>, Error>(
                    regions_of(text::lines(t@)),
                ),
                Err(e) => r == Err::<Vec<MapRegion>, Error>(Error::Io(e)),
            },
    {
        let t = match read {
            Ok(t) => t,
            Err(e) => return Err(Error::Io(e)),
        };
        let all: Vec<char> = text::chars_of(t.as_str());
        let mut out: Vec<MapRegion> = Vec::new();
        let mut rest: &[char] = all.as_slice();
        let ghost goal = regions_of(text::lines(t@));
        assert(region_views(out@) + regions_of(text::lines(rest@)) =~= goal);
        while rest.len() > 0
            invariant
                region_views(out@) + regions_of(text::lines(rest@)) == goal,
            decreases rest.len(),
        {
            let i: usize = text::find_char(rest, '\n');
            let ghost ls = text::lines(rest@);
            let ghost before = region_views(out@);
            let line: &[char] = if i >= rest.len() {
                rest
            } else if i > 0 && rest[i - 1] == '\r' {
                slice_subrange(rest, 0, i - 1)
            } else {
                slice_subrange(rest, 0, i)
            };
            let next: &[char] = if i >= rest.len() {
                slice_subrange(rest, rest.len(), rest.len())
            } else {
                slice_subrange(rest, i + 1, rest.len())
            };
            proof {
                if i < rest@.len() {
                    if i > 0 {
                        assert(rest@.take(i as int).drop_last() =~= rest@.take(i - 1));
                    }
                    assert(line@ =~= text::without_cr(rest@.take(i as int)));
                    assert(next@ =~= rest@.skip(i + 1));
                }
                assert(ls =~= seq![line@] + text::lines(next@));
                assert(ls.drop_first() =~= text::lines(next@));
            }
            match parse_line(line) {
                Some(m) => {
                    let ghost v = m@;
                    out.push(m);
                    assert(region_views(out@) =~= before.push(v));
                    assert(before + (seq![v] + regions_of(text::lines(next@))) =~= region_views(
                        out@,
                    ) + regions_of(text::lines(next@)));
                },
                None => {},
            }
            rest = next;
        }
        assert(region_views(out@) =~= goal);
        Ok(out)
    }

    /// Resolve a module by file basename (e.g. `"libc.so.6"`, `"game"`).
    ///
    /// The returned [`Module`] spans from the lowest to the highest address of
    /// every mapping backed by that file, so `base .. base+size` covers all of
    /// its segments.
    ///
    /// # Errors
    /// [`Error::ModuleNotFound`] if no mapping is backed by a file with that
    /// basename, or the error of reading the maps.
    pub fn module(&self, name: &str, maps: Result<Vec<MapRegion>, Error>) -> (r: Result<
        Module,
        Error,
    >)
        requires
            maps matches Ok(v) ==> has_extent(region_views(v@), |m: Region| m.is_of(name@)),
        ensures
            match maps {
                Err(e) => r == Err::<Module, Error>(e),
                Ok(v) => {
                    let regions = region_views(v@);
                    if any(regions, |m: Region| m.is_of(name@)) {
                        &&& r matches Ok(m)
                        &&& m.name@ == name@
                        &&& m.base + m.size <= usize::MAX
                        &&& spans(
                            regions,
                            |x: Region| x.is_of(name@),
                            m.base,
                            (m.base + m.size) as usize,
                        )
                        &&& last_path_of(regions, name@, m.path@)
                    } else {
                        &&& r matches Err(Error::ModuleNotFound { module, pid })
                        &&& module@ == name@
                        &&& pid == self@
                    }
                },
            },
    {
        let maps = match maps {
            Ok(v) => v,
            Err(e) => return Err(e),
        };
        let ghost regions = region_views(maps@);
        match span_of(&maps, name) {
            Some((low, high, at)) => {
                proof {
                    lemma_extent_is_order(regions, |m: Region| m.is_of(name@), low, high);
                }
                assert(regions[at as int] == maps@[at as int]@);
                let path: String = match &maps[at].path {
                    Some(p) => p.as_str().to_owned(),
                    None => String::new(),
                };
                assert(regions[at as int].is_at(path@));
                Ok(Module { name: name.to_owned(), base: low, size: high - low, path })
            },
            None => Err(Error::ModuleNotFound { module: name.to_owned(), pid: self.pid() }),
        }
    }

    /// Every distinct file-backed module (by path) currently mapped, ascending
    /// by path.
    ///
    /// Anonymous regions and special maps (`[heap]`, `[stack]`, ...) are
    /// skipped.
    ///
    /// # Errors
    /// The error of reading the maps.
    pub fn modules(&self, maps: Result<Vec<MapRegion>, Error>) -> (r: Result<Vec<Module>, Error>)
        requires
            maps matches Ok(v) ==> files_have_extent(region_views(v@)),
        ensures
            match maps {
                Err(e) => r == Err::<Vec<Module>, Error>(e),
                Ok(v) => r matches Ok(ms) && lists_modules(region_views(v@), ms@),
            },
    {
        let maps = match maps {
            Ok(v) => v,
            Err(e) => return Err(e),
        };
        let ghost regions = region_views(maps@);
        let es: Vec<Extent> = extents_of(&maps);
        let mut out: Vec<Module> = Vec::new();
        let mut k: usize = 0;
        while k < es.len()
            invariant
                k <= es.len(),
                out@.len() == k,
                regions == region_views(maps@),
                lists_extents(regions, regions.len() as int, es@),
                files_have_extent(regions),
                forall|a: int|
                    0 <= a < k ==> {
                        let m = #[trigger] out@[a];
                        &&& m.path@ == es@[a].path@
                        &&& m.name@ == text::basename(m.path@)
                        &&& m.base == es@[a].low
                        &&& m.base + m.size == es@[a].high
                    },
            decreases es.len() - k,
        {
            let e: &Extent = &es[k];
            proof {
                assert(regions.take(regions.len() as int) =~= regions);
                lemma_extent_order(regions, e.path@, e.low, e.high);
            }
            out.push(
                Module {
                    name: text::string_of(text::base_of(e.path.as_slice())),
                    base: e.low,
                    size: e.high - e.low,
                    path: text::string_of(e.path.as_slice()),
                },
            );
            k = k + 1;
        }
        proof {
            lemma_modules(regions, es@, out@);
        }
        Ok(out)
    }
}

/// One more region keeps track of the least start and the greatest end.
proof fn lemma_spans_step(
    v: Seq<Region>,
    pick: spec_fn(Region) -> bool,
    i: int,
    old_found: Option<(usize, usize, usize)>,
    found: Option<(usize, usize, usize)>,
)
    requires
        0 <= i < v.len(),
        match old_found {
            None => forall|j: int| 0 <= j < i ==> !pick(#[trigger] v[j]),
            Some((low, high, at)) => spans(v.take(i), pick, low, high),
        },
        !pick(v[i]) ==> found == old_found,
        pick(v[i]) ==> (found matches Some((low, high, at)) && match old_found {
            None => low == v[i].start && high == v[i].end,
            Some((l, h, _)) => low == (if v[i].start < l {
                v[i].start
            } else {
                l
            }) && high == (if v[i].end > h {
                v[i].end
            } else {
                h
            }),
        }),
    ensures
        found matches Some((low, high, at)) ==> spans(v.take(i + 1), pick, low, high),
{
    let a = v.take(i);
    let b = v.take(i + 1);
    assert forall|j: int| 0 <= j < i implies a[j] == #[trigger] b[j] by {}
    if let Some((low, high, _)) = found {
        if old_found is Some {
            let (l, h, _) = old_found->0;
            let x = choose|x: int| 0 <= x < a.len() && pick(#[trigger] a[x]) && a[x].start == l;
            let y = choose|y: int| 0 <= y < a.len() && pick(#[trigger] a[y]) && a[y].end == h;
            assert(pick(b[x]) && b[x].start == l);
            assert(pick(b[y]) && b[y].end == h);
        }
        if pick(v[i]) {
            assert(pick(b[i]));
        }
        assert forall|j: int| 0 <= j < b.len() && pick(#[trigger] b[j]) implies low <= b[j].start
            && b[j].end <= high by {
            if j < i {
                assert(pick(a[j]));
            }
        }
    }
}

/// A listed module can be resolved by its name, and if no other file has that
/// name, it resolves to the listed span.
pub proof fn law_listed_modules_resolve(v: Seq<Region>, ms: Seq<Module>, k: int)
    requires
        lists_modules(v, ms),
        0 <= k < ms.len(),
    ensures
        any(v, |r: Region| r.is_of(ms[k].name@)),
        (forall|i: int|
            0 <= i < v.len() && (#[trigger] v[i]).is_of(ms[k].name@) ==> v[i].is_at(ms[k].path@))
            ==> spans(
            v,
            |r: Region| r.is_of(ms[k].name@),
            ms[k].base,
            (ms[k].base + ms[k].size) as usize,
        ),
{
    let m = ms[k];
    let at = |r: Region| r.is_at(m.path@);
    let of = |r: Region| r.is_of(m.name@);
    let high = (m.base + m.size) as usize;
    assert(spans(v, at, m.base, high));
    let a = choose|a: int| 0 <= a < v.len() && at(#[trigger] v[a]) && v[a].start == m.base;
    let b = choose|b: int| 0 <= b < v.len() && at(#[trigger] v[b]) && v[b].end == high;
    assert(of(v[a]) && of(v[b]));
    if forall|i: int|
        0 <= i < v.len() && (#[trigger] v[i]).is_of(m.name@) ==> v[i].is_at(m.path@) {
        assert forall|i: int| 0 <= i < v.len() && of(#[trigger] v[i]) implies m.base <= v[i].start
            && v[i].end <= high by {
            assert(at(v[i]));
        }
        assert(spans(v, of, m.base, high));
    }
}

/// A line of `/proc/<pid>/maps` as the kernel prints it.
pub struct Entry {
    pub start: usize,
    pub end: usize,
    /// How many zeros the addresses are printed with before their digits.
    pub zeros: (nat, nat),
    pub perms: Seq<char>,
    pub offset: Seq<char>,
    pub device: Seq<char>,
    pub inode: Seq<char>,
    /// The blanks before the path.
    pub gap: nat,
    /// The path, which is empty if there is none.
    pub path: Seq<char>,
}

impl Entry {
    /// Whether the fields are such as the kernel prints.
    pub open spec fn valid(self) -> bool {
        &&& text::word(self.perms)
        &&& text::word(self.offset)
        &&& text::word(self.device)
        &&& text::word(self.inode)
        &&& self.path.len() > 0 ==> !text::is_space(self.path[0]) && !text::is_space(
            self.path.last(),
        )
        &&& forall|i: int| 0 <= i < self.path.len() ==> #[trigger] self.path[i] != '\n'
    }

    /// The range of the addresses.
    pub open spec fn range(self) -> Seq<char> {
        text::zeros(self.zeros.0) + text::in_hex(self.start as nat) + seq!['-'] + (text::zeros(
            self.zeros.1,
        ) + text::in_hex(self.end as nat))
    }

    /// What follows the inode and its blank.
    pub open spec fn tail(self) -> Seq<char> {
        Seq::new(self.gap, |i: int| ' ') + self.path
    }

    /// The line.
    pub open spec fn shown(self) -> Seq<char> {
        self.range() + seq![' '] + (self.perms + seq![' '] + (self.offset + seq![' '] + (self.device
            + seq![' '] + (self.inode + seq![' '] + self.tail()))))
    }

    /// The path, unless it is empty or in square brackets.
    pub open spec fn file(self) -> Option<Seq<char>> {
        if self.path.len() == 0 || (self.path[0] == '[' && self.path[self.path.len() - 1] == ']') {
            None
        } else {
            Some(self.path)
        }
    }
}

/// The text of lines, each with a line feed behind it.
pub open spec fn listing(es: Seq<Entry>) -> Seq<char>
    decreases es.len(),
{
    if es.len() == 0 {
        Seq::empty()
    } else {
        es[0].shown() + seq!['\n'] + listing(es.drop_first())
    }
}

proof fn lemma_filled(x: Seq<char>, rest: Seq<Seq<char>>)
    ensures
        x.len() > 0 ==> text::filled(seq![x] + rest) == seq![x] + text::filled(rest),
        x.len() == 0 ==> text::filled(seq![x] + rest) == text::filled(rest),
{
    assert((seq![x] + rest).drop_first() =~= rest);
}

proof fn lemma_range(e: Entry)
    ensures
        text::word(e.range()),
        ({
            let dash = text::len_before(e.range(), '-') as int;
            &&& dash < e.range().len()
            &&& address_of(e.range().take(dash)) == Some(e.start)
            &&& address_of(e.range().skip(dash + 1)) == Some(e.end)
        }),
{
    let a = text::zeros(e.zeros.0) + text::in_hex(e.start as nat);
    let b = text::zeros(e.zeros.1) + text::in_hex(e.end as nat);
    text::lemma_hex_is_a_word(e.start as nat, e.zeros.0);
    text::lemma_hex_is_a_word(e.end as nat, e.zeros.1);
    text::law_hex_reads_back(e.start as nat, e.zeros.0);
    text::law_hex_reads_back(e.end as nat, e.zeros.1);
    text::law_len_before(a, '-', b);
    let r = e.range();
    assert(r.take(a.len() as int) =~= a);
    assert(r.skip(a.len() as int + 1) =~= b);
    assert forall|i: int| 0 <= i < r.len() implies !text::is_space(#[trigger] r[i]) by {
        if i < a.len() {
            assert(!text::is_space(a[i]));
        } else if i > a.len() {
            assert(!text::is_space(b[i - a.len() - 1]));
        }
    }
}

/// A line that the kernel prints is read back as the region it was printed from:
/// every address that fits in a word, the permissions as they stand, and the path
/// unless there is none or it is in brackets.
pub proof fn law_line_reads_back(e: Entry)
    requires
        e.valid(),
    ensures
        region_of(e.shown()) matches Some(r) && {
            &&& r.start == e.start
            &&& r.end == e.end
            &&& r.perms == e.perms
            &&& r.path == e.file()
        },
{
    lemma_range(e);
    let r4 = e.inode + seq![' '] + e.tail();
    let r3 = e.device + seq![' '] + r4;
    let r2 = e.offset + seq![' '] + r3;
    let r1 = e.perms + seq![' '] + r2;
    text::law_pieces(e.range(), r1, 6);
    text::law_pieces(e.perms, r2, 5);
    text::law_pieces(e.offset, r3, 4);
    text::law_pieces(e.device, r4, 3);
    text::law_pieces(e.inode, e.tail(), 2);
    let p5 = text::pieces(e.tail(), 1);
    assert(p5 =~= seq![e.tail()] + Seq::empty());
    lemma_filled(e.tail(), Seq::empty());
    lemma_filled(e.inode, p5);
    let p4 = seq![e.inode] + p5;
    lemma_filled(e.device, p4);
    let p3 = seq![e.device] + p4;
    lemma_filled(e.offset, p3);
    let p2 = seq![e.offset] + p3;
    lemma_filled(e.perms, p2);
    lemma_filled(e.range(), seq![e.perms] + p2);
    let f = fields_of(e.shown());
    assert(f[0] == e.range() && f[1] == e.perms);
    let gap = Seq::new(e.gap, |i: int| ' ');
    assert(text::blank(gap));
    text::law_trimming(gap, e.path, Seq::empty());
    assert(gap + e.path + Seq::<char>::empty() =~= e.tail());
    if e.tail().len() > 0 {
        assert(f.len() == 6);
        assert(f[5] == e.tail());
    } else {
        assert(f.len() == 5);
    }
}

proof fn lemma_shown_is_a_line(e: Entry)
    requires
        e.valid(),
    ensures
        e.shown().len() > 0,
        forall|i: int| 0 <= i < e.shown().len() ==> #[trigger] e.shown()[i] != '\n',
        e.shown().last() != '\r',
{
    lemma_range(e);
    let t = e.tail();
    assert forall|i: int| 0 <= i < t.len() implies #[trigger] t[i] != '\n' by {
        if i >= e.gap {
            assert(t[i] == e.path[i - e.gap]);
        }
    }
    assert(t.len() > 0 ==> t.last() != '\r') by {
        if e.path.len() > 0 {
            assert(t.last() == e.path.last());
        }
    }
    let r4 = e.inode + seq![' '] + t;
    lemma_joined(e.inode, t);
    let r3 = e.device + seq![' '] + r4;
    lemma_joined(e.device, r4);
    let r2 = e.offset + seq![' '] + r3;
    lemma_joined(e.offset, r3);
    let r1 = e.perms + seq![' '] + r2;
    lemma_joined(e.perms, r2);
    lemma_joined(e.range(), r1);
}

proof fn lemma_joined(w: Seq<char>, rest: Seq<char>)
    requires
        text::word(w),
        forall|i: int| 0 <= i < rest.len() ==> #[trigger] rest[i] != '\n',
        rest.len() > 0 ==> rest.last() != '\r',
    ensures
        ({
            let s = w + seq![' '] + rest;
            &&& s.len() > 0
            &&& forall|i: int| 0 <= i < s.len() ==> #[trigger] s[i] != '\n'
            &&& s.last() != '\r'
        }),
{
    let s = w + seq![' '] + rest;
    assert forall|i: int| 0 <= i < s.len() implies #[trigger] s[i] != '\n' by {
        if i < w.len() {
            assert(!text::is_space(w[i]));
        } else if i > w.len() {
            assert(s[i] == rest[i - w.len() - 1]);
        }
    }
    if rest.len() > 0 {
        assert(s.last() == rest.last());
    } else {
        assert(s.last() == ' ');
    }
}

proof fn lemma_listing(es: Seq<Entry>)
    requires
        forall|i: int| 0 <= i < es.len() ==> (#[trigger] es[i]).valid(),
    ensures
        ({
            let v = regions_of(text::lines(listing(es)));
            &&& v.len() == es.len()
            &&& forall|i: int|
                0 <= i < es.len() ==> (#[trigger] v[i]).start == es[i].start && v[i].end
                    == es[i].end && v[i].perms == es[i].perms && v[i].path == es[i].file()
        }),
    decreases es.len(),
{
    if es.len() == 0 {
        text::law_lines(Seq::empty(), Seq::empty());
    } else {
        let e = es[0];
        let rest = es.drop_first();
        assert(e.valid());
        assert forall|i: int| 0 <= i < rest.len() implies (#[trigger] rest[i]).valid() by {
            assert(es[i + 1].valid());
        }
        lemma_listing(rest);
        law_line_reads_back(e);
        lemma_shown_is_a_line(e);
        text::law_lines(e.shown(), listing(rest));
        let ls = text::lines(listing(es));
        assert(ls.drop_first() =~= text::lines(listing(rest)));
        let v = regions_of(ls);
        let w = regions_of(text::lines(listing(rest)));
        assert forall|i: int| 0 <= i < es.len() implies (#[trigger] v[i]).start == es[i].start
            && v[i].end == es[i].end && v[i].perms == es[i].perms && v[i].path == es[i].file() by {
            if i > 0 {
                assert(v[i] == w[i - 1]);
                assert(rest[i - 1] == es[i]);
            }
        }
    }
}

/// What the kernel prints of the regions of a process is read back region by
/// region, in its order.
pub proof fn law_maps_reads_the_listing(
    p: &Process,
    es: Seq<Entry>,
    t: String,
    r: Result<Vec<MapRegion>, Error>,
)
    requires
        forall|i: int| 0 <= i < es.len() ==> (#[trigger] es[i]).valid(),
        t@ == listing(es),
        call_ensures(Process::maps, (p, Ok::<String, IoError>(t)), r),
    ensures
        r matches Ok(v) && v@.len() == es.len() && forall|i: int|
            0 <= i < es.len() ==> {
                let m = (#[trigger] v@[i])@;
                &&& m.start == es[i].start
                &&& m.end == es[i].end
                &&& m.perms == es[i].perms
                &&& m.path == es[i].file()
            },
{
    lemma_listing(es);
    let v = r->Ok_0;
    let w = regions_of(text::lines(t@));
    assert forall|i: int| 0 <= i < es.len() implies ({
        let m = (#[trigger] v@[i])@;
        &&& m.start == es[i].start
        &&& m.end == es[i].end
        &&& m.perms == es[i].perms
        &&& m.path == es[i].file()
    }) by {
        assert(region_views(v@)[i] == v@[i]@);
        assert(w[i].start == es[i].start);
    }
}

/// A line without a range of two addresses describes nothing and is skipped.
pub proof fn law_other_lines_are_skipped(line: Seq<char>, rest: Seq<Seq<char>>)
    requires
        forall|i: int| 0 <= i < line.len() ==> #[trigger] line[i] != '-',
    ensures
        region_of(line) is None,
        regions_of(seq![line] + rest) == regions_of(rest),
{
    lemma_fields_are_parts(line);
    let f = fields_of(line);
    if f.len() > 0 {
        assert(forall|i: int| 0 <= i < f[0].len() ==> line.contains(#[trigger] f[0][i]));
        assert forall|i: int| 0 <= i < f[0].len() implies #[trigger] f[0][i] != '-' by {
            assert(line.contains(f[0][i]));
        }
        text::law_len_before(f[0], '-', Seq::empty());
    }
    assert((seq![line] + rest).drop_first() =~= rest);
}

proof fn lemma_pieces_are_parts(s: Seq<char>, n: nat)
    ensures
        forall|k: int, i: int|
            0 <= k < text::pieces(s, n).len() && 0 <= i < text::pieces(s, n)[k].len()
                ==> s.contains(#[trigger] text::pieces(s, n)[k][i]),
    decreases n,
{
    let i = text::word_len(s) as int;
    if n > 1 && i < s.len() {
        let t = s.skip(i + 1);
        lemma_pieces_are_parts(t, (n - 1) as nat);
        let ps = text::pieces(s, n);
        assert forall|k: int, j: int| 0 <= k < ps.len() && 0 <= j < ps[k].len() implies s.contains(
            #[trigger] ps[k][j],
        ) by {
            if k == 0 {
                assert(s[j] == ps[k][j]);
            } else {
                let q = text::pieces(t, (n - 1) as nat);
                assert(ps[k] == q[k - 1]);
                assert(t.contains(q[k - 1][j]));
                let x = t.index_of(q[k - 1][j]);
                assert(s[i + 1 + x] == ps[k][j]);
            }
        }
    } else if n > 0 {
        let ps = text::pieces(s, n);
        assert forall|k: int, j: int| 0 <= k < ps.len() && 0 <= j < ps[k].len() implies s.contains(
            #[trigger] ps[k][j],
        ) by {
            assert(s[j] == ps[k][j]);
        }
    }
}

proof fn lemma_filled_are_members(v: Seq<Seq<char>>)
    ensures
        forall|k: int| 0 <= k < text::filled(v).len() ==> v.contains(#[trigger] text::filled(v)[k]),
    decreases v.len(),
{
    if v.len() > 0 {
        let t = v.drop_first();
        lemma_filled_are_members(t);
        let f = text::filled(v);
        assert forall|k: int| 0 <= k < f.len() implies v.contains(#[trigger] f[k]) by {
            let j = if v[0].len() == 0 {
                k
            } else {
                k - 1
            };
            if j < 0 {
                assert(v[0] == f[k]);
            } else {
                assert(f[k] == text::filled(t)[j]);
                assert(t.contains(text::filled(t)[j]));
                let x = t.index_of(f[k]);
                assert(v[x + 1] == f[k]);
            }
        }
    }
}

proof fn lemma_fields_are_parts(line: Seq<char>)
    ensures
        fields_of(line).len() > 0 ==> forall|i: int|
            0 <= i < fields_of(line)[0].len() ==> line.contains(#[trigger] fields_of(line)[0][i]),
{
    let ps = text::pieces(line, 6);
    lemma_pieces_are_parts(line, 6);
    lemma_filled_are_members(ps);
    let f = fields_of(line);
    if f.len() > 0 {
        assert(ps.contains(f[0]));
        let k = ps.index_of(f[0]);
        assert forall|i: int| 0 <= i < f[0].len() implies line.contains(#[trigger] f[0][i]) by {
            assert(line.contains(ps[k][i]));
        }
    }
}

/// A region has a right if and only if the letter for it stands in its place.
pub proof fn law_rights_are_letters(
    m: &MapRegion,
    readable: bool,
    writable: bool,
    executable: bool,
)
    requires
        vstd::utf8::is_ascii_chars(m@.perms),
        call_ensures(MapRegion::readable, (m,), readable),
        call_ensures(MapRegion::writable, (m,), writable),
        call_ensures(MapRegion::executable, (m,), executable),
    ensures
        readable == (m@.perms.len() > 0 && m@.perms[0] == 'r'),
        writable == (m@.perms.len() > 1 && m@.perms[1] == 'w'),
        executable == (m@.perms.len() > 2 && m@.perms[2] == 'x'),
{
    law_ascii_perms(m@.perms, 0, 0x72);
    law_ascii_perms(m@.perms, 1, 0x77);
    law_ascii_perms(m@.perms, 2, 0x78);
}

/// Whether a file of that name backs the region, by the last part of its path.
pub open spec fn backed_by(r: Region, name: Seq<char>) -> bool {
    r.path matches Some(p) && text::names(p, name)
}

pub(crate) proof fn lemma_backed_by(r: Region, name: Seq<char>)
    ensures
        r.is_of(name) <==> backed_by(r, name),
{
    if let Some(p) = r.path {
        text::law_basename_names(p, name);
    }
}

/// A module is found if and only if a region's path ends in its name. It starts
/// where the first of those regions starts and ends where the last of them ends,
/// whatever their rights and wherever they stand in the listing.
pub proof fn law_module_covers_its_regions(
    p: &Process,
    name: &str,
    v: Vec<MapRegion>,
    r: Result<Module, Error>,
)
    requires
        has_extent(region_views(v@), |m: Region| m.is_of(name@)),
        call_ensures(Process::module, (p, name, Ok::<Vec<MapRegion>, Error>(v)), r),
    ensures
        match r {
            Ok(m) => {
                &&& m.name@ == name@
                &&& m.base + m.size <= usize::MAX
                &&& exists|i: int|
                    0 <= i < v@.len() && backed_by((#[trigger] v@[i])@, name@) && v@[i]@.start
                        == m.base
                &&& exists|i: int|
                    0 <= i < v@.len() && backed_by((#[trigger] v@[i])@, name@) && v@[i]@.end
                        == m.base + m.size
                &&& exists|i: int|
                    0 <= i < v@.len() && backed_by((#[trigger] v@[i])@, name@) && v@[i]@.path
                        == Some(m.path@)
                &&& forall|i: int|
                    0 <= i < v@.len() && backed_by((#[trigger] v@[i])@, name@) ==> m.base
                        <= v@[i]@.start && v@[i]@.end <= m.base + m.size
            },
            Err(Error::ModuleNotFound { module, pid }) => {
                &&& module@ == name@
                &&& pid == p@
                &&& forall|i: int| 0 <= i < v@.len() ==> !backed_by((#[trigger] v@[i])@, name@)
            },
            Err(_) => false,
        },
{
    let regions = region_views(v@);
    let pick = |m: Region| m.is_of(name@);
    assert forall|i: int| 0 <= i < v@.len() implies (#[trigger] regions[i] == v@[i]@) && (pick(
        regions[i],
    ) <==> backed_by(v@[i]@, name@)) by {
        lemma_backed_by(v@[i]@, name@);
    }
    match r {
        Ok(m) => {
            let high = (m.base + m.size) as usize;
            let a = choose|a: int|
                0 <= a < regions.len() && pick(#[trigger] regions[a]) && regions[a].start == m.base;
            let b = choose|b: int|
                0 <= b < regions.len() && pick(#[trigger] regions[b]) && regions[b].end == high;
            let c = choose|c: int|
                0 <= c < regions.len() && (#[trigger] regions[c]).is_of(name@) && regions[c].is_at(
                    m.path@,
                ) && forall|j: int| c < j < regions.len() ==> !(#[trigger] regions[j]).is_of(name@);
            assert(pick(regions[c]));
            assert(backed_by(v@[a]@, name@) && v@[a]@.start == m.base);
            assert(backed_by(v@[b]@, name@) && v@[b]@.end == high);
            assert(backed_by(v@[c]@, name@) && v@[c]@.path == Some(m.path@));
            assert forall|i: int| 0 <= i < v@.len() && backed_by((#[trigger] v@[i])@, name@) implies
                m.base <= v@[i]@.start && v@[i]@.end <= m.base + m.size by {
                assert(pick(regions[i]));
            }
        },
        Err(_) => {
            assert forall|i: int| 0 <= i < v@.len() implies !backed_by((#[trigger] v@[i])@, name@) by {
                if backed_by(v@[i]@, name@) {
                    assert(pick(regions[i]));
                }
            }
        },
    }
}

/// Whether a module is listed at the path of the region and holds all of it.
pub open spec fn held(r: Region, ms: Seq<Module>) -> bool {
    exists|k: int|
        0 <= k < ms.len() && r.path == Some((#[trigger] ms[k]).path@) && ms[k].base <= r.start
            && r.end <= ms[k].base + ms[k].size
}

/// Whether a module is a file given by its full path, named by the last part of
/// that, and regions of that file start where it starts and end where it ends.
pub open spec fn is_mapped(m: Module, v: Seq<Region>) -> bool {
    &&& m.path@.len() > 0 && m.path@[0] == '/'
    &&& text::names(m.path@, m.name@)
    &&& exists|i: int|
        0 <= i < v.len() && (#[trigger] v[i]).path == Some(m.path@) && v[i].start == m.base
    &&& exists|i: int|
        0 <= i < v.len() && (#[trigger] v[i]).path == Some(m.path@) && v[i].end == m.base + m.size
}

proof fn lemma_held(v: Seq<Region>, ms: Seq<Module>, i: int)
    requires
        lists_modules(v, ms),
        0 <= i < v.len(),
        v[i].path matches Some(x) && x.len() > 0 && x[0] == '/',
    ensures
        held(v[i], ms),
{
    assert(v[i].file_backed());
    let k = choose|k: int| 0 <= k < ms.len() && v[i].is_at((#[trigger] ms[k]).path@);
    let pick = |m: Region| m.is_at(ms[k].path@);
    assert(spans(v, pick, ms[k].base, (ms[k].base + ms[k].size) as usize));
    assert(pick(v[i]));
}

proof fn lemma_is_mapped(v: Seq<Region>, ms: Seq<Module>, k: int)
    requires
        lists_modules(v, ms),
        0 <= k < ms.len(),
    ensures
        is_mapped(ms[k], v),
{
    let m = ms[k];
    let pick = |x: Region| x.is_at(m.path@);
    let high = (m.base + m.size) as usize;
    text::law_basename_names(m.path@, m.name@);
    assert(spans(v, pick, m.base, high));
    let a = choose|a: int| 0 <= a < v.len() && pick(#[trigger] v[a]) && v[a].start == m.base;
    let b = choose|b: int| 0 <= b < v.len() && pick(#[trigger] v[b]) && v[b].end == high;
    assert(v[a].path == Some(m.path@) && v[b].path == Some(m.path@));
}

/// The modules are the files that back regions: every path that starts with a
/// slash, each once and in the order of a dictionary, with the last part of the
/// path as its name and with the span of all its regions.
pub proof fn law_modules_are_the_mapped_files(
    p: &Process,
    v: Vec<MapRegion>,
    r: Result<Vec<Module>, Error>,
)
    requires
        files_have_extent(region_views(v@)),
        call_ensures(Process::modules, (p, Ok::<Vec<MapRegion>, Error>(v)), r),
    ensures
        r matches Ok(ms) && {
            &&& forall|a: int, b: int|
                0 <= a < b < ms@.len() ==> text::before(
                    (#[trigger] ms@[a]).path@,
                    (#[trigger] ms@[b]).path@,
                )
            &&& forall|i: int|
                0 <= i < v@.len() && ((#[trigger] v@[i])@.path matches Some(x) && x.len() > 0
                    && x[0] == '/') ==> held(v@[i]@, ms@)
            &&& forall|k: int|
                0 <= k < ms@.len() ==> is_mapped(#[trigger] ms@[k], region_views(v@))
        },
{
    let regions = region_views(v@);
    let ms = r->Ok_0@;
    assert forall|i: int|
        0 <= i < v@.len() && ((#[trigger] v@[i])@.path matches Some(x) && x.len() > 0 && x[0]
            == '/') implies held(v@[i]@, ms) by {
        assert(regions[i] == v@[i]@);
        lemma_held(regions, ms, i);
    }
    assert forall|k: int| 0 <= k < ms.len() implies is_mapped(#[trigger] ms[k], regions) by {
        lemma_is_mapped(regions, ms, k);
    }
}

/// A module holds an address if and only if that lies from its base up to its
/// end.
pub proof fn law_module_contains_its_span(m: &Module, addr: usize, r: bool)
    requires
        m.base + m.size <= usize::MAX,
        call_ensures(Module::contains, (m, addr), r),
    ensures
        r == (m.base <= addr && addr - m.base < m.size),
{
}

/// The regions of a process are listed in the file `maps` of its directory, and a
/// listing that cannot be read is an error.
pub proof fn law_maps_file(
    p: &Process,
    path: String,
    e: IoError,
    r: Result<Vec<MapRegion>, Error>,
    f: Error,
    name: &str,
    module: Result<Module, Error>,
    modules: Result<Vec<Module>, Error>,
)
    requires
        0 <= p@,
        call_ensures(Process::maps_path, (p,), path),
        call_ensures(Process::maps, (p, Err::<String, IoError>(e)), r),
        call_ensures(Process::module, (p, name, Err::<Vec<MapRegion>, Error>(f)), module),
        call_ensures(Process::modules, (p, Err::<Vec<MapRegion>, Error>(f)), modules),
    ensures
        path@ == "/proc/"@ + text::in_decimal(p@ as nat) + "/"@ + "maps"@,
        r == Err::<Vec<MapRegion>, Error>(Error::Io(e)),
        module == Err::<Module, Error>(f),
        modules == Err::<Vec<Module>, Error>(f),
{
    text::law_numbers_are_written_in_digits(p@ as nat);
}

/// A region is as long as its end lies behind its start, and empty if they are the
/// same.
pub proof fn law_region_length(m: &MapRegion, len: usize, empty: bool)
    requires
        m@.start <= m@.end,
        call_ensures(MapRegion::len, (m,), len),
        call_ensures(MapRegion::is_empty, (m,), empty),
    ensures
        m@.start + len == m@.end,
        empty <==> len == 0,
{
}

/// A module has an extent unless all its regions end before the first of them
/// starts; one without regions has.
pub proof fn law_extent_of_a_module(v: &Vec<MapRegion>, name: &str, r: bool)
    requires
        call_ensures(module_has_extent, (v, name), r),
    ensures
        r <==> (forall|i: int| 0 <= i < v@.len() ==> !backed_by((#[trigger] v@[i])@, name@))
            || exists|i: int, j: int|
            0 <= i < v@.len() && 0 <= j < v@.len() && backed_by((#[trigger] v@[i])@, name@)
                && backed_by((#[trigger] v@[j])@, name@) && v@[i]@.start <= v@[j]@.end,
        (forall|i: int| 0 <= i < v@.len() ==> (#[trigger] v@[i])@.start <= v@[i]@.end) ==> r,
{
    let regions = region_views(v@);
    let pick = |m: Region| m.is_of(name@);
    assert forall|i: int| 0 <= i < v@.len() implies regions[i] == (#[trigger] v@[i])@ && (pick(
        regions[i],
    ) <==> backed_by(v@[i]@, name@)) by {
        lemma_backed_by(v@[i]@, name@);
    }
    assert forall|i: int| 0 <= i < v@.len() implies (#[trigger] regions[i]) == v@[i]@ && (pick(
        regions[i],
    ) <==> backed_by(v@[i]@, name@)) by {
        lemma_backed_by(v@[i]@, name@);
    }
    if any(regions, pick) {
        let k = choose|k: int| 0 <= k < regions.len() && pick(#[trigger] regions[k]);
        assert(backed_by(v@[k]@, name@));
        if r {
            let (a, b) = choose|a: int, b: int|
                0 <= a < regions.len() && 0 <= b < regions.len() && pick(#[trigger] regions[a])
                    && pick(#[trigger] regions[b]) && regions[a].start <= regions[b].end;
            assert(backed_by(v@[a]@, name@) && backed_by(v@[b]@, name@) && v@[a]@.start
                <= v@[b]@.end);
        }
    } else {
        assert forall|i: int| 0 <= i < v@.len() implies !backed_by((#[trigger] v@[i])@, name@) by {
            assert(!pick(regions[i]));
        }
    }
    if exists|i: int, j: int|
        0 <= i < v@.len() && 0 <= j < v@.len() && backed_by((#[trigger] v@[i])@, name@) && backed_by(
            (#[trigger] v@[j])@,
            name@,
        ) && v@[i]@.start <= v@[j]@.end {
        let (i, j) = choose|i: int, j: int|
            0 <= i < v@.len() && 0 <= j < v@.len() && backed_by((#[trigger] v@[i])@, name@)
                && backed_by((#[trigger] v@[j])@, name@) && v@[i]@.start <= v@[j]@.end;
        assert(pick(regions[i]) && pick(regions[j]));
    }
}

/// Where no region ends before it starts, the modules can be listed.
pub proof fn law_ordered_regions_can_be_listed(v: &Vec<MapRegion>, r: bool)
    requires
        call_ensures(modules_have_extent, (v,), r),
        forall|i: int| 0 <= i < v@.len() ==> (#[trigger] v@[i])@.start <= v@[i]@.end,
    ensures
        r,
{
    let regions = region_views(v@);
    assert forall|i: int| 0 <= i < regions.len() implies (#[trigger] regions[i]).start
        <= regions[i].end by {
        assert(regions[i] == v@[i]@);
    }
    assert forall|i: int| 0 <= i < regions.len() && (#[trigger] regions[i]).file_backed() implies has_extent(
    regions, |m: Region| m.is_at(regions[i].path->0)) by {
        law_ordered_regions_have_extent(regions, |m: Region| m.is_at(regions[i].path->0));
    }
}

} // verus!
