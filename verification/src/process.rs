//! Process discovery: turning a name or pid into a [`Process`] handle.
use vstd::multiset::Multiset;
use vstd::prelude::*;

use crate::error::Error;
use crate::text;

verus! {

/// A handle to a target process. Cloning is cheap (just the pid).
#[derive(Clone, Copy, Debug)]
pub struct Process {
    pub(crate) pid: i32,
}

/// The path of the process's own directory, `/proc/<pid>`.
pub open spec fn spec_proc_dir(pid: i32) -> Seq<char> {
    "/proc/"@ + text::decimal(pid as int)
}

/// The path of a file in the process's own directory, `/proc/<pid>/<leaf>`.
pub open spec fn spec_proc_file(pid: i32, leaf: Seq<char>) -> Seq<char> {
    spec_proc_dir(pid) + "/"@ + leaf
}

/// The path of the process's own directory, `/proc/<pid>`.
pub fn proc_dir(pid: i32) -> (r: String)
    ensures
        r@ == spec_proc_dir(pid),
{
    let mut s: String = "/proc/".to_owned();
    text::push_decimal(&mut s, pid as i64);
    s
}

/// The path of a file in the process's own directory, `/proc/<pid>/<leaf>`.
pub fn proc_file(pid: i32, leaf: &str) -> (r: String)
    ensures
        r@ == spec_proc_file(pid, leaf@),
{
    let mut s: String = proc_dir(pid);
    s.append("/");
    s.append(leaf);
    s
}

impl View for Process {
    type V = i32;

    /// The pid.
    closed spec fn view(&self) -> i32 {
        self.pid
    }
}

/// The pid that an entry of `/proc` stands for, if it stands for one.
pub open spec fn entry_pid(entry: Seq<char>) -> Option<i32> {
    match text::signed_value(entry) {
        Some(v) => if i32::MIN <= v <= i32::MAX {
            Some(v as i32)
        } else {
            None
        },
        None => None,
    }
}

/// The pids among the entries of `/proc`, in the order of the entries.
pub open spec fn entry_pids(entries: Seq<String>) -> Seq<i32>
    decreases entries.len(),
{
    if entries.len() == 0 {
        Seq::empty()
    } else {
        match entry_pid(entries.last()@) {
            Some(pid) => entry_pids(entries.drop_last()).push(pid),
            None => entry_pids(entries.drop_last()),
        }
    }
}

/// Whether the text of a `comm` file, without the white space around it, is
/// `name`.
pub open spec fn comm_is(comm: Option<Seq<char>>, name: Seq<char>) -> bool {
    comm matches Some(c) && text::trim(c) == name
}

/// How many bytes of `b` come before the first NUL.
pub open spec fn len_before_nul(b: Seq<u8>) -> nat
    decreases b.len(),
{
    if b.len() == 0 || b[0] == 0 {
        0
    } else {
        1 + len_before_nul(b.drop_first())
    }
}

/// `b` up to its first NUL.
pub open spec fn before_nul(b: Seq<u8>) -> Seq<u8> {
    b.take(len_before_nul(b) as int)
}

/// Whether the first argument of a `cmdline` file is UTF-8 and names a file
/// `name`.
pub open spec fn cmdline_is(cmdline: Option<Seq<u8>>, name: Seq<char>) -> bool {
    cmdline matches Some(b) && vstd::utf8::valid_utf8(before_nul(b)) && text::basename(
        vstd::utf8::decode_utf8(before_nul(b)),
    ) == name
}

/// Whether the numbers of `v` do not decrease.
pub open spec fn ascending(v: Seq<i32>) -> bool {
    forall|i: int, j: int| 0 <= i <= j < v.len() ==> v[i] <= v[j]
}

/// A search by name under way.
#[verifier::ext_equal]
pub struct Hunt {
    pub name: Seq<char>,
    /// The pids that matched so far.
    pub found: Multiset<i32>,
    /// The pids still to be looked at, the present one first.
    pub rest: Seq<i32>,
}

impl Hunt {
    /// The search once its present pid has matched.
    pub open spec fn taken(self) -> Hunt {
        Hunt {
            name: self.name,
            found: self.found.insert(self.rest[0]),
            rest: self.rest.drop_first(),
        }
    }

    /// The search once its present pid has not matched.
    pub open spec fn passed(self) -> Hunt {
        Hunt { rest: self.rest.drop_first(), ..self }
    }
}

/// What a search by name does next.
pub enum NameStep {
    /// Read `/proc/<pid>/comm`.
    Comm(i32, WantsComm),
    /// Read `/proc/<pid>/cmdline`.
    Cmdline(i32, WantsCmdline),
    /// These pids matched, in ascending order.
    Done(Vec<i32>),
}

impl NameStep {
    /// Whether this is how a search goes on that stands as `h` does: with the
    /// `comm` of its present pid, or with the result if there is none.
    pub open spec fn goes_on(self, h: Hunt) -> bool {
        if h.rest.len() == 0 {
            self matches NameStep::Done(v) && ascending(v@) && v@.to_multiset() == h.found
        } else {
            self matches NameStep::Comm(pid, w) && pid == h.rest[0] && w@ == h
        }
    }
}

struct Search {
    name: Vec<char>,
    pids: Vec<i32>,
    next: usize,
    found: Vec<i32>,
}

impl Search {
    spec fn hunt(self) -> Hunt {
        Hunt {
            name: self.name@,
            found: self.found@.to_multiset(),
            rest: self.pids@.skip(self.next as int),
        }
    }

    spec fn wf(self) -> bool {
        self.next <= self.pids@.len() && ascending(self.found@)
    }

    fn go_on(self) -> (r: NameStep)
        requires
            self.wf(),
        ensures
            r.goes_on(self.hunt()),
    {
        if self.next >= self.pids.len() {
            NameStep::Done(self.found)
        } else {
            let pid: i32 = self.pids[self.next];
            NameStep::Comm(pid, WantsComm { search: self })
        }
    }

    fn decide(self, matched: bool) -> (r: NameStep)
        requires
            self.wf(),
            self.next < self.pids@.len(),
        ensures
            r.goes_on(
                if matched {
                    self.hunt().taken()
                } else {
                    self.hunt().passed()
                },
            ),
    {
        let ghost h = self.hunt();
        let mut s = self;
        let pid: i32 = s.pids[s.next];
        assert(s.next < s.pids.len());
        if matched {
            insert_ascending(&mut s.found, pid);
        }
        assert(h.rest.drop_first() =~= s.pids@.skip(s.next + 1));
        s.next = s.next + 1;
        s.go_on()
    }
}

/// A search by name that waits for the `comm` of its present pid.
pub struct WantsComm {
    search: Search,
}

/// A search by name that waits for the `cmdline` of its present pid.
pub struct WantsCmdline {
    search: Search,
}

impl View for WantsComm {
    type V = Hunt;

    closed spec fn view(&self) -> Hunt {
        self.search.hunt()
    }
}

impl View for WantsCmdline {
    type V = Hunt;

    closed spec fn view(&self) -> Hunt {
        self.search.hunt()
    }
}

impl WantsComm {
    #[verifier::type_invariant]
    spec fn inv(self) -> bool {
        self.search.wf() && self.search.next < self.search.pids@.len()
    }

    /// Go on with the text of the `comm` file, if it could be read.
    pub fn resume(self, comm: Option<String>) -> (r: NameStep)
        ensures
            ({
                let text: Option<Seq<char>> = match comm {
                    Some(c) => Some(c@),
                    None => None,
                };
                if comm_is(text, self@.name) {
                    r.goes_on(self@.taken())
                } else {
                    r matches NameStep::Cmdline(pid, w) && pid == self@.rest[0] && w@ == self@
                }
            }),
    {
        proof {
            use_type_invariant(&self);
        }
        let matched = match &comm {
            Some(c) => {
                let chars: Vec<char> = text::chars_of(c.as_str());
                text::same(text::trimmed(chars.as_slice()), self.search.name.as_slice())
            },
            None => false,
        };
        if matched {
            self.search.decide(true)
        } else {
            let pid: i32 = self.search.pids[self.search.next];
            NameStep::Cmdline(pid, WantsCmdline { search: self.search })
        }
    }
}

impl WantsCmdline {
    #[verifier::type_invariant]
    spec fn inv(self) -> bool {
        self.search.wf() && self.search.next < self.search.pids@.len()
    }

    /// Go on with the contents of the `cmdline` file, if it could be read.
    pub fn resume(self, cmdline: Option<Vec<u8>>) -> (r: NameStep)
        ensures
            ({
                let data: Option<Seq<u8>> = match cmdline {
                    Some(b) => Some(b@),
                    None => None,
                };
                r.goes_on(
                    if cmdline_is(data, self@.name) {
                        self@.taken()
                    } else {
                        self@.passed()
                    },
                )
            }),
    {
        proof {
            use_type_invariant(&self);
        }
        let matched = match cmdline {
            Some(b) => match utf8_text(first_argument(b)) {
                Some(t) => {
                    let chars: Vec<char> = text::chars_of(t.as_str());
                    text::same(text::base_of(chars.as_slice()), self.search.name.as_slice())
                },
                None => false,
            },
            None => false,
        };
        self.search.decide(matched)
    }
}

/// `b` up to its first NUL.
fn first_argument(b: Vec<u8>) -> (r: Vec<u8>)
    ensures
        r@ == before_nul(b@),
{
    let n: usize = find_nul(b.as_slice());
    let mut v: Vec<u8> = b;
    v.truncate(n);
    assert(v@ =~= b@.take(n as int));
    v
}

/// How many bytes of `b` come before the first NUL.
pub(crate) fn find_nul(b: &[u8]) -> (r: usize)
    ensures
        r == len_before_nul(b@),
        r <= b@.len(),
{
    let mut i: usize = 0;
    assert(b@.skip(0) =~= b@);
    while i < b.len()
        invariant
            i <= b.len(),
            len_before_nul(b@) == i + len_before_nul(b@.skip(i as int)),
        decreases b.len() - i,
    {
        if b[i] == 0 {
            return i;
        }
        assert(b@.skip(i as int).drop_first() =~= b@.skip(i + 1));
        i = i + 1;
    }
    i
}

/// `String::from_utf8`: the text that the bytes encode, or nothing if they are
/// not UTF-8.
#[verifier::external_body]
fn utf8_text(b: Vec<u8>) -> (r: Option<String>)
    ensures
        match r {
            Some(s) => vstd::utf8::valid_utf8(b@) && s@ == vstd::utf8::decode_utf8(b@),
            None => !vstd::utf8::valid_utf8(b@),
        },
{
    String::from_utf8(b).ok()
}

/// Put `x` into `v` behind everything that is not greater.
fn insert_ascending(v: &mut Vec<i32>, x: i32)
    requires
        ascending(old(v)@),
    ensures
        ascending(final(v)@),
        final(v)@.to_multiset() == old(v)@.to_multiset().insert(x),
{
    let mut i: usize = v.len();
    while i > 0 && v[i - 1] > x
        invariant
            i <= v.len(),
            v@ == old(v)@,
            ascending(v@),
            forall|j: int| i <= j < v@.len() ==> v@[j] > x,
        decreases i,
    {
        i = i - 1;
    }
    v.insert(i, x);
    proof {
        vstd::seq_lib::to_multiset_insert(old(v)@, i as int, x);
    }
}

impl Process {
    /// The target's pid.
    pub fn pid(&self) -> (r: i32)
        ensures
            r == self@,
    {
        self.pid
    }

    /// Wrap an existing pid, given whether `/proc/<pid>` exists.
    ///
    /// # Errors
    /// [`Error::ProcessNotFound`] if it does not.
    pub fn by_pid(pid: i32, exists: bool) -> (r: Result<Self, Error>)
        ensures
            match r {
                Ok(p) => exists && p@ == pid,
                Err(Error::ProcessNotFound(s)) => !exists && s@ == text::decimal(pid as int),
                Err(_) => false,
            },
    {
        if exists {
            Ok(Process { pid })
        } else {
            let mut s: String = String::new();
            text::push_decimal(&mut s, pid as i64);
            assert(s@ =~= text::decimal(pid as int));
            Err(Error::ProcessNotFound(s))
        }
    }

    /// The process of the lowest pid among those that
    /// [`all_by_name`](Self::all_by_name) found for `name`.
    ///
    /// # Errors
    /// [`Error::ProcessNotFound`] if there is none.
    pub fn by_name(name: &str, pids: &Vec<i32>) -> (r: Result<Self, Error>)
        ensures
            match r {
                Ok(p) => pids@.len() > 0 && p@ == pids@[0] && (ascending(pids@) ==> forall|i: int|
                    0 <= i < pids@.len() ==> p@ <= pids@[i]),
                Err(Error::ProcessNotFound(s)) => pids@.len() == 0 && s@ == name@,
                Err(_) => false,
            },
    {
        if pids.len() > 0 {
            Ok(Process { pid: pids[0] })
        } else {
            Err(Error::ProcessNotFound(name.to_owned()))
        }
    }

    /// Find every pid matching `name`, given the names of the entries of
    /// `/proc` (nothing if it cannot be read).
    ///
    /// A process matches by its `comm`, which the kernel truncates to 15 bytes,
    /// or else by the basename of its first argument in `cmdline`. The result
    /// is empty if `/proc` cannot be read or nothing matches (this is an
    /// inventory, not a fallible lookup).
    pub fn all_by_name(name: &str, entries: Option<Vec<String>>) -> (r: NameStep)
        ensures
            r.goes_on(
                Hunt {
                    name: name@,
                    found: Multiset::empty(),
                    rest: match entries {
                        Some(v) => entry_pids(v@),
                        None => Seq::empty(),
                    },
                },
            ),
    {
        let mut pids: Vec<i32> = Vec::new();
        if let Some(v) = &entries {
            let mut i: usize = 0;
            while i < v.len()
                invariant
                    i <= v.len(),
                    pids@ == entry_pids(v@.take(i as int)),
                decreases v.len() - i,
            {
                assert(v@.take(i + 1).drop_last() =~= v@.take(i as int));
                let chars: Vec<char> = text::chars_of(v[i].as_str());
                if let Some(pid) = text::parse_i32(chars.as_slice()) {
                    pids.push(pid);
                }
                i = i + 1;
            }
            assert(v@.take(i as int) =~= v@);
        }
        let s = Search { name: text::chars_of(name), pids, next: 0, found: Vec::new() };
        proof {
            assert(s.pids@.skip(0) =~= s.pids@);
            s.found@.to_multiset_ensures();
            assert(s.found@.to_multiset() =~= Multiset::empty());
        }
        s.go_on()
    }
}

/// The pids of `pids` that match `name`, on a system whose files are these.
pub open spec fn matching(
    pids: Seq<i32>,
    name: Seq<char>,
    comm: spec_fn(i32) -> Option<Seq<char>>,
    cmdline: spec_fn(i32) -> Option<Seq<u8>>,
) -> Multiset<i32>
    decreases pids.len(),
{
    if pids.len() == 0 {
        Multiset::empty()
    } else {
        let rest = matching(pids.drop_first(), name, comm, cmdline);
        if comm_is(comm(pids[0]), name) || cmdline_is(cmdline(pids[0]), name) {
            rest.insert(pids[0])
        } else {
            rest
        }
    }
}

/// The search once its present pid is decided, on a system whose files are
/// these.
pub open spec fn decided(
    h: Hunt,
    comm: spec_fn(i32) -> Option<Seq<char>>,
    cmdline: spec_fn(i32) -> Option<Seq<u8>>,
) -> Hunt {
    if comm_is(comm(h.rest[0]), h.name) || cmdline_is(cmdline(h.rest[0]), h.name) {
        h.taken()
    } else {
        h.passed()
    }
}

/// Whatever a search by name has found, together with what it will find among
/// the rest, is always the same: in the end, every pid that matches and no
/// other.
pub proof fn law_name_search_finds_the_matches(
    h: Hunt,
    comm: spec_fn(i32) -> Option<Seq<char>>,
    cmdline: spec_fn(i32) -> Option<Seq<u8>>,
)
    ensures
        h.rest.len() == 0 ==> h.found.add(matching(h.rest, h.name, comm, cmdline)) == h.found,
        h.rest.len() > 0 ==> ({
            let next = decided(h, comm, cmdline);
            next.found.add(matching(next.rest, h.name, comm, cmdline)) == h.found.add(
                matching(h.rest, h.name, comm, cmdline),
            )
        }),
{
    if h.rest.len() == 0 {
        assert(h.found.add(Multiset::empty()) =~= h.found);
    } else {
        let rest = matching(h.rest.drop_first(), h.name, comm, cmdline);
        assert(h.found.insert(h.rest[0]).add(rest) =~= h.found.add(rest.insert(h.rest[0])));
    }
}

/// The search once all its pids are decided.
pub open spec fn ended(
    h: Hunt,
    comm: spec_fn(i32) -> Option<Seq<char>>,
    cmdline: spec_fn(i32) -> Option<Seq<u8>>,
) -> Hunt
    decreases h.rest.len(),
{
    if h.rest.len() == 0 {
        h
    } else {
        ended(decided(h, comm, cmdline), comm, cmdline)
    }
}

/// A search by name ends with what it had found and every pid of the rest that
/// matches, in ascending order; each of its steps leads there. One that has found
/// nothing yet ends with the pids that match and no other.
pub proof fn law_name_search_ends_with_the_matches(
    h: Hunt,
    comm: spec_fn(i32) -> Option<Seq<char>>,
    cmdline: spec_fn(i32) -> Option<Seq<u8>>,
    r: NameStep,
)
    requires
        r.goes_on(h),
    ensures
        ended(h, comm, cmdline).rest.len() == 0,
        ended(h, comm, cmdline).found == h.found.add(matching(h.rest, h.name, comm, cmdline)),
        h.found == Multiset::<i32>::empty() ==> ended(h, comm, cmdline).found == matching(
            h.rest,
            h.name,
            comm,
            cmdline,
        ),
        match r {
            NameStep::Done(v) => ascending(v@) && v@.to_multiset() == ended(
                h,
                comm,
                cmdline,
            ).found,
            NameStep::Comm(pid, w) => pid == h.rest[0] && w@ == h && ended(h, comm, cmdline)
                == ended(decided(w@, comm, cmdline), comm, cmdline),
            NameStep::Cmdline(_, _) => false,
        },
{
    lemma_ended(h, comm, cmdline);
}

proof fn lemma_ended(
    h: Hunt,
    comm: spec_fn(i32) -> Option<Seq<char>>,
    cmdline: spec_fn(i32) -> Option<Seq<u8>>,
)
    ensures
        ended(h, comm, cmdline).rest.len() == 0,
        ended(h, comm, cmdline).found == h.found.add(matching(h.rest, h.name, comm, cmdline)),
    decreases h.rest.len(),
{
    law_name_search_finds_the_matches(h, comm, cmdline);
    if h.rest.len() > 0 {
        lemma_ended(decided(h, comm, cmdline), comm, cmdline);
    }
}

/// A process is known by what stands in its `comm` file, but for the line feed
/// behind it.
pub proof fn law_comm_is_the_name(written: Seq<char>, name: Seq<char>)
    requires
        written.len() > 0,
        !text::is_space(written[0]),
        !text::is_space(written.last()),
    ensures
        comm_is(Some(written + seq!['\n']), name) <==> written == name,
        comm_is(Some(written), name) <==> written == name,
        !comm_is(None, name),
{
    let none = Seq::<char>::empty();
    text::law_trimming(none, written, seq!['\n']);
    assert(none + written + seq!['\n'] =~= written + seq!['\n']);
    text::law_trimming(none, written, none);
    assert(none + written + none =~= written);
}

proof fn lemma_before_nul(b: Seq<u8>, rest: Seq<u8>)
    requires
        forall|i: int| 0 <= i < b.len() ==> #[trigger] b[i] != 0,
        rest.len() > 0 ==> rest[0] == 0,
    ensures
        len_before_nul(b + rest) == b.len(),
        before_nul(b + rest) == b,
    decreases b.len(),
{
    let s = b + rest;
    if b.len() > 0 {
        let t = b.drop_first();
        assert(b[0] != 0);
        assert forall|i: int| 0 <= i < t.len() implies #[trigger] t[i] != 0 by {
            assert(b[i + 1] != 0);
        }
        lemma_before_nul(t, rest);
        assert(s.drop_first() =~= t + rest);
    } else {
        assert(s =~= rest);
    }
    assert(s.take(b.len() as int) =~= b);
}

/// A process is known by the last part of its first argument too, whatever
/// arguments follow, if that argument is text.
pub proof fn law_cmdline_names_the_file(first: Seq<u8>, rest: Seq<u8>, name: Seq<char>)
    requires
        forall|i: int| 0 <= i < first.len() ==> #[trigger] first[i] != 0,
    ensures
        cmdline_is(Some(first + seq![0u8] + rest), name) <==> vstd::utf8::valid_utf8(first)
            && text::names(vstd::utf8::decode_utf8(first), name),
        cmdline_is(Some(first), name) <==> vstd::utf8::valid_utf8(first) && text::names(
            vstd::utf8::decode_utf8(first),
            name,
        ),
        !cmdline_is(None, name),
{
    lemma_before_nul(first, seq![0u8] + rest);
    assert(first + (seq![0u8] + rest) =~= first + seq![0u8] + rest);
    lemma_before_nul(first, Seq::empty());
    assert(first + Seq::<u8>::empty() =~= first);
    text::law_basename_names(vstd::utf8::decode_utf8(first), name);
}

/// An entry of `/proc` stands for a pid if it is the pid's number, and an entry
/// that starts with a letter stands for none.
pub proof fn law_entries_are_numbers(pid: i32, zeros: nat, entry: Seq<char>)
    ensures
        0 <= pid ==> entry_pid(text::in_decimal(pid as nat)) == Some(pid),
        0 <= pid ==> entry_pid(text::zeros(zeros) + text::in_decimal(pid as nat)) == Some(pid),
        entry.len() > 0 && 'a' <= entry[0] <= 'z' ==> entry_pid(entry) is None,
{
    if 0 <= pid {
        text::law_decimal_reads_back(pid as nat, zeros);
    }
    if entry.len() > 0 && 'a' <= entry[0] <= 'z' {
        lemma_no_number(entry);
    }
}

proof fn lemma_no_number(s: Seq<char>)
    requires
        s.len() > 0,
        'a' <= s[0] <= 'z',
    ensures
        text::digits_value(s, 10) is None,
    decreases s.len(),
{
    if s.len() == 1 {
        assert(s.last() == s[0]);
    } else {
        assert(s.drop_last()[0] == s[0]);
        lemma_no_number(s.drop_last());
    }
}

/// The view of a text that could be read, or not.
pub open spec fn text_view(t: Option<String>) -> Option<Seq<char>> {
    match t {
        Some(s) => Some(s@),
        None => None,
    }
}

/// The view of data that could be read, or not.
pub open spec fn data_view(t: Option<Vec<u8>>) -> Option<Seq<u8>> {
    match t {
        Some(b) => Some(b@),
        None => None,
    }
}

/// Whether a search by name, on a system whose files are these, ends within `n`
/// files and gives `found`.
pub open spec fn ends_with(
    comm: spec_fn(i32) -> Option<Seq<char>>,
    cmdline: spec_fn(i32) -> Option<Seq<u8>>,
    r: NameStep,
    n: nat,
    found: Seq<i32>,
) -> bool
    decreases n,
{
    match r {
        NameStep::Done(v) => v@ == found,
        NameStep::Comm(pid, w) => n > 0 && exists|t: Option<String>, next: NameStep|
            text_view(t) == comm(pid) && #[trigger] call_ensures(WantsComm::resume, (w, t), next)
                && ends_with(comm, cmdline, next, (n - 1) as nat, found),
        NameStep::Cmdline(pid, w) => n > 0 && exists|t: Option<Vec<u8>>, next: NameStep|
            data_view(t) == cmdline(pid) && #[trigger] call_ensures(
                WantsCmdline::resume,
                (w, t),
                next,
            ) && ends_with(comm, cmdline, next, (n - 1) as nat, found),
    }
}

proof fn lemma_ends_with(
    comm: spec_fn(i32) -> Option<Seq<char>>,
    cmdline: spec_fn(i32) -> Option<Seq<u8>>,
    r: NameStep,
    h: Hunt,
    n: nat,
    found: Seq<i32>,
)
    requires
        ends_with(comm, cmdline, r, n, found),
        r.goes_on(h) || (h.rest.len() > 0 && !comm_is(comm(h.rest[0]), h.name)
            && (r matches NameStep::Cmdline(pid, w) && pid == h.rest[0] && w@ == h)),
    ensures
        ascending(found),
        found.to_multiset() == h.found.add(matching(h.rest, h.name, comm, cmdline)),
    decreases n,
{
    law_name_search_finds_the_matches(h, comm, cmdline);
    match r {
        NameStep::Done(v) => {},
        NameStep::Comm(pid, w) => {
            let (t, next) = choose|t: Option<String>, next: NameStep|
                text_view(t) == comm(pid) && #[trigger] call_ensures(
                    WantsComm::resume,
                    (w, t),
                    next,
                ) && ends_with(comm, cmdline, next, (n - 1) as nat, found);
            if comm_is(comm(pid), h.name) {
                lemma_ends_with(comm, cmdline, next, h.taken(), (n - 1) as nat, found);
                assert(decided(h, comm, cmdline) == h.taken());
            } else {
                lemma_ends_with(comm, cmdline, next, h, (n - 1) as nat, found);
            }
        },
        NameStep::Cmdline(pid, w) => {
            let (t, next) = choose|t: Option<Vec<u8>>, next: NameStep|
                data_view(t) == cmdline(pid) && #[trigger] call_ensures(
                    WantsCmdline::resume,
                    (w, t),
                    next,
                ) && ends_with(comm, cmdline, next, (n - 1) as nat, found);
            lemma_ends_with(
                comm,
                cmdline,
                next,
                decided(h, comm, cmdline),
                (n - 1) as nat,
                found,
            );
        },
    }
}

proof fn lemma_matching(
    pids: Seq<i32>,
    name: Seq<char>,
    comm: spec_fn(i32) -> Option<Seq<char>>,
    cmdline: spec_fn(i32) -> Option<Seq<u8>>,
    x: i32,
)
    ensures
        matching(pids, name, comm, cmdline).count(x) > 0 <==> pids.contains(x) && (comm_is(
            comm(x),
            name,
        ) || cmdline_is(cmdline(x), name)),
    decreases pids.len(),
{
    if pids.len() > 0 {
        let rest = pids.drop_first();
        lemma_matching(rest, name, comm, cmdline, x);
        if rest.contains(x) {
            let i = rest.index_of(x);
            assert(pids[i + 1] == x);
        }
        if pids.contains(x) {
            let i = pids.index_of(x);
            if i > 0 {
                assert(rest[i - 1] == x);
            }
        }
    }
}

proof fn lemma_entry_pids(entries: Seq<String>, x: i32)
    ensures
        entry_pids(entries).contains(x) <==> exists|i: int|
            0 <= i < entries.len() && entry_pid((#[trigger] entries[i])@) == Some(x),
    decreases entries.len(),
{
    if entries.len() > 0 {
        let rest = entries.drop_last();
        let last = entries.len() - 1;
        lemma_entry_pids(rest, x);
        let (a, b) = (entry_pids(rest), entry_pids(entries));
        if a.contains(x) {
            let i = choose|i: int|
                0 <= i < rest.len() && entry_pid((#[trigger] rest[i])@) == Some(x);
            assert(entry_pid(entries[i]@) == Some(x));
            let k = a.index_of(x);
            assert(b[k] == x);
        }
        if entry_pid(entries[last]@) == Some(x) {
            assert(b[b.len() - 1] == x);
        }
        if b.contains(x) {
            let k = b.index_of(x);
            if k < a.len() {
                assert(a[k] == x);
            } else {
                assert(entry_pid(entries[last]@) == Some(x));
            }
        }
        if exists|i: int| 0 <= i < entries.len() && entry_pid((#[trigger] entries[i])@) == Some(x) {
            let i = choose|i: int|
                0 <= i < entries.len() && entry_pid((#[trigger] entries[i])@) == Some(x);
            if i < last {
                assert(entry_pid(rest[i]@) == Some(x));
            }
        }
    }
}

/// A search by name gives, in ascending order, the pids among the entries whose
/// process is known by that name, by its `comm` or by its first argument, and no
/// other.
pub proof fn law_all_by_name_gives_the_matches(
    name: &str,
    entries: Vec<String>,
    comm: spec_fn(i32) -> Option<Seq<char>>,
    cmdline: spec_fn(i32) -> Option<Seq<u8>>,
    r: NameStep,
    n: nat,
    found: Seq<i32>,
    x: i32,
)
    requires
        call_ensures(Process::all_by_name, (name, Some(entries)), r),
        ends_with(comm, cmdline, r, n, found),
    ensures
        forall|i: int, j: int| 0 <= i <= j < found.len() ==> found[i] <= found[j],
        found.contains(x) <==> (exists|i: int|
            0 <= i < entries@.len() && entry_pid((#[trigger] entries@[i])@) == Some(x)) && (comm_is(
            comm(x),
            name@,
        ) || cmdline_is(cmdline(x), name@)),
{
    let h = Hunt { name: name@, found: Multiset::empty(), rest: entry_pids(entries@) };
    lemma_ends_with(comm, cmdline, r, h, n, found);
    lemma_matching(h.rest, h.name, comm, cmdline, x);
    lemma_entry_pids(entries@, x);
    found.to_multiset_ensures();
    let all = matching(h.rest, h.name, comm, cmdline);
    assert(h.found.add(all) =~= all);
    assert(found.contains(x) <==> found.to_multiset().count(x) > 0);
}

/// Without the entries of `/proc` a search by name gives nothing at once.
pub proof fn law_no_entries_no_match(name: &str, r: NameStep)
    requires
        call_ensures(Process::all_by_name, (name, None::<Vec<String>>), r),
    ensures
        r matches NameStep::Done(v) && v@.len() == 0,
{
    let v = r->Done_0;
    v@.to_multiset_ensures();
    assert(v@.to_multiset().len() == 0);
}

/// Of the pids that match a name, in ascending order, the process is that of the
/// lowest; a name that none matches is not found.
pub proof fn law_by_name_takes_the_lowest(
    name: &str,
    pids: &Vec<i32>,
    r: Result<Process, Error>,
    i: int,
)
    requires
        call_ensures(Process::by_name, (name, pids), r),
        forall|a: int, b: int| 0 <= a <= b < pids@.len() ==> pids@[a] <= pids@[b],
        0 <= i < pids@.len() || pids@.len() == 0,
    ensures
        r is Ok <==> pids@.len() > 0,
        r matches Ok(p) ==> p@ <= pids@[i] && pids@.contains(p@),
        r matches Err(e) ==> (e matches Error::ProcessNotFound(s) && s@ == name@),
{
    if pids@.len() > 0 {
        assert(pids@[0] <= pids@[i]);
    }
}

/// The files of a process lie in the directory of its number.
pub proof fn law_proc_paths(pid: i32, leaf: &str, dir: String, file: String)
    requires
        0 <= pid,
        call_ensures(proc_dir, (pid,), dir),
        call_ensures(proc_file, (pid, leaf), file),
    ensures
        dir@ == "/proc/"@ + text::in_decimal(pid as nat),
        file@ == "/proc/"@ + text::in_decimal(pid as nat) + "/"@ + leaf@,
{
    text::law_numbers_are_written_in_digits(pid as nat);
}

/// A pid is wrapped if and only if its process exists, and keeps its number.
pub proof fn law_by_pid_keeps_the_number(
    pid: i32,
    there: bool,
    r: Result<Process, Error>,
)
    requires
        0 <= pid,
        call_ensures(Process::by_pid, (pid, there), r),
    ensures
        r is Ok <==> there,
        r matches Ok(p) ==> p@ == pid,
        r matches Err(e) ==> (e matches Error::ProcessNotFound(s) && s@ == text::in_decimal(
            pid as nat,
        )),
{
    text::law_numbers_are_written_in_digits(pid as nat);
}

} // verus!
