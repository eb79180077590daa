//! Reading NUL-terminated strings.
use vstd::prelude::*;

use crate::error::Error;
use crate::io;
use crate::io::ReadRequest;
use crate::memory;
use crate::process;
use crate::process::Process;
use crate::step::Step;
use crate::text;

verus! {

/// How many bytes are read at a time, at most.
pub const CHUNK: usize = 64;

/// The size of a page. A mapping ends where a page ends, so bytes of one page
/// are mapped together.
pub const PAGE: usize = 4096;

/// How many bytes are read next at `at`, with `left` of them still allowed: no
/// chunk runs over the end of a page.
pub open spec fn chunk_len(at: int, left: int) -> int {
    let room = PAGE - at % PAGE as int;
    let most = if room < CHUNK {
        room
    } else {
        CHUNK as int
    };
    if left < most {
        left
    } else {
        most
    }
}

/// What is known of a string once a chunk of it was read.
pub enum Outcome {
    /// These bytes belong to it, and there may be more.
    More(Seq<u8>),
    /// These bytes are the string.
    Complete(Seq<u8>),
    /// Not even the first chunk could be read.
    Failed(Error),
}

/// What a chunk tells of a string of at most `max` bytes that starts with
/// `got`: it ends at the first NUL, at `max` bytes, or at the first unreadable
/// chunk.
pub open spec fn outcome(max: int, got: Seq<u8>, chunk: Result<Seq<u8>, Error>) -> Outcome {
    match chunk {
        Err(e) => if got.len() == 0 {
            Outcome::Failed(e)
        } else {
            Outcome::Complete(got)
        },
        Ok(b) => if process::before_nul(b) != b || got.len() + b.len() >= max {
            Outcome::Complete(got + process::before_nul(b))
        } else {
            Outcome::More(got + b)
        },
    }
}

/// The read of a string as it stands.
#[verifier::ext_equal]
pub struct Progress {
    /// How long the string may be.
    pub max: usize,
    /// Where the next chunk starts.
    pub next: usize,
    /// What was read so far.
    pub got: Seq<u8>,
}

impl Progress {
    /// The chunk to read next.
    pub open spec fn request(self) -> ReadRequest {
        ReadRequest {
            addr: self.next,
            len: chunk_len(self.next as int, self.max - self.got.len()) as usize,
        }
    }
}

/// A string that is being read.
#[derive(Debug)]
pub struct ReadCstring {
    max: usize,
    next: usize,
    got: Vec<u8>,
}

impl View for ReadCstring {
    type V = Progress;

    closed spec fn view(&self) -> Progress {
        Progress { max: self.max, next: self.next, got: self.got@ }
    }
}

/// Whether the read of a string goes on as it has to once a chunk was read.
pub open spec fn goes_on(
    r: Step<ReadRequest, ReadCstring, Result<String, Error>>,
    s: Progress,
    chunk: Result<Seq<u8>, Error>,
) -> bool {
    match outcome(s.max as int, s.got, chunk) {
        Outcome::Failed(e) => r == Step::<ReadRequest, ReadCstring, Result<String, Error>>::Done(
            Err(e),
        ),
        Outcome::Complete(b) => {
            &&& r matches Step::Done(Ok(t))
            &&& t@ == text::utf8_lossy(b)
            &&& vstd::utf8::valid_utf8(b) ==> t@ == vstd::utf8::decode_utf8(b)
        },
        Outcome::More(b) => {
            &&& r matches Step::Do(req, next)
            &&& next@ == (Progress {
                got: b,
                next: s.next.wrapping_add(s.request().len),
                ..s
            })
            &&& req == next@.request()
        },
    }
}

impl ReadCstring {
    #[verifier::type_invariant]
    spec fn inv(self) -> bool {
        self.got@.len() < self.max
    }

    fn request(&self) -> (r: ReadRequest)
        ensures
            r == self@.request(),
    {
        proof {
            use_type_invariant(self);
        }
        let left: usize = self.max - self.got.len();
        let room: usize = PAGE - self.next % PAGE;
        let most: usize = if room < CHUNK {
            room
        } else {
            CHUNK
        };
        let len: usize = if left < most {
            left
        } else {
            most
        };
        ReadRequest { addr: self.next, len }
    }

    /// Go on with what the read of the chunk gave: all of its bytes, or an
    /// error.
    ///
    /// # Errors
    /// The error, but only if the very first chunk is unreadable. Once any
    /// bytes have been read, a later unreadable chunk simply ends the string.
    pub fn resume(self, reply: Result<Vec<u8>, Error>) -> (r: Step<
        ReadRequest,
        ReadCstring,
        Result<String, Error>,
    >)
        requires
            reply matches Ok(b) ==> b@.len() == self@.request().len,
        ensures
            goes_on(r, self@, io::bytes_read(reply)),
    {
        proof {
            use_type_invariant(&self);
        }
        match reply {
            Err(e) => {
                if self.got.len() == 0 {
                    return Step::Done(Err(e));
                }
                Step::Done(Ok(text::lossy_text(self.got.as_slice())))
            },
            Ok(b) => {
                let ghost before = self@;
                let ReadCstring { max, next, mut got } = self;
                let n: usize = process::find_nul(b.as_slice());
                proof {
                    lemma_nul_len(b@);
                }
                let len: usize = b.len();
                let left: usize = max - got.len();
                if n < len || len >= left {
                    let mut head = b;
                    head.truncate(n);
                    assert(head@ =~= process::before_nul(b@));
                    got.extend_from_slice(head.as_slice());
                    assert(got@ =~= before.got + process::before_nul(b@));
                    return Step::Done(Ok(text::lossy_text(got.as_slice())));
                }
                assert(process::before_nul(b@) =~= b@);
                got.extend_from_slice(b.as_slice());
                assert(got@ =~= before.got + b@);
                let state = ReadCstring { max, next: next.wrapping_add(len), got };
                let req = state.request();
                Step::Do(req, state)
            },
        }
    }
}

proof fn lemma_nul_len(b: Seq<u8>)
    ensures
        process::len_before_nul(b) <= b.len(),
        forall|i: int| 0 <= i < process::len_before_nul(b) ==> b[i] != 0,
        process::len_before_nul(b) < b.len() ==> b[process::len_before_nul(b) as int] == 0,
    decreases b.len(),
{
    if b.len() > 0 && b[0] != 0 {
        lemma_nul_len(b.drop_first());
        assert forall|i: int| 0 <= i < process::len_before_nul(b) implies b[i] != 0 by {
            if i > 0 {
                assert(b[i] == b.drop_first()[i - 1]);
            }
        }
    }
}

impl Process {
    /// Read a NUL-terminated string (up to `max` bytes), lossily decoded as
    /// UTF-8.
    ///
    /// The string is read incrementally in small chunks and the scan stops at
    /// the first NUL, at `max` bytes, or at the first unreadable chunk,
    /// whichever comes first. No chunk runs over the end of a page, so a short
    /// string near the end of a mapping is returned successfully even though a
    /// single `max`-byte read would have run off into unmapped space.
    pub fn read_cstring(&self, addr: usize, max: usize) -> (r: Step<
        ReadRequest,
        ReadCstring,
        Result<String, Error>,
    >)
        ensures
            if max == 0 {
                r matches Step::Done(Ok(t)) && t@ == Seq::<char>::empty()
            } else {
                &&& r matches Step::Do(req, s)
                &&& s@ == (Progress { max, next: addr, got: Seq::empty() })
                &&& req == s@.request()
            },
    {
        if max == 0 {
            return Step::Done(Ok(String::new()));
        }
        let state = ReadCstring { max, next: addr, got: Vec::new() };
        let req = state.request();
        Step::Do(req, state)
    }
}

/// What comes of reading a string of memory `m` chunk by chunk, with `got` read
/// so far.
pub open spec fn read_through(m: Map<int, u8>, addr: int, max: int, got: Seq<u8>) -> Outcome
    decreases max - got.len(),
{
    let at = addr + got.len();
    let n = chunk_len(at, max - got.len());
    let chunk: Result<Seq<u8>, Error> = if memory::mapped(m, at, n) {
        Ok(memory::peek(m, at, n as nat))
    } else {
        Err(Error::Unmapped { addr: at as usize, len: n as usize })
    };
    match outcome(max, got, chunk) {
        Outcome::More(s) => if got.len() < s.len() <= max {
            read_through(m, addr, max, s)
        } else {
            Outcome::More(s)
        },
        o => o,
    }
}

/// Whether the bytes of one page are mapped together.
pub open spec fn paged(m: Map<int, u8>) -> bool {
    forall|a: int, b: int|
        #![trigger m.contains_key(a), m.contains_key(b)]
        m.contains_key(a) && a / PAGE as int == b / PAGE as int ==> m.contains_key(b)
}

/// A chunk that starts with a mapped byte is mapped.
proof fn lemma_chunk_is_mapped(m: Map<int, u8>, at: int, left: int)
    requires
        paged(m),
        m.contains_key(at),
        left > 0,
    ensures
        memory::mapped(m, at, chunk_len(at, left)),
        0 < chunk_len(at, left) <= left,
{
    assert forall|a: int| at <= a < at + chunk_len(at, left) implies #[trigger] m.contains_key(
        a,
    ) by {
        assert(a / 4096 == at / 4096);
    }
}

/// A chunk without a NUL among its bytes is read as it is.
proof fn lemma_chunk_without_nul(m: Map<int, u8>, addr: int, k: nat, n: nat)
    requires
        forall|i: int| k <= i < k + n ==> m[#[trigger] (addr + i)] != 0,
    ensures
        process::before_nul(memory::peek(m, addr + k, n)) == memory::peek(m, addr + k, n),
        memory::peek(m, addr, k) + memory::peek(m, addr + k, n) == memory::peek(m, addr, k + n),
{
    let b = memory::peek(m, addr + k, n);
    lemma_nul_len(b);
    assert forall|i: int| 0 <= i < n implies b[i] != 0 by {
        assert(b[i] == m[addr + (k + i)]);
    }
    assert(process::before_nul(b) =~= b);
    assert(memory::peek(m, addr, k) + b =~= memory::peek(m, addr, k + n));
}

/// A string of `len` bytes before its NUL is read whole, even if the mapping
/// ends with the NUL's page.
pub proof fn law_string_ends_at_its_nul(m: Map<int, u8>, addr: int, max: int, len: nat)
    requires
        0 <= addr,
        len < max,
        paged(m),
        memory::mapped(m, addr, len as int + 1),
        m[addr + len] == 0,
        forall|i: int| 0 <= i < len ==> m[#[trigger] (addr + i)] != 0,
    ensures
        read_through(m, addr, max, Seq::empty()) == Outcome::Complete(memory::peek(m, addr, len)),
{
    assert(memory::peek(m, addr, 0) =~= Seq::<u8>::empty());
    lemma_read_through_nul(m, addr, max, len, 0);
}

proof fn lemma_read_through_nul(m: Map<int, u8>, addr: int, max: int, len: nat, k: nat)
    requires
        len < max,
        k <= len,
        paged(m),
        memory::mapped(m, addr, len as int + 1),
        m[addr + len] == 0,
        forall|i: int| 0 <= i < len ==> m[#[trigger] (addr + i)] != 0,
    ensures
        read_through(m, addr, max, memory::peek(m, addr, k)) == Outcome::Complete(
            memory::peek(m, addr, len),
        ),
    decreases len - k,
{
    let got = memory::peek(m, addr, k);
    let at = addr + k;
    let n = chunk_len(at, max - k);
    let b = memory::peek(m, at, n as nat);
    lemma_chunk_is_mapped(m, at, max - k);
    if len < k + n {
        lemma_nul_len(b);
        assert(b[len - k] == 0);
        assert forall|i: int| 0 <= i < len - k implies b[i] != 0 by {
            assert(b[i] == m[addr + (k + i)]);
        }
        assert(process::len_before_nul(b) == len - k);
        assert(process::before_nul(b).len() < b.len());
        assert(got + process::before_nul(b) =~= memory::peek(m, addr, len));
    } else {
        lemma_chunk_without_nul(m, addr, k, n as nat);
        lemma_read_through_nul(m, addr, max, len, (k + n) as nat);
    }
}

/// A string without a NUL that runs into the end of its mapping ends there: all
/// its mapped bytes are read.
pub proof fn law_string_ends_with_the_mapping(m: Map<int, u8>, addr: int, max: int, len: nat)
    requires
        0 <= addr,
        0 < len < max,
        paged(m),
        memory::mapped(m, addr, len as int),
        !m.contains_key(addr + len),
        forall|i: int| 0 <= i < len ==> m[#[trigger] (addr + i)] != 0,
    ensures
        read_through(m, addr, max, Seq::empty()) == Outcome::Complete(memory::peek(m, addr, len)),
{
    assert(memory::peek(m, addr, 0) =~= Seq::<u8>::empty());
    lemma_read_through_mapping(m, addr, max, len, 0);
}

proof fn lemma_read_through_mapping(m: Map<int, u8>, addr: int, max: int, len: nat, k: nat)
    requires
        0 < len < max,
        k <= len,
        paged(m),
        memory::mapped(m, addr, len as int),
        !m.contains_key(addr + len),
        forall|i: int| 0 <= i < len ==> m[#[trigger] (addr + i)] != 0,
    ensures
        read_through(m, addr, max, memory::peek(m, addr, k)) == Outcome::Complete(
            memory::peek(m, addr, len),
        ),
    decreases len - k,
{
    let at = addr + k;
    let n = chunk_len(at, max - k);
    if k < len {
        lemma_chunk_is_mapped(m, at, max - k);
        assert(k + n <= len);
        lemma_chunk_without_nul(m, addr, k, n as nat);
        lemma_read_through_mapping(m, addr, max, len, (k + n) as nat);
    } else {
        assert(!memory::mapped(m, at, n));
    }
}

/// Without a NUL among the first `max` bytes, all of them are the string.
pub proof fn law_string_ends_at_max(m: Map<int, u8>, addr: int, max: int)
    requires
        max > 0,
        memory::mapped(m, addr, max),
        forall|i: int| 0 <= i < max ==> m[#[trigger] (addr + i)] != 0,
    ensures
        read_through(m, addr, max, Seq::empty()) == Outcome::Complete(
            memory::peek(m, addr, max as nat),
        ),
{
    assert(memory::peek(m, addr, 0) =~= Seq::<u8>::empty());
    lemma_read_through_max(m, addr, max, 0);
}

proof fn lemma_read_through_max(m: Map<int, u8>, addr: int, max: int, k: nat)
    requires
        k < max,
        memory::mapped(m, addr, max),
        forall|i: int| 0 <= i < max ==> m[#[trigger] (addr + i)] != 0,
    ensures
        read_through(m, addr, max, memory::peek(m, addr, k)) == Outcome::Complete(
            memory::peek(m, addr, max as nat),
        ),
    decreases max - k,
{
    let at = addr + k;
    let n = chunk_len(at, max - k);
    assert(memory::mapped(m, at, n));
    lemma_chunk_without_nul(m, addr, k, n as nat);
    if k + n < max {
        lemma_read_through_max(m, addr, max, (k + n) as nat);
    }
}

/// What comes of a string read is either the error of its first chunk, which
/// comes only if not even the byte at `addr` is mapped, or bytes of the memory at
/// `addr`, at most `max` of them and none of them NUL.
pub proof fn law_string_is_a_prefix(m: Map<int, u8>, addr: int, max: int)
    requires
        max > 0,
    ensures
        match read_through(m, addr, max, Seq::empty()) {
            Outcome::Complete(s) => s.len() <= max && s == memory::peek(m, addr, s.len())
                && !s.contains(0),
            Outcome::Failed(e) => !memory::mapped(m, addr, chunk_len(addr, max)) && e is Unmapped
                && (paged(m) ==> !m.contains_key(addr)),
            Outcome::More(_) => false,
        },
{
    if paged(m) && m.contains_key(addr) {
        lemma_chunk_is_mapped(m, addr, max);
    }
    assert(memory::peek(m, addr, 0) =~= Seq::<u8>::empty());
    lemma_prefix(m, addr, max, Seq::empty());
}

proof fn lemma_prefix(m: Map<int, u8>, addr: int, max: int, got: Seq<u8>)
    requires
        got.len() < max,
        got == memory::peek(m, addr, got.len()),
        !got.contains(0),
    ensures
        match read_through(m, addr, max, got) {
            Outcome::Complete(s) => s.len() <= max && s == memory::peek(m, addr, s.len())
                && !s.contains(0),
            Outcome::Failed(e) => !memory::mapped(m, addr, chunk_len(addr, max)) && e is Unmapped,
            Outcome::More(_) => false,
        },
    decreases max - got.len(),
{
    let at = addr + got.len();
    let n = chunk_len(at, max - got.len());
    if memory::mapped(m, at, n) {
        let b = memory::peek(m, at, n as nat);
        lemma_nul_len(b);
        let h = process::before_nul(b);
        let s = got + h;
        assert forall|i: int| 0 <= i < s.len() implies s[i] == m[addr + i] && s[i] != 0 by {
            if i < got.len() {
                assert(got[i] == memory::peek(m, addr, got.len())[i]);
                assert(got.contains(got[i]));
            } else {
                assert(s[i] == b[i - got.len()]);
            }
        }
        assert(s =~= memory::peek(m, addr, s.len()));
        if h == b && s.len() < max {
            lemma_prefix(m, addr, max, s);
        }
    }
}

/// Each step of a string read on memory `m` leads to what comes of reading it
/// through: the next one keeps it, and the last one gives it.
pub proof fn law_string_read_steps(
    m: Map<int, u8>,
    addr: int,
    s: Progress,
    r: Step<ReadRequest, ReadCstring, Result<String, Error>>,
)
    requires
        0 <= addr,
        addr + s.max <= usize::MAX + 1,
        s.got.len() < s.max,
        s.next == addr + s.got.len(),
        goes_on(r, s, s.request().on(m)),
    ensures
        ({
            let all = read_through(m, addr, s.max as int, s.got);
            match r {
                Step::Do(req, next) => {
                    &&& req == next@.request()
                    &&& next@.max == s.max
                    &&& next@.got.len() < s.max
                    &&& next@.next == addr + next@.got.len()
                    &&& read_through(m, addr, s.max as int, next@.got) == all
                },
                Step::Done(Ok(t)) => all matches Outcome::Complete(b) && t@ == text::utf8_lossy(b),
                Step::Done(Err(e)) => all == Outcome::Failed(e),
            }
        }),
{
    let at = addr + s.got.len();
    let n = chunk_len(at, s.max - s.got.len());
    assert(s.request().addr == at && s.request().len == n);
    assert(0 < n <= s.max - s.got.len());
}

/// Whether the read of a string, with its reads answered by memory `m`, ends within
/// `n` reads and gives `end`.
pub open spec fn ends_with(
    m: Map<int, u8>,
    r: Step<ReadRequest, ReadCstring, Result<String, Error>>,
    n: nat,
    end: Result<String, Error>,
) -> bool
    decreases n,
{
    match r {
        Step::Done(x) => x == end,
        Step::Do(req, s) => n > 0 && exists|
            reply: Result<Vec<u8>, Error>,
            next: Step<ReadRequest, ReadCstring, Result<String, Error>>,
        |
            io::answered(m, req, reply) && #[trigger] call_ensures(
                ReadCstring::resume,
                (s, reply),
                next,
            ) && ends_with(m, next, (n - 1) as nat, end),
    }
}

proof fn lemma_ends_with(
    m: Map<int, u8>,
    addr: int,
    req: ReadRequest,
    t: ReadCstring,
    n: nat,
    end: Result<String, Error>,
)
    requires
        0 <= addr,
        addr + t@.max <= usize::MAX + 1,
        t@.got.len() < t@.max,
        t@.next == addr + t@.got.len(),
        req == t@.request(),
        ends_with(
            m,
            Step::<ReadRequest, ReadCstring, Result<String, Error>>::Do(req, t),
            n,
            end,
        ),
    ensures
        match read_through(m, addr, t@.max as int, t@.got) {
            Outcome::Complete(b) => end matches Ok(s) && s@ == text::utf8_lossy(b) && (
            vstd::utf8::valid_utf8(b) ==> s@ == vstd::utf8::decode_utf8(b)),
            Outcome::Failed(e) => end == Err::<String, Error>(e),
            Outcome::More(_) => false,
        },
    decreases n,
{
    let s = t@;
    let (reply, next) = choose|
        reply: Result<Vec<u8>, Error>,
        next: Step<ReadRequest, ReadCstring, Result<String, Error>>,
    |
        io::answered(m, req, reply) && #[trigger] call_ensures(
            ReadCstring::resume,
            (t, reply),
            next,
        ) && ends_with(m, next, (n - 1) as nat, end);
    assert(io::bytes_read(reply) == req.on(m));
    law_string_read_steps(m, addr, s, next);
    if let Step::Do(q, u) = next {
        lemma_ends_with(m, addr, q, u, (n - 1) as nat, end);
    }
}

/// A string is read up to its NUL, up to the end of the mapping, or up to the
/// longest that was asked for, whichever comes first. It fails only if not even its
/// first byte is mapped. Here `len` is how many bytes come before that end.
pub proof fn law_read_cstring_stops_in_time(
    m: Map<int, u8>,
    p: &Process,
    addr: usize,
    max: usize,
    r: Step<ReadRequest, ReadCstring, Result<String, Error>>,
    n: nat,
    end: Result<String, Error>,
    len: nat,
)
    requires
        addr + max <= usize::MAX + 1,
        max > 0,
        paged(m),
        len <= max,
        memory::mapped(m, addr as int, len as int),
        forall|i: int| 0 <= i < len ==> m[#[trigger] (addr + i)] != 0,
        len == max || !m.contains_key(addr + len) || m[addr + len] == 0,
        call_ensures(Process::read_cstring, (p, addr, max), r),
        ends_with(m, r, n, end),
    ensures
        m.contains_key(addr as int) <==> end is Ok,
        end matches Ok(s) ==> s@ == text::utf8_lossy(memory::peek(m, addr as int, len)),
        end matches Ok(s) ==> (vstd::utf8::valid_utf8(memory::peek(m, addr as int, len)) ==> s@
            == vstd::utf8::decode_utf8(memory::peek(m, addr as int, len))),
        end matches Err(e) ==> e is Unmapped,
{
    let (req, t) = (r->Do_0, r->Do_1);
    let a = addr as int;
    lemma_ends_with(m, a, req, t, n, end);
    law_string_is_a_prefix(m, a, max as int);
    if len == max {
        assert(m.contains_key(a));
        law_string_ends_at_max(m, a, max as int);
    } else if !m.contains_key(a + len) {
        if len > 0 {
            assert(m.contains_key(a));
            law_string_ends_with_the_mapping(m, a, max as int, len);
        } else {
            assert(!memory::mapped(m, a, chunk_len(a, max as int)));
        }
    } else {
        law_string_ends_at_its_nul(m, a, max as int, len);
        if len > 0 {
            assert(m.contains_key(a));
        }
    }
}

/// A string of no length is empty, without a read.
pub proof fn law_no_length_no_string(
    p: &Process,
    addr: usize,
    r: Step<ReadRequest, ReadCstring, Result<String, Error>>,
)
    requires
        call_ensures(Process::read_cstring, (p, addr, 0usize), r),
    ensures
        r matches Step::Done(Ok(t)) && t@.len() == 0,
{
}

/// An unreadable chunk ends a string that has begun, and any error of the first one
/// is what comes of it.
pub proof fn law_errors_end_a_string(
    s: ReadCstring,
    e: Error,
    r: Step<ReadRequest, ReadCstring, Result<String, Error>>,
)
    requires
        call_ensures(ReadCstring::resume, (s, Err::<Vec<u8>, Error>(e)), r),
    ensures
        s@.got.len() == 0 ==> r == Step::<ReadRequest, ReadCstring, Result<String, Error>>::Done(
            Err(e),
        ),
        s@.got.len() > 0 ==> (r matches Step::Done(Ok(t)) && t@ == text::utf8_lossy(s@.got)),
{
}

} // verus!
