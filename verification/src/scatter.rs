//! Batched scatter/gather reads ([`Scatter`]).
use vstd::prelude::*;

use crate::error::Error;
use crate::io;
use crate::io::ReadRequest;
use crate::memory;
use crate::process::Process;
use crate::step::Step;

verus! {

/// How many reads one system call takes.
pub const IOV_MAX: usize = 1024;

/// Collects several independent reads and issues them in one (or, past
/// [`IOV_MAX`], a few) `process_vm_readv` system call(s).
///
/// Queue reads with [`add`](Self::add), which returns an index, then call
/// [`run`](Self::run).
#[derive(Debug)]
#[must_use]
pub struct Scatter<'p> {
    proc: &'p Process,
    items: Vec<ReadRequest>,
}

/// The reads that are queued, and the process they are for.
#[verifier::ext_equal]
pub struct Queue {
    pub pid: i32,
    pub items: Seq<ReadRequest>,
}

impl<'p> View for Scatter<'p> {
    type V = Queue;

    closed spec fn view(&self) -> Queue {
        Queue { pid: self.proc@, items: self.items@ }
    }
}

/// How many bytes the reads move together.
pub open spec fn total(items: Seq<ReadRequest>) -> nat
    decreases items.len(),
{
    if items.len() == 0 {
        0
    } else {
        total(items.drop_last()) + items.last().len as nat
    }
}

/// The bytes in each buffer.
pub open spec fn buffers(v: Seq<Vec<u8>>) -> Seq<Seq<u8>> {
    v.map_values(|b: Vec<u8>| b@)
}

/// Whether there is a buffer of the right length for each read.
pub open spec fn fit(items: Seq<ReadRequest>, bufs: Seq<Seq<u8>>) -> bool {
    &&& items.len() == bufs.len()
    &&& forall|i: int| 0 <= i < items.len() ==> (#[trigger] bufs[i]).len() == items[i].len
}

/// A batched read as it stands.
#[verifier::ext_equal]
pub struct Gathering {
    pub pid: i32,
    pub items: Seq<ReadRequest>,
    /// What was read, for the first of the items.
    pub got: Seq<Seq<u8>>,
}

impl Gathering {
    /// The reads of the next system call.
    pub open spec fn batch(self) -> Seq<ReadRequest> {
        let left = self.items.len() - self.got.len();
        self.items.subrange(
            self.got.len() as int,
            self.got.len() + (if left < IOV_MAX {
                left
            } else {
                IOV_MAX as int
            }),
        )
    }

    /// What comes of a system call for the batch that reported `n`: the failure
    /// is reported against the first address of the batch.
    pub open spec fn outcome(self, n: isize, errno: i32) -> Result<(), Error> {
        let b = self.batch();
        if n < 0 {
            Err(io::classified(self.pid, b[0].addr, b[0].len, errno))
        } else if n != total(b) {
            Err(
                Error::Partial {
                    addr: b[0].addr,
                    wanted: total(b) as usize,
                    moved: n as usize,
                },
            )
        } else {
            Ok(())
        }
    }
}

/// A batched read that is under way.
pub struct ScatterRun {
    pid: i32,
    items: Vec<ReadRequest>,
    got: Vec<Vec<u8>>,
}

impl View for ScatterRun {
    type V = Gathering;

    closed spec fn view(&self) -> Gathering {
        Gathering { pid: self.pid, items: self.items@, got: buffers(self.got@) }
    }
}

/// Whether the batched read goes on as it has to: with the next batch, or with
/// one buffer per queued read, in the order they were added.
pub open spec fn goes_on(
    r: Step<Vec<ReadRequest>, ScatterRun, Result<Vec<Vec<u8>>, Error>>,
    s: Gathering,
) -> bool {
    if s.got.len() >= s.items.len() {
        r matches Step::Done(Ok(bufs)) && buffers(bufs@) == s.got
    } else {
        &&& r matches Step::Do(batch, run)
        &&& run@ == s
        &&& batch@ == s.batch()
    }
}

fn go_on(pid: i32, items: Vec<ReadRequest>, got: Vec<Vec<u8>>) -> (r: Step<
    Vec<ReadRequest>,
    ScatterRun,
    Result<Vec<Vec<u8>>, Error>,
>)
    requires
        total(items@) <= usize::MAX,
        got@.len() <= items@.len(),
    ensures
        goes_on(r, (Gathering { pid, items: items@, got: buffers(got@) })),
{
    if got.len() >= items.len() {
        return Step::Done(Ok(got));
    }
    let from: usize = got.len();
    let left: usize = items.len() - from;
    let n: usize = if left < IOV_MAX {
        left
    } else {
        IOV_MAX
    };
    let mut batch: Vec<ReadRequest> = Vec::new();
    let mut i: usize = 0;
    while i < n
        invariant
            i <= n,
            from + n <= items@.len(),
            batch@ == items@.subrange(from as int, from + i),
        decreases n - i,
    {
        assert(from + i < items.len());
        batch.push(items[from + i]);
        i = i + 1;
        assert(batch@ =~= items@.subrange(from as int, from + i));
    }
    Step::Do(batch, ScatterRun { pid, items, got })
}

proof fn lemma_total_of_part(items: Seq<ReadRequest>, from: int, to: int)
    requires
        0 <= from <= to <= items.len(),
    ensures
        total(items.subrange(from, to)) <= total(items),
    decreases items.len(),
{
    if to < items.len() {
        assert(items.drop_last().subrange(from, to) =~= items.subrange(from, to));
        lemma_total_of_part(items.drop_last(), from, to);
    } else if from < to {
        lemma_total_of_part(items.drop_last(), from, to - 1);
        assert(items.subrange(from, to).drop_last() =~= items.drop_last().subrange(from, to - 1));
        assert(items.subrange(from, to).last() == items.last());
    }
}

/// How many bytes the reads move together.
fn sum_of(items: &Vec<ReadRequest>, from: usize, to: usize) -> (r: usize)
    requires
        from <= to <= items@.len(),
        total(items@) <= usize::MAX,
    ensures
        r == total(items@.subrange(from as int, to as int)),
{
    let mut sum: usize = 0;
    let mut i: usize = from;
    assert(items@.subrange(from as int, from as int) =~= Seq::<ReadRequest>::empty());
    while i < to
        invariant
            from <= i <= to <= items@.len(),
            total(items@) <= usize::MAX,
            sum == total(items@.subrange(from as int, i as int)),
        decreases to - i,
    {
        proof {
            lemma_total_of_part(items@, from as int, i + 1);
            let s = items@.subrange(from as int, i + 1);
            assert(s.drop_last() =~= items@.subrange(from as int, i as int));
            assert(s.last() == items@[i as int]);
        }
        sum = sum + items[i].len;
        i = i + 1;
    }
    sum
}

impl ScatterRun {
    #[verifier::type_invariant]
    spec fn inv(self) -> bool {
        &&& self.got@.len() < self.items@.len()
        &&& total(self.items@) <= usize::MAX
    }

    /// Go on with what came of the batch: the number of bytes that the system
    /// call reported, with the error number if that is negative, and the
    /// buffers.
    ///
    /// # Errors
    /// [`Error::Permission`], [`Error::Unmapped`], [`Error::Partial`], or
    /// [`Error::Io`], reported against the first address of the failing batch.
    /// Because the kernel reports only a total byte count, a partial transfer
    /// cannot be attributed to an exact slot.
    pub fn resume(self, n: isize, errno: i32, bufs: Vec<Vec<u8>>) -> (r: Step<
        Vec<ReadRequest>,
        ScatterRun,
        Result<Vec<Vec<u8>>, Error>,
    >)
        requires
            fit(self@.batch(), buffers(bufs@)),
        ensures
            match self@.outcome(n, errno) {
                Ok(()) => goes_on(
                    r,
                    (Gathering { got: self@.got + buffers(bufs@), ..self@ }),
                ),
                Err(e) => r == Step::<
                    Vec<ReadRequest>,
                    ScatterRun,
                    Result<Vec<Vec<u8>>, Error>,
                >::Done(Err(e)),
            },
    {
        proof {
            use_type_invariant(&self);
        }
        let ghost old = self@;
        let from: usize = self.got.len();
        assert(bufs@.len() == old.batch().len());
        assert(from + bufs@.len() <= self.items.len());
        let to: usize = from + bufs.len();
        assert(old.batch() =~= self.items@.subrange(from as int, to as int));
        assert(old.batch()[0] == self.items@[from as int]);
        if n < 0 {
            let first = self.items[from];
            return Step::Done(Err(io::classify(self.pid, first.addr, first.len, errno)));
        }
        let want: usize = sum_of(&self.items, from, to);
        if n as usize != want {
            let first = self.items[from];
            return Step::Done(
                Err(Error::Partial { addr: first.addr, wanted: want, moved: n as usize }),
            );
        }
        let ScatterRun { pid, items, got } = self;
        let mut got = got;
        let mut bufs = bufs;
        let ghost more = bufs@;
        let ghost before = got@;
        got.append(&mut bufs);
        assert(got@ =~= before + more);
        assert(buffers(got@) =~= old.got + buffers(more));
        go_on(pid, items, got)
    }
}

/// A scatter read that is issued read by read.
pub struct ScatterEach {
    pid: i32,
    items: Vec<ReadRequest>,
    got: Vec<Vec<u8>>,
}

impl View for ScatterEach {
    type V = Gathering;

    closed spec fn view(&self) -> Gathering {
        Gathering { pid: self.pid, items: self.items@, got: buffers(self.got@) }
    }
}

/// Whether the read by read issue goes on as it has to.
pub open spec fn goes_on_each(
    r: Step<ReadRequest, ScatterEach, Result<Vec<Vec<u8>>, Error>>,
    s: Gathering,
) -> bool {
    if s.got.len() >= s.items.len() {
        r matches Step::Done(Ok(bufs)) && buffers(bufs@) == s.got
    } else {
        &&& r matches Step::Do(req, each)
        &&& each@ == s
        &&& req == s.items[s.got.len() as int]
    }
}

fn go_on_each(pid: i32, items: Vec<ReadRequest>, got: Vec<Vec<u8>>) -> (r: Step<
    ReadRequest,
    ScatterEach,
    Result<Vec<Vec<u8>>, Error>,
>)
    ensures
        goes_on_each(r, (Gathering { pid, items: items@, got: buffers(got@) })),
{
    if got.len() >= items.len() {
        return Step::Done(Ok(got));
    }
    let req = items[got.len()];
    Step::Do(req, ScatterEach { pid, items, got })
}

impl ScatterEach {
    /// Go on with what [`Process::read_vec`] gave for the read.
    ///
    /// # Errors
    /// The error of the read.
    pub fn resume(self, reply: Result<Vec<u8>, Error>) -> (r: Step<
        ReadRequest,
        ScatterEach,
        Result<Vec<Vec<u8>>, Error>,
    >)
        ensures
            match reply {
                Ok(b) => goes_on_each(r, (Gathering { got: self@.got.push(b@), ..self@ })),
                Err(e) => r == Step::<ReadRequest, ScatterEach, Result<Vec<Vec<u8>>, Error>>::Done(
                    Err(e),
                ),
            },
    {
        match reply {
            Err(e) => Step::Done(Err(e)),
            Ok(b) => {
                let ghost old = self@;
                let ScatterEach { pid, items, got } = self;
                let mut got = got;
                got.push(b);
                assert(buffers(got@) =~= old.got.push(b@));
                go_on_each(pid, items, got)
            },
        }
    }
}

impl Process {
    /// Begin a batched scatter read (one system call, many addresses).
    ///
    /// See [`Scatter`].
    pub fn scatter(&self) -> (r: Scatter<'_>)
        ensures
            r@ == (Queue { pid: self@, items: Seq::empty() }),
    {
        Scatter { proc: self, items: Vec::new() }
    }
}

impl<'p> Scatter<'p> {
    /// Queue a read of `len` bytes at `addr`; returns its result index.
    pub fn add(&mut self, addr: usize, len: usize) -> (r: usize)
        ensures
            r == old(self)@.items.len(),
            final(self)@ == (Queue {
                items: old(self)@.items.push(ReadRequest { addr, len }),
                ..old(self)@
            }),
    {
        self.items.push(ReadRequest { addr, len });
        self.items.len() - 1
    }

    /// Queue a typed read of `size_of::<T>()` bytes; returns its result index.
    pub fn add_typed<T>(&mut self, addr: usize) -> (r: usize)
        ensures
            r == old(self)@.items.len(),
            final(self)@.pid == old(self)@.pid,
            final(self)@.items.len() == r + 1,
            final(self)@.items.drop_last() == old(self)@.items,
            final(self)@.items.last().addr == addr,
            final(self)@.items.last().len as nat == vstd::layout::size_of::<T>(),
    {
        let r: usize = self.add(addr, core::mem::size_of::<T>());
        assert(self@.items.drop_last() =~= old(self)@.items);
        r
    }

    /// Execute the batched read. Gives one byte buffer per queued read, in the
    /// order they were added.
    ///
    /// Queues larger than [`IOV_MAX`] are split across several system calls.
    pub fn run(self) -> (r: Step<Vec<ReadRequest>, ScatterRun, Result<Vec<Vec<u8>>, Error>>)
        requires
            total(self@.items) <= usize::MAX,
        ensures
            goes_on(
                r,
                (Gathering { pid: self@.pid, items: self@.items, got: Seq::empty() }),
            ),
    {
        let got: Vec<Vec<u8>> = Vec::new();
        assert(buffers(got@) =~= Seq::<Seq<u8>>::empty());
        let pid: i32 = self.proc.pid();
        go_on(pid, self.items, got)
    }

    /// Execute the scatter read one read per slot, as a backend without a
    /// batched call has to. What comes of it is the same.
    pub fn run_each(self) -> (r: Step<ReadRequest, ScatterEach, Result<Vec<Vec<u8>>, Error>>)
        ensures
            goes_on_each(
                r,
                (Gathering { pid: self@.pid, items: self@.items, got: Seq::empty() }),
            ),
    {
        let got: Vec<Vec<u8>> = Vec::new();
        assert(buffers(got@) =~= Seq::<Seq<u8>>::empty());
        let pid: i32 = self.proc.pid();
        go_on_each(pid, self.items, got)
    }
}

/// What the reads give on memory `m`, each by itself.
pub open spec fn gathered(m: Map<int, u8>, items: Seq<ReadRequest>) -> Seq<Seq<u8>> {
    items.map_values(|r: ReadRequest| memory::peek(m, r.addr as int, r.len as nat))
}

/// What comes of the batched read if each batch reads memory `m`.
pub open spec fn by_batches(m: Map<int, u8>, s: Gathering) -> Seq<Seq<u8>>
    decreases s.items.len() - s.got.len(),
{
    if s.got.len() >= s.items.len() {
        s.got
    } else {
        by_batches(m, Gathering { got: s.got + gathered(m, s.batch()), ..s })
    }
}

/// What comes of the scatter read if each read by itself reads memory `m`.
pub open spec fn one_by_one(m: Map<int, u8>, s: Gathering) -> Seq<Seq<u8>>
    decreases s.items.len() - s.got.len(),
{
    if s.got.len() >= s.items.len() {
        s.got
    } else {
        let r = s.items[s.got.len() as int];
        one_by_one(
            m,
            Gathering { got: s.got.push(memory::peek(m, r.addr as int, r.len as nat)), ..s },
        )
    }
}

/// Slot `i` of the result holds the bytes of the read that got index `i`,
/// however the reads are issued.
pub proof fn law_slots_in_order(m: Map<int, u8>, pid: i32, items: Seq<ReadRequest>)
    ensures
        by_batches(m, Gathering { pid, items, got: Seq::empty() }) == gathered(m, items),
        one_by_one(m, Gathering { pid, items, got: Seq::empty() }) == gathered(m, items),
{
    assert(gathered(m, items).take(0) =~= Seq::<Seq<u8>>::empty());
    lemma_gather(m, Gathering { pid, items, got: Seq::empty() });
}

proof fn lemma_gather(m: Map<int, u8>, s: Gathering)
    requires
        s.got.len() <= s.items.len(),
        s.got == gathered(m, s.items).take(s.got.len() as int),
    ensures
        by_batches(m, s) == gathered(m, s.items),
        one_by_one(m, s) == gathered(m, s.items),
    decreases s.items.len() - s.got.len(),
{
    let all = gathered(m, s.items);
    if s.got.len() >= s.items.len() {
        assert(all.take(s.got.len() as int) =~= all);
    } else {
        let a = Gathering { got: s.got + gathered(m, s.batch()), ..s };
        assert(a.got =~= all.take(a.got.len() as int));
        lemma_gather(m, a);
        let r = s.items[s.got.len() as int];
        let b = Gathering { got: s.got.push(memory::peek(m, r.addr as int, r.len as nat)), ..s };
        assert(b.got =~= all.take(b.got.len() as int));
        lemma_gather(m, b);
    }
}

/// Each step of a batched read leads to what comes of it on memory `m`: the last
/// one gives it, and any other reads the batch that comes next.
pub proof fn law_batch_steps(
    m: Map<int, u8>,
    s: Gathering,
    r: Step<Vec<ReadRequest>, ScatterRun, Result<Vec<Vec<u8>>, Error>>,
)
    requires
        goes_on(r, s),
    ensures
        match r {
            Step::Done(Ok(bufs)) => by_batches(m, s) == buffers(bufs@),
            Step::Done(Err(_)) => false,
            Step::Do(batch, run) => batch@ == run@.batch() && by_batches(m, s) == by_batches(
                m,
                Gathering { got: run@.got + gathered(m, batch@), ..run@ },
            ),
        },
{
}

/// Each step of a scatter read that is issued read by read leads to what comes of
/// it on memory `m`.
pub proof fn law_each_steps(
    m: Map<int, u8>,
    s: Gathering,
    r: Step<ReadRequest, ScatterEach, Result<Vec<Vec<u8>>, Error>>,
)
    requires
        goes_on_each(r, s),
    ensures
        match r {
            Step::Done(Ok(bufs)) => one_by_one(m, s) == buffers(bufs@),
            Step::Done(Err(_)) => false,
            Step::Do(req, each) => req == each@.items[each@.got.len() as int] && one_by_one(m, s)
                == one_by_one(
                m,
                Gathering {
                    got: each@.got.push(memory::peek(m, req.addr as int, req.len as nat)),
                    ..each@
                },
            ),
        },
{
}

/// Whether a batched read, with its batches answered by memory `m`, ends within `n`
/// batches and gives `found`. A batch is answered with all the bytes of its reads.
pub open spec fn ends_with(
    m: Map<int, u8>,
    r: Step<Vec<ReadRequest>, ScatterRun, Result<Vec<Vec<u8>>, Error>>,
    n: nat,
    found: Seq<Seq<u8>>,
) -> bool
    decreases n,
{
    match r {
        Step::Done(x) => x matches Ok(bufs) && buffers(bufs@) == found,
        Step::Do(batch, s) => n > 0 && exists|
            moved: isize,
            errno: i32,
            bufs: Vec<Vec<u8>>,
            next: Step<Vec<ReadRequest>, ScatterRun, Result<Vec<Vec<u8>>, Error>>,
        |
            moved == total(batch@) && read_each(m, batch@, bufs@) && #[trigger] call_ensures(
                ScatterRun::resume,
                (s, moved, errno, bufs),
                next,
            ) && ends_with(m, next, (n - 1) as nat, found),
    }
}

/// Whether `bufs` holds what each read gives on memory `m`.
pub open spec fn read_each(m: Map<int, u8>, items: Seq<ReadRequest>, bufs: Seq<Vec<u8>>) -> bool {
    &&& bufs.len() == items.len()
    &&& forall|i: int|
        0 <= i < items.len() ==> (#[trigger] bufs[i])@ == memory::peek(
            m,
            items[i].addr as int,
            items[i].len as nat,
        )
}

proof fn lemma_ends_with(
    m: Map<int, u8>,
    r: Step<Vec<ReadRequest>, ScatterRun, Result<Vec<Vec<u8>>, Error>>,
    s: Gathering,
    n: nat,
    found: Seq<Seq<u8>>,
)
    requires
        goes_on(r, s),
        ends_with(m, r, n, found),
    ensures
        found == by_batches(m, s),
    decreases n,
{
    if let Step::Do(batch, t) = r {
        let (moved, errno, bufs, next) = choose|
            moved: isize,
            errno: i32,
            bufs: Vec<Vec<u8>>,
            next: Step<Vec<ReadRequest>, ScatterRun, Result<Vec<Vec<u8>>, Error>>,
        |
            moved == total(batch@) && read_each(m, batch@, bufs@) && #[trigger] call_ensures(
                ScatterRun::resume,
                (t, moved, errno, bufs),
                next,
            ) && ends_with(m, next, (n - 1) as nat, found);
        assert(buffers(bufs@) =~= gathered(m, batch@));
        let u = Gathering { got: s.got + gathered(m, batch@), ..s };
        lemma_ends_with(m, next, u, (n - 1) as nat, found);
    }
}

/// Each queued read gets, at the index that it was given, just the bytes of its
/// range, however many reads there are.
pub proof fn law_scatter_reads_every_range(
    m: Map<int, u8>,
    q: Scatter<'_>,
    r: Step<Vec<ReadRequest>, ScatterRun, Result<Vec<Vec<u8>>, Error>>,
    n: nat,
    found: Seq<Seq<u8>>,
    i: int,
)
    requires
        call_ensures(Scatter::run, (q,), r),
        ends_with(m, r, n, found),
        0 <= i < q@.items.len(),
    ensures
        found.len() == q@.items.len(),
        found[i] == memory::peek(m, q@.items[i].addr as int, q@.items[i].len as nat),
{
    lemma_ends_with(
        m,
        r,
        Gathering { pid: q@.pid, items: q@.items, got: Seq::empty() },
        n,
        found,
    );
    law_slots_in_order(m, q@.pid, q@.items);
}

/// Whether a scatter read that is issued read by read, with its reads answered by
/// memory `m`, ends within `n` reads and gives `found`.
pub open spec fn each_ends_with(
    m: Map<int, u8>,
    r: Step<ReadRequest, ScatterEach, Result<Vec<Vec<u8>>, Error>>,
    n: nat,
    found: Seq<Seq<u8>>,
) -> bool
    decreases n,
{
    match r {
        Step::Done(x) => x matches Ok(bufs) && buffers(bufs@) == found,
        Step::Do(req, s) => n > 0 && exists|
            b: Vec<u8>,
            next: Step<ReadRequest, ScatterEach, Result<Vec<Vec<u8>>, Error>>,
        |
            b@ == memory::peek(m, req.addr as int, req.len as nat) && #[trigger] call_ensures(
                ScatterEach::resume,
                (s, Ok::<Vec<u8>, Error>(b)),
                next,
            ) && each_ends_with(m, next, (n - 1) as nat, found),
    }
}

proof fn lemma_each_ends_with(
    m: Map<int, u8>,
    r: Step<ReadRequest, ScatterEach, Result<Vec<Vec<u8>>, Error>>,
    s: Gathering,
    n: nat,
    found: Seq<Seq<u8>>,
)
    requires
        goes_on_each(r, s),
        each_ends_with(m, r, n, found),
    ensures
        found == one_by_one(m, s),
    decreases n,
{
    if let Step::Do(req, t) = r {
        let (b, next) = choose|
            b: Vec<u8>,
            next: Step<ReadRequest, ScatterEach, Result<Vec<Vec<u8>>, Error>>,
        |
            b@ == memory::peek(m, req.addr as int, req.len as nat) && #[trigger] call_ensures(
                ScatterEach::resume,
                (t, Ok::<Vec<u8>, Error>(b)),
                next,
            ) && each_ends_with(m, next, (n - 1) as nat, found);
        let u = Gathering { got: s.got.push(b@), ..s };
        lemma_each_ends_with(m, next, u, (n - 1) as nat, found);
    }
}

/// A scatter read that is issued read by read gives the same.
pub proof fn law_reading_each_gives_the_same(
    m: Map<int, u8>,
    q: Scatter<'_>,
    r: Step<ReadRequest, ScatterEach, Result<Vec<Vec<u8>>, Error>>,
    n: nat,
    found: Seq<Seq<u8>>,
    i: int,
)
    requires
        call_ensures(Scatter::run_each, (q,), r),
        each_ends_with(m, r, n, found),
        0 <= i < q@.items.len(),
    ensures
        found.len() == q@.items.len(),
        found[i] == memory::peek(m, q@.items[i].addr as int, q@.items[i].len as nat),
{
    lemma_each_ends_with(
        m,
        r,
        Gathering { pid: q@.pid, items: q@.items, got: Seq::empty() },
        n,
        found,
    );
    law_slots_in_order(m, q@.pid, q@.items);
}

/// A read is queued behind those before it, and its index is its place among them.
pub proof fn law_queue_grows(
    p: &Process,
    empty: Scatter<'_>,
    q: &mut Scatter<'_>,
    addr: usize,
    len: usize,
    index: usize,
    i: int,
)
    requires
        call_ensures(Process::scatter, (p,), empty),
        call_ensures(Scatter::add, (q, addr, len), index),
        0 <= i < old(q)@.items.len(),
    ensures
        empty@.items.len() == 0,
        empty@.pid == p@,
        index == old(q)@.items.len(),
        final(q)@.items.len() == index + 1,
        final(q)@.items[index as int].addr == addr,
        final(q)@.items[index as int].len == len,
        final(q)@.items[i] == old(q)@.items[i],
        final(q)@.pid == old(q)@.pid,
{
}

/// No batch is longer than the kernel takes at once, none is empty, and a batch
/// starts with the first read that is still to be done.
pub proof fn law_batches_fit_the_kernel(
    q: Scatter<'_>,
    batch: Vec<ReadRequest>,
    s: ScatterRun,
)
    requires
        call_ensures(
            Scatter::run,
            (q,),
            Step::<Vec<ReadRequest>, ScatterRun, Result<Vec<Vec<u8>>, Error>>::Do(batch, s),
        ),
    ensures
        0 < batch@.len() <= 1024,
        batch@[0] == q@.items[0],
        batch@.len() == q@.items.len() || batch@.len() == 1024,
{
}

/// A batch succeeds if and only if all of its bytes were moved; a failure is
/// reported against its first read.
pub proof fn law_batch_is_all_or_error(
    s: ScatterRun,
    moved: isize,
    errno: i32,
    bufs: Vec<Vec<u8>>,
    r: Step<Vec<ReadRequest>, ScatterRun, Result<Vec<Vec<u8>>, Error>>,
)
    requires
        s@.got.len() < s@.items.len(),
        fit(s@.batch(), buffers(bufs@)),
        call_ensures(ScatterRun::resume, (s, moved, errno, bufs), r),
    ensures
        (r matches Step::Done(Err(_))) <==> moved < 0 || moved != total(s@.batch()),
        moved < 0 ==> r == Step::<Vec<ReadRequest>, ScatterRun, Result<Vec<Vec<u8>>, Error>>::Done(
            Err(
                io::classified(
                    s@.pid,
                    s@.items[s@.got.len() as int].addr,
                    s@.items[s@.got.len() as int].len,
                    errno,
                ),
            ),
        ),
        moved >= 0 && moved != total(s@.batch()) ==> (r matches Step::Done(
            Err(Error::Partial { addr, wanted, moved: got }),
        ) && addr == s@.items[s@.got.len() as int].addr && got == moved),
{
    assert(s@.batch()[0] == s@.items[s@.got.len() as int]);
}

/// How many bytes reads move together is the sum over them.
pub proof fn law_total_is_the_sum(items: Seq<ReadRequest>, last: ReadRequest)
    ensures
        total(Seq::empty()) == 0,
        total(items.push(last)) == total(items) + last.len,
{
    assert(items.push(last).drop_last() =~= items);
}

/// An error of a read ends a scatter read that is issued read by read.
pub proof fn law_errors_end_reading_each(
    s: ScatterEach,
    e: Error,
    r: Step<ReadRequest, ScatterEach, Result<Vec<Vec<u8>>, Error>>,
)
    requires
        call_ensures(ScatterEach::resume, (s, Err::<Vec<u8>, Error>(e)), r),
    ensures
        r == Step::<ReadRequest, ScatterEach, Result<Vec<Vec<u8>>, Error>>::Done(Err(e)),
{
}

/// A typed read is queued as one of as many bytes as the type has.
pub proof fn law_typed_reads_have_the_size_of_the_type<T>(
    q: &mut Scatter<'_>,
    addr: usize,
    index: usize,
)
    requires
        call_ensures(Scatter::add_typed::<T>, (q, addr), index),
    ensures
        index == old(q)@.items.len(),
        final(q)@.items.len() == index + 1,
        final(q)@.items[index as int].addr == addr,
        final(q)@.items[index as int].len as nat == vstd::layout::size_of::<T>(),
{
}

} // verus!
