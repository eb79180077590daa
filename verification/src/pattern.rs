//! Byte signatures with wildcards.
use vstd::prelude::*;
use vstd::slice::slice_subrange;

use crate::error::Error;
use crate::text;

verus! {

/// A byte signature with wildcards, e.g. parsed from `"48 8B ?? 89 ?? ??"`.
///
/// Each position is either a concrete byte or a wildcard that matches any byte.
/// Build one with [`parse`](Self::parse) (IDA-style hex string) or
/// [`from_mask`](Self::from_mask) (bytes + `"xx?x"`-style mask).
#[derive(Debug)]
pub struct Pattern(Vec<Option<u8>>);

impl View for Pattern {
    type V = Seq<Option<u8>>;

    /// The positions: a byte, or `None` for a wildcard.
    closed spec fn view(&self) -> Seq<Option<u8>> {
        self.0@
    }
}

impl Clone for Pattern {
    fn clone(&self) -> (r: Self)
        ensures
            r@ == self@,
    {
        let v: Vec<Option<u8>> = self.0.clone();
        assert(v@ =~= self.0@);
        Pattern(v)
    }
}

/// Whether a token stands for any byte.
pub open spec fn is_wildcard(t: Seq<char>) -> bool {
    t == seq!['?', '?'] || t == seq!['?'] || t == seq!['*', '*'] || t == seq!['*']
}

/// The position that a token stands for, if it is a wildcard or a two-digit hex
/// byte.
pub open spec fn position_of(t: Seq<char>) -> Option<Option<u8>> {
    if is_wildcard(t) {
        Some(None)
    } else if t.len() == 2 {
        match (text::digit_value(t[0]), text::digit_value(t[1])) {
            (Some(a), Some(b)) => Some(Some((16 * a + b) as u8)),
            _ => None,
        }
    } else {
        None
    }
}

/// What is said of a token that stands for nothing.
pub open spec fn complaint(t: Seq<char>) -> Seq<char> {
    "bad token '"@ + t + "'"@
}

/// Whether every token of the signature is good, and `p` holds their positions.
pub open spec fn parsed(sig: Seq<char>, p: Seq<Option<u8>>) -> bool {
    &&& p.len() == text::words(sig).len()
    &&& forall|i: int|
        0 <= i < p.len() ==> position_of(#[trigger] text::words(sig)[i]) == Some(p[i])
}

/// Whether a token of the signature is bad, and `e` complains of the first one.
pub open spec fn rejected(sig: Seq<char>, e: Error) -> bool {
    &&& e matches Error::InvalidPattern(m)
    &&& exists|i: int|
        0 <= i < text::words(sig).len() && m@ == complaint(#[trigger] text::words(sig)[i])
            && position_of(text::words(sig)[i]) is None && forall|j: int|
            0 <= j < i ==> position_of(#[trigger] text::words(sig)[j]) is Some
}

/// A signature is never both accepted and rejected, and stands for one pattern
/// only.
pub proof fn law_parse_is_decided(
    sig: Seq<char>,
    p: Seq<Option<u8>>,
    q: Seq<Option<u8>>,
    e: Error,
)
    requires
        parsed(sig, p),
    ensures
        !rejected(sig, e),
        parsed(sig, q) ==> p == q,
{
    if parsed(sig, q) {
        assert forall|i: int| 0 <= i < p.len() implies p[i] == q[i] by {
            assert(position_of(text::words(sig)[i]) == Some(p[i]));
        }
        assert(p =~= q);
    }
}

/// A bad signature is rejected in one way only, whoever parses it.
pub proof fn law_rejection_is_unique(sig: Seq<char>, d: Error, e: Error)
    requires
        rejected(sig, d),
        rejected(sig, e),
    ensures
        d->InvalidPattern_0@ == e->InvalidPattern_0@,
{
    let w = text::words(sig);
    let i = choose|i: int|
        0 <= i < w.len() && d->InvalidPattern_0@ == complaint(#[trigger] w[i]) && position_of(
            w[i],
        ) is None && forall|j: int| 0 <= j < i ==> position_of(#[trigger] w[j]) is Some;
    let k = choose|k: int|
        0 <= k < w.len() && e->InvalidPattern_0@ == complaint(#[trigger] w[k]) && position_of(
            w[k],
        ) is None && forall|j: int| 0 <= j < k ==> position_of(#[trigger] w[j]) is Some;
    assert(position_of(w[i]) is None && position_of(w[k]) is None);
    assert(i == k);
}

/// Whether the pattern matches the bytes at `i`.
pub open spec fn matches(p: Seq<Option<u8>>, hay: Seq<u8>, i: int) -> bool {
    &&& 0 <= i
    &&& i + p.len() <= hay.len()
    &&& forall|j: int|
        #![trigger p[j]]
        0 <= j < p.len() ==> (p[j] matches Some(b) ==> hay[i + j] == b)
}

/// Whether the values are in strictly ascending order.
pub open spec fn ascending(v: Seq<usize>) -> bool {
    forall|i: int, j: int| 0 <= i < j < v.len() ==> v[i] < v[j]
}

/// Whether `r` is the first place at which the pattern matches, or there is none.
pub open spec fn is_first_match(p: Seq<Option<u8>>, hay: Seq<u8>, r: Option<usize>) -> bool {
    match r {
        Some(i) => p.len() > 0 && matches(p, hay, i as int) && forall|j: int|
            0 <= j < i ==> !#[trigger] matches(p, hay, j),
        None => p.len() == 0 || forall|j: int| !#[trigger] matches(p, hay, j),
    }
}

/// Whether `v` holds the places at which the pattern matches, and no other.
pub open spec fn are_all_matches(p: Seq<Option<u8>>, hay: Seq<u8>, v: Seq<usize>) -> bool {
    &&& ascending(v)
    &&& forall|i: usize|
        v.contains(i) <==> p.len() > 0 && #[trigger] matches(p, hay, i as int)
}

/// The position that a token stands for.
fn parse_token(t: &[char]) -> (r: Option<Option<u8>>)
    ensures
        r == position_of(t@),
{
    let wild = if t.len() == 1 {
        t[0] == '?' || t[0] == '*'
    } else {
        t.len() == 2 && (t[0] == '?' && t[1] == '?' || t[0] == '*' && t[1] == '*')
    };
    proof {
        if t@.len() == 1 {
            assert(t@ =~= seq![t@[0]]);
        } else if t@.len() == 2 {
            assert(t@ =~= seq![t@[0], t@[1]]);
        }
        assert(wild == is_wildcard(t@));
    }
    if wild {
        return Some(None);
    }
    if t.len() != 2 {
        return None;
    }
    match (text::value_of(t[0]), text::value_of(t[1])) {
        (Some(a), Some(b)) => Some(Some(a * 16 + b)),
        _ => None,
    }
}

impl Pattern {
    /// Parse an IDA-style pattern: hex bytes separated by whitespace, with
    /// `??`, `?`, `**`, or `*` for a wildcard byte.
    ///
    /// # Errors
    /// [`Error::InvalidPattern`] if a token is neither a wildcard nor a valid
    /// two-digit hex byte.
    pub fn parse(sig: &str) -> (r: Result<Self, Error>)
        ensures
            match r {
                Ok(p) => parsed(sig@, p@),
                Err(e) => rejected(sig@, e),
            },
    {
        let all: Vec<char> = text::chars_of(sig);
        let mut rest: &[char] = all.as_slice();
        let mut out: Vec<Option<u8>> = Vec::new();
        let ghost tokens = text::words(sig@);
        assert(tokens.skip(0) =~= tokens);
        loop
            invariant
                tokens == text::words(sig@),
                out@.len() <= tokens.len(),
                tokens.skip(out@.len() as int) == text::words(rest@),
                forall|i: int|
                    0 <= i < out@.len() ==> position_of(#[trigger] tokens[i]) == Some(out@[i]),
            decreases rest.len(),
        {
            let from: usize = text::skip_space(rest);
            let tail: &[char] = slice_subrange(rest, from, rest.len());
            assert(tail@ =~= rest@.skip(from as int));
            if tail.len() == 0 {
                assert(tokens.skip(out@.len() as int).len() == 0);
                return Ok(Pattern(out));
            }
            let n: usize = text::find_space(tail);
            assert(n > 0) by {
                assert(!text::is_space(tail@[0]));
            }
            let t: &[char] = slice_subrange(tail, 0, n);
            assert(t@ =~= tail@.take(n as int));
            let next: &[char] = slice_subrange(tail, n, tail.len());
            assert(next@ =~= tail@.skip(n as int));
            let ghost k = out@.len() as int;
            proof {
                let w = text::words(rest@);
                assert(w == seq![t@] + text::words(next@));
                assert(w[0] == t@);
                assert(tokens.skip(k)[0] == tokens[k]);
                assert(w.drop_first() =~= text::words(next@));
                assert(tokens.skip(k).drop_first() =~= tokens.skip(k + 1));
            }
            match parse_token(t) {
                Some(position) => out.push(position),
                None => {
                    let mut m: String = "bad token '".to_owned();
                    text::push_chars(&mut m, t);
                    m.append("'");
                    assert(m@ == complaint(tokens[k]));
                    return Err(Error::InvalidPattern(m));
                },
            }
            rest = next;
        }
    }

    /// Build from a code-style pattern + mask.
    ///
    /// `x` (or `X`) in the mask means "this byte must match"; any other
    /// character (conventionally `?`) is a wildcard, and the corresponding
    /// placeholder byte in `bytes` is ignored.
    ///
    /// # Errors
    /// [`Error::InvalidPattern`] if `bytes` and `mask` differ in length.
    pub fn from_mask(bytes: &[u8], mask: &str) -> (r: Result<Self, Error>)
        ensures
            if bytes@.len() != vstd::utf8::encode_utf8(mask@).len() {
                r matches Err(Error::InvalidPattern(m)) && m@
                    == "pattern and mask differ in length"@
            } else {
                &&& r matches Ok(p)
                &&& p@.len() == (if bytes@.len() < mask@.len() {
                    bytes@.len()
                } else {
                    mask@.len()
                })
                &&& forall|i: int|
                    0 <= i < p@.len() ==> #[trigger] p@[i] == (if mask@[i] == 'x' || mask@[i]
                        == 'X' {
                        Some(bytes@[i])
                    } else {
                        None
                    })
            },
    {
        if bytes.len() != mask.as_bytes().len() {
            return Err(Error::InvalidPattern("pattern and mask differ in length".to_owned()));
        }
        let m: Vec<char> = text::chars_of(mask);
        let mut out: Vec<Option<u8>> = Vec::new();
        let mut i: usize = 0;
        while i < bytes.len() && i < m.len()
            invariant
                m@ == mask@,
                i == out@.len(),
                i <= bytes@.len(),
                i <= m@.len(),
                forall|k: int|
                    0 <= k < i ==> #[trigger] out@[k] == (if m@[k] == 'x' || m@[k] == 'X' {
                        Some(bytes@[k])
                    } else {
                        None
                    }),
            decreases bytes.len() - i,
        {
            if m[i] == 'x' || m[i] == 'X' {
                out.push(Some(bytes[i]));
            } else {
                out.push(None);
            }
            i = i + 1;
        }
        Ok(Pattern(out))
    }

    /// Number of bytes (concrete + wildcard) in the pattern.
    pub fn len(&self) -> (r: usize)
        ensures
            r == self@.len(),
    {
        self.0.len()
    }

    /// Whether the pattern has no bytes.
    pub fn is_empty(&self) -> (r: bool)
        ensures
            r == (self@.len() == 0),
    {
        self.0.len() == 0
    }

    /// Whether the pattern matches `hay` at `i`.
    pub fn matches_at(&self, hay: &[u8], i: usize) -> (r: bool)
        requires
            i + self@.len() <= hay@.len(),
        ensures
            r == matches(self@, hay@, i as int),
    {
        let mut j: usize = 0;
        while j < self.0.len()
            invariant
                j <= self.0@.len(),
                i + self.0@.len() <= hay@.len(),
                forall|k: int|
                    #![trigger self.0@[k]]
                    0 <= k < j ==> (self.0@[k] matches Some(b) ==> hay@[i + k] == b),
            decreases self.0.len() - j,
        {
            assert(i + j < hay.len());
            if let Some(b) = self.0[j] {
                if hay[i + j] != b {
                    assert(self.0@[j as int] == Some(b));
                    return false;
                }
            }
            j = j + 1;
        }
        true
    }

    /// The first place at which the pattern matches. An empty pattern matches
    /// nowhere.
    pub fn first_match(&self, hay: &[u8]) -> (r: Option<usize>)
        ensures
            match r {
                Some(i) => self@.len() > 0 && matches(self@, hay@, i as int) && forall|j: int|
                    0 <= j < i ==> !matches(self@, hay@, j),
                None => self@.len() == 0 || forall|j: int| !matches(self@, hay@, j),
            },
            is_first_match(self@, hay@, r),
    {
        let n: usize = self.0.len();
        if n == 0 || hay.len() < n {
            return None;
        }
        let last: usize = hay.len() - n;
        let mut i: usize = 0;
        while i <= last
            invariant
                n == self@.len(),
                last + n == hay@.len(),
                i <= last + 1,
                last < usize::MAX,
                n > 0,
                forall|j: int| 0 <= j < i ==> !matches(self@, hay@, j),
            decreases last + 1 - i,
        {
            if self.matches_at(hay, i) {
                return Some(i);
            }
            i = i + 1;
        }
        None
    }

    /// Every place at which the pattern matches, ascending.
    pub fn all_matches(&self, hay: &[u8]) -> (r: Vec<usize>)
        ensures
            ascending(r@),
            forall|i: usize|
                r@.contains(i) <==> self@.len() > 0 && #[trigger] matches(self@, hay@, i as int),
            are_all_matches(self@, hay@, r@),
    {
        let n: usize = self.0.len();
        let mut out: Vec<usize> = Vec::new();
        if n == 0 || hay.len() < n {
            return out;
        }
        let last: usize = hay.len() - n;
        let mut i: usize = 0;
        while i <= last
            invariant
                n == self@.len(),
                last + n == hay@.len(),
                i <= last + 1,
                last < usize::MAX,
                n > 0,
                ascending(out@),
                forall|k: int| 0 <= k < out@.len() ==> #[trigger] out@[k] < i,
                forall|j: usize|
                    out@.contains(j) <==> j < i && #[trigger] matches(self@, hay@, j as int),
            decreases last + 1 - i,
        {
            if self.matches_at(hay, i) {
                let ghost before = out@;
                out.push(i);
                proof {
                    assert forall|j: usize|
                        out@.contains(j) <==> j < i + 1 && #[trigger] matches(
                            self@,
                            hay@,
                            j as int,
                        ) by {
                        if out@.contains(j) {
                            let k = out@.index_of(j);
                            if k < before.len() {
                                assert(before[k] == j);
                                assert(before.contains(j));
                            }
                        }
                        if before.contains(j) {
                            let k = before.index_of(j);
                            assert(out@[k] == j);
                        }
                        if j == i {
                            assert(out@[before.len() as int] == j);
                        }
                    }
                }
            }
            i = i + 1;
        }
        out
    }
}

/// The digit of each value in upper case.
pub open spec fn upper_digits() -> Seq<char> {
    seq!['0', '1', '2', '3', '4', '5', '6', '7', '8', '9', 'A', 'B', 'C', 'D', 'E', 'F']
}

/// Whether `c` is the hexadecimal digit of value `d`, in either case.
pub open spec fn is_digit(c: char, d: int) -> bool {
    0 <= d < 16 && (c == text::hex_digits()[d] || c == upper_digits()[d])
}

/// Whether a token spells a position: one or two question marks or asterisks a
/// wildcard, and two hexadecimal digits the byte of that value.
pub open spec fn spells(t: Seq<char>, x: Option<u8>) -> bool {
    match x {
        None => t == seq!['?'] || t == seq!['?', '?'] || t == seq!['*'] || t == seq!['*', '*'],
        Some(b) => t.len() == 2 && is_digit(t[0], b as int / 16) && is_digit(t[1], b as int % 16),
    }
}

/// Tokens with gaps before, between and behind them.
pub open spec fn joined(ts: Seq<Seq<char>>, gaps: Seq<Seq<char>>) -> Seq<char>
    decreases ts.len(),
{
    if ts.len() == 0 {
        gaps[0]
    } else {
        gaps[0] + ts[0] + joined(ts.drop_first(), gaps.drop_first())
    }
}

/// Whether gaps set tokens apart: they are of white space, and no two tokens touch.
pub open spec fn apart(ts: Seq<Seq<char>>, gaps: Seq<Seq<char>>) -> bool {
    &&& gaps.len() == ts.len() + 1
    &&& forall|i: int| 0 <= i < gaps.len() ==> text::blank(#[trigger] gaps[i])
    &&& forall|i: int| 0 < i < ts.len() ==> (#[trigger] gaps[i]).len() > 0
}

proof fn lemma_words_of_joined(ts: Seq<Seq<char>>, gaps: Seq<Seq<char>>)
    requires
        apart(ts, gaps),
        forall|i: int| 0 <= i < ts.len() ==> text::word(#[trigger] ts[i]),
    ensures
        text::words(joined(ts, gaps)) == ts,
    decreases ts.len(),
{
    assert(text::blank(gaps[0]));
    if ts.len() == 0 {
        text::law_words(gaps[0], seq!['x'], Seq::empty());
        assert(text::words(gaps[0]) =~= ts);
    } else {
        assert(text::word(ts[0]));
        let rest = ts.drop_first();
        let more = gaps.drop_first();
        assert forall|i: int| 0 <= i < rest.len() implies text::word(#[trigger] rest[i]) by {
            assert(text::word(ts[i + 1]));
        }
        assert(apart(rest, more)) by {
            assert forall|i: int| 0 <= i < more.len() implies text::blank(#[trigger] more[i]) by {
                assert(text::blank(gaps[i + 1]));
            }
            assert forall|i: int| 0 < i < rest.len() implies (#[trigger] more[i]).len() > 0 by {
                assert(gaps[i + 1].len() > 0);
            }
        }
        lemma_words_of_joined(rest, more);
        let tail = joined(rest, more);
        assert(tail.len() > 0 ==> text::is_space(tail[0])) by {
            assert(text::blank(gaps[1]));
            assert(more[0] == gaps[1]);
            if tail.len() > 0 {
                if rest.len() > 0 {
                    assert(gaps[1].len() > 0);
                }
                assert(tail[0] == gaps[1][0]);
            }
        }
        text::law_words(gaps[0], ts[0], tail);
        assert(seq![ts[0]] + rest =~= ts);
    }
}

proof fn lemma_digit(c: char, d: int)
    ensures
        is_digit(c, d) ==> text::digit_value(c) == Some(d as nat) && !text::is_space(c),
        text::digit_value(c) matches Some(v) ==> is_digit(c, v as int),
{
    text::law_digits(c, d as nat);
    let (h, u) = (text::hex_digits(), upper_digits());
    if let Some(v) = text::digit_value(c) {
        assert(h[v as int] == c || u[v as int] == c);
    }
}

proof fn lemma_spells(t: Seq<char>, x: Option<u8>)
    ensures
        spells(t, x) ==> position_of(t) == Some(x) && text::word(t),
        position_of(t) == Some(x) ==> spells(t, x),
{
    if spells(t, x) {
        match x {
            None => {
                assert(text::word(t));
            },
            Some(b) => {
                lemma_digit(t[0], b as int / 16);
                lemma_digit(t[1], b as int % 16);
                assert(t[0] != '?' && t[0] != '*');
                assert(text::word(t));
            },
        }
    }
    if position_of(t) == Some(x) && x is Some {
        lemma_digit(t[0], 0);
        lemma_digit(t[1], 0);
        let a = text::digit_value(t[0])->0;
        let b = text::digit_value(t[1])->0;
        assert(a < 16 && b < 16);
        assert((16 * a + b) / 16 == a && (16 * a + b) % 16 == b);
    }
}

/// A signature is read token by token: one that spells a position in each of its
/// tokens is the pattern of those positions.
pub proof fn law_signature_spells_its_pattern(
    sig: &str,
    ts: Seq<Seq<char>>,
    gaps: Seq<Seq<char>>,
    p: Seq<Option<u8>>,
    r: Result<Pattern, Error>,
)
    requires
        ts.len() == p.len(),
        forall|i: int| 0 <= i < ts.len() ==> spells(#[trigger] ts[i], p[i]),
        apart(ts, gaps),
        sig@ == joined(ts, gaps),
        call_ensures(Pattern::parse, (sig,), r),
    ensures
        r matches Ok(q) && q@ == p,
{
    assert forall|i: int| 0 <= i < ts.len() implies text::word(#[trigger] ts[i]) && position_of(
        ts[i],
    ) == Some(p[i]) by {
        lemma_spells(ts[i], p[i]);
    }
    lemma_words_of_joined(ts, gaps);
    assert(parsed(sig@, p));
    match r {
        Ok(q) => law_parse_is_decided(sig@, p, q@, Error::InvalidPattern(arbitrary())),
        Err(e) => law_parse_is_decided(sig@, p, p, e),
    }
}

/// A signature with a token that spells nothing is rejected, and the message
/// quotes the first such token.
pub proof fn law_bad_token_is_quoted(
    sig: &str,
    ts: Seq<Seq<char>>,
    gaps: Seq<Seq<char>>,
    k: int,
    r: Result<Pattern, Error>,
)
    requires
        0 <= k < ts.len(),
        forall|i: int| 0 <= i < ts.len() ==> text::word(#[trigger] ts[i]),
        forall|i: int| 0 <= i < k ==> exists|x: Option<u8>| spells(#[trigger] ts[i], x),
        forall|x: Option<u8>| !spells(ts[k], x),
        apart(ts, gaps),
        sig@ == joined(ts, gaps),
        call_ensures(Pattern::parse, (sig,), r),
    ensures
        r matches Err(Error::InvalidPattern(m)) && m@ == "bad token '"@ + ts[k] + "'"@,
{
    lemma_words_of_joined(ts, gaps);
    assert(position_of(ts[k]) is None) by {
        if let Some(x) = position_of(ts[k]) {
            lemma_spells(ts[k], x);
        }
    }
    assert forall|i: int| 0 <= i < k implies position_of(#[trigger] ts[i]) is Some by {
        let x = choose|x: Option<u8>| spells(ts[i], x);
        lemma_spells(ts[i], x);
    }
    assert(text::words(sig@)[k] == ts[k]);
    match r {
        Ok(q) => {
            assert(position_of(text::words(sig@)[k]) == Some(q@[k]));
        },
        Err(e) => {
            let w = text::words(sig@);
            let i = choose|i: int|
                0 <= i < w.len() && e->InvalidPattern_0@ == complaint(#[trigger] w[i])
                    && position_of(w[i]) is None && forall|j: int|
                    0 <= j < i ==> position_of(#[trigger] w[j]) is Some;
            assert(position_of(w[i]) is None);
            assert(i == k);
        },
    }
}

/// Whether the bytes from `i` on are those of the pattern, as far as it has any.
pub open spec fn occurs(p: Seq<Option<u8>>, hay: Seq<u8>, i: int) -> bool {
    &&& 0 <= i && i + p.len() <= hay.len()
    &&& forall|j: int| 0 <= j < p.len() ==> (#[trigger] p[j] is None || p[j] == Some(hay[i + j]))
}

proof fn lemma_occurs(p: Seq<Option<u8>>, hay: Seq<u8>, i: int)
    ensures
        matches(p, hay, i) <==> occurs(p, hay, i),
{
    if matches(p, hay, i) {
        assert forall|j: int| 0 <= j < p.len() implies (#[trigger] p[j] is None || p[j] == Some(
            hay[i + j],
        )) by {}
    }
    if occurs(p, hay, i) {
        assert forall|j: int|
            #![trigger p[j]]
            0 <= j < p.len() implies (p[j] matches Some(b) ==> hay[i + j] == b) by {}
    }
}

/// A pattern matches at a place if and only if the bytes there are its own where
/// it has one, whatever they are where it has a wildcard.
pub proof fn law_matching_compares_the_bytes(p: &Pattern, hay: &[u8], i: usize, r: bool)
    requires
        i + p@.len() <= hay@.len(),
        call_ensures(Pattern::matches_at, (p, hay, i), r),
    ensures
        r <==> occurs(p@, hay@, i as int),
{
    lemma_occurs(p@, hay@, i as int);
}

/// The first match is the lowest place at which the pattern occurs; an empty
/// pattern is found nowhere.
pub proof fn law_first_match_is_the_lowest(p: &Pattern, hay: &[u8], r: Option<usize>)
    requires
        call_ensures(Pattern::first_match, (p, hay), r),
    ensures
        match r {
            Some(i) => p@.len() > 0 && occurs(p@, hay@, i as int) && forall|j: int|
                0 <= j < i ==> !#[trigger] occurs(p@, hay@, j),
            None => p@.len() == 0 || forall|j: int| !#[trigger] occurs(p@, hay@, j),
        },
{
    assert forall|j: int| #[trigger] occurs(p@, hay@, j) <==> matches(p@, hay@, j) by {
        lemma_occurs(p@, hay@, j);
    }
    match r {
        Some(i) => {
            assert(p@.len() > 0);
            assert(matches(p@, hay@, i as int));
            assert(occurs(p@, hay@, i as int));
            assert forall|j: int| 0 <= j < i implies !#[trigger] occurs(p@, hay@, j) by {
                assert(!matches(p@, hay@, j));
            }
        },
        None => {
            if p@.len() > 0 {
                assert(forall|j: int| !matches(p@, hay@, j));
                assert forall|j: int| !#[trigger] occurs(p@, hay@, j) by {
                    assert(!matches(p@, hay@, j));
                }
            }
        },
    }
}

/// All matches are the places at which the pattern occurs, each once and in
/// ascending order.
pub proof fn law_all_matches_are_all(p: &Pattern, hay: &[u8], r: Vec<usize>)
    requires
        call_ensures(Pattern::all_matches, (p, hay), r),
    ensures
        forall|i: int, j: int| 0 <= i < j < r@.len() ==> r@[i] < r@[j],
        forall|i: usize| #[trigger]
            r@.contains(i) <==> p@.len() > 0 && occurs(p@, hay@, i as int),
{
    assert forall|i: usize| #[trigger]
        r@.contains(i) <==> p@.len() > 0 && occurs(p@, hay@, i as int) by {
        lemma_occurs(p@, hay@, i as int);
        assert(r@.contains(i) <==> p@.len() > 0 && matches(p@, hay@, i as int));
    }
}

/// A mask of ASCII characters keeps the bytes at its `x`s and drops the others. It
/// has to be as long as the bytes, and any that is will do.
pub proof fn law_mask_keeps_its_bytes(b: &[u8], mask: &str, r: Result<Pattern, Error>)
    requires
        vstd::utf8::is_ascii_chars(mask@),
        call_ensures(Pattern::from_mask, (b, mask), r),
    ensures
        match r {
            Ok(p) => {
                &&& b@.len() == mask@.len()
                &&& p@.len() == b@.len()
                &&& forall|i: int|
                    0 <= i < b@.len() ==> ((mask@[i] == 'x' || mask@[i] == 'X') ==> #[trigger] p@[i]
                        == Some(b@[i]))
                &&& forall|i: int|
                    0 <= i < b@.len() ==> (mask@[i] != 'x' && mask@[i] != 'X' ==> #[trigger] p@[i]
                        is None)
            },
            Err(e) => b@.len() != mask@.len() && e is InvalidPattern,
        },
{
    vstd::utf8::is_ascii_chars_encode_utf8(mask@);
}

} // verus!
