//! Taking text apart and putting it together, one character at a time.
use vstd::prelude::*;
use vstd::slice::slice_subrange;

verus! {

/// Whether `c` has the Unicode property White_Space.
pub open spec fn is_space(c: char) -> bool {
    let u = c as u32;
    ||| 0x9 <= u <= 0xD
    ||| u == 0x20
    ||| u == 0x85
    ||| u == 0xA0
    ||| u == 0x1680
    ||| 0x2000 <= u <= 0x200A
    ||| u == 0x2028
    ||| u == 0x2029
    ||| u == 0x202F
    ||| u == 0x205F
    ||| u == 0x3000
}

/// Whether `c` is white space.
pub fn is_whitespace(c: char) -> (r: bool)
    ensures
        r == is_space(c),
{
    let u: u32 = c as u32;
    (0x9 <= u && u <= 0xD) || u == 0x20 || u == 0x85 || u == 0xA0 || u == 0x1680 || (0x2000 <= u
        && u <= 0x200A) || u == 0x2028 || u == 0x2029 || u == 0x202F || u == 0x205F || u == 0x3000
}

/// How many characters of `s` come before the first white space.
pub open spec fn word_len(s: Seq<char>) -> nat
    decreases s.len(),
{
    if s.len() == 0 || is_space(s[0]) {
        0
    } else {
        1 + word_len(s.drop_first())
    }
}

/// How many characters of `s` come before the first that is no white space.
pub open spec fn gap_len(s: Seq<char>) -> nat
    decreases s.len(),
{
    if s.len() == 0 || !is_space(s[0]) {
        0
    } else {
        1 + gap_len(s.drop_first())
    }
}

/// How many characters of `s` come before the first `c`.
pub open spec fn len_before(s: Seq<char>, c: char) -> nat
    decreases s.len(),
{
    if s.len() == 0 || s[0] == c {
        0
    } else {
        1 + len_before(s.drop_first(), c)
    }
}

/// `s` without the white space at its end.
pub open spec fn trim_end(s: Seq<char>) -> Seq<char>
    decreases s.len(),
{
    if s.len() > 0 && is_space(s.last()) {
        trim_end(s.drop_last())
    } else {
        s
    }
}

/// `s` without the white space at either end.
pub open spec fn trim(s: Seq<char>) -> Seq<char> {
    trim_end(s.skip(gap_len(s) as int))
}

/// The words of `s`: its longest stretches without white space.
pub open spec fn words(s: Seq<char>) -> Seq<Seq<char>>
    decreases s.len(),
{
    let g = gap_len(s) as int;
    let t = s.skip(g);
    let n = word_len(t) as int;
    if g < s.len() && 0 < n <= s.len() - g {
        seq![t.take(n)] + words(t.skip(n))
    } else {
        Seq::empty()
    }
}

/// `s` cut at each of the first `n - 1` single white-space characters.
pub open spec fn pieces(s: Seq<char>, n: nat) -> Seq<Seq<char>>
    decreases n,
{
    let i = word_len(s) as int;
    if n == 0 {
        Seq::empty()
    } else if n == 1 || i >= s.len() {
        seq![s]
    } else {
        seq![s.take(i)] + pieces(s.skip(i + 1), (n - 1) as nat)
    }
}

/// The members of `v` that hold something.
pub open spec fn filled(v: Seq<Seq<char>>) -> Seq<Seq<char>>
    decreases v.len(),
{
    if v.len() == 0 {
        Seq::empty()
    } else if v[0].len() == 0 {
        filled(v.drop_first())
    } else {
        seq![v[0]] + filled(v.drop_first())
    }
}

/// `s` without a carriage return at its end.
pub open spec fn without_cr(s: Seq<char>) -> Seq<char> {
    if s.len() > 0 && s.last() == '\r' {
        s.drop_last()
    } else {
        s
    }
}

/// The lines of `s`, without the line feeds (or carriage return, line feed)
/// that end them.
pub open spec fn lines(s: Seq<char>) -> Seq<Seq<char>>
    decreases s.len(),
{
    let i = len_before(s, '\n') as int;
    if s.len() == 0 {
        Seq::empty()
    } else if i >= s.len() {
        seq![s]
    } else {
        seq![without_cr(s.take(i))] + lines(s.skip(i + 1))
    }
}

/// What follows the last `/` of `s`, or all of it if there is none.
pub open spec fn basename(s: Seq<char>) -> Seq<char>
    decreases s.len(),
{
    let i = len_before(s, '/') as int;
    if s.len() == 0 || i >= s.len() {
        s
    } else {
        basename(s.skip(i + 1))
    }
}

/// The value of a hexadecimal digit.
pub open spec fn digit_value(c: char) -> Option<nat> {
    let u = c as u32;
    if 0x30 <= u <= 0x39 {
        Some((u - 0x30) as nat)
    } else if 0x61 <= u <= 0x66 {
        Some((u - 0x61 + 10) as nat)
    } else if 0x41 <= u <= 0x46 {
        Some((u - 0x41 + 10) as nat)
    } else {
        None
    }
}

/// The value of `s` as digits to base `b`, most significant first.
pub open spec fn digits_value(s: Seq<char>, b: nat) -> Option<nat>
    decreases s.len(),
{
    if s.len() == 0 {
        Some(0)
    } else {
        match (digits_value(s.drop_last(), b), digit_value(s.last())) {
            (Some(v), Some(d)) if d < b => Some(v * b + d),
            _ => None,
        }
    }
}

/// The value of `s` as an unsigned number to base `b`: at least one digit,
/// behind at most one plus sign.
pub open spec fn unsigned_value(s: Seq<char>, b: nat) -> Option<nat> {
    let t = if s.len() > 0 && s[0] == '+' {
        s.drop_first()
    } else {
        s
    };
    if t.len() == 0 {
        None
    } else {
        digits_value(t, b)
    }
}

/// The value of `s` as a signed decimal number: at least one digit, behind at
/// most one sign.
pub open spec fn signed_value(s: Seq<char>) -> Option<int> {
    if s.len() > 1 && s[0] == '-' {
        match digits_value(s.drop_first(), 10) {
            Some(v) => Some(-(v as int)),
            None => None,
        }
    } else {
        match unsigned_value(s, 10) {
            Some(v) => Some(v as int),
            None => None,
        }
    }
}

/// The digit of value `d`, in lower case.
pub open spec fn digit(d: nat) -> char {
    if d < 10 {
        (0x30 + d) as char
    } else {
        (0x61 + d - 10) as char
    }
}

/// `n` written to base `b`, most significant digit first.
pub open spec fn numeral(n: nat, b: nat) -> Seq<char>
    decreases n,
{
    if b < 2 || n < b {
        seq![digit(n)]
    } else {
        proof {
            vstd::arithmetic::div_mod::lemma_div_decreases(n as int, b as int);
        }
        numeral(n / b, b).push(digit(n % b))
    }
}

/// `n` in decimal.
pub open spec fn decimal(n: int) -> Seq<char> {
    if n < 0 {
        seq!['-'] + numeral((-n) as nat, 10)
    } else {
        numeral(n as nat, 10)
    }
}

/// `n` in hexadecimal, behind `0x`.
pub open spec fn hexadecimal(n: nat) -> Seq<char> {
    seq!['0', 'x'] + numeral(n, 16)
}

/// Whether `a` comes before `b` in the order of a dictionary over code points.
pub open spec fn before(a: Seq<char>, b: Seq<char>) -> bool
    decreases a.len(),
{
    if b.len() == 0 {
        false
    } else if a.len() == 0 {
        true
    } else if a[0] != b[0] {
        a[0] < b[0]
    } else {
        before(a.drop_first(), b.drop_first())
    }
}

/// The characters of `s`.
pub(crate) fn chars_of(s: &str) -> (r: Vec<char>)
    ensures
        r@ == s@,
{
    let mut v: Vec<char> = Vec::new();
    for c in it: s.chars()
        invariant
            it.seq() == s@,
            v@ == s@.take(it.index() as int),
    {
        v.push(c);
        assert(s@.take(it.index() + 1) =~= s@.take(it.index() as int).push(c));
    }
    assert(s@.take(s@.len() as int) =~= s@);
    v
}

/// `String::push`: appends the one character.
#[verifier::external_body]
fn push_char(s: &mut String, c: char)
    ensures
        final(s)@ == old(s)@.push(c),
{
    s.push(c);
}

/// Append `cs` to `s`.
pub(crate) fn push_chars(s: &mut String, cs: &[char])
    ensures
        final(s)@ == old(s)@ + cs@,
{
    let mut i: usize = 0;
    assert(s@ =~= old(s)@ + cs@.take(0));
    while i < cs.len()
        invariant
            i <= cs.len(),
            s@ == old(s)@ + cs@.take(i as int),
        decreases cs.len() - i,
    {
        push_char(s, cs[i]);
        i = i + 1;
        assert(s@ =~= old(s)@ + cs@.take(i as int));
    }
    assert(cs@.take(i as int) =~= cs@);
}

/// The text made of `cs`.
pub(crate) fn string_of(cs: &[char]) -> (r: String)
    ensures
        r@ == cs@,
{
    let mut s: String = String::new();
    push_chars(&mut s, cs);
    assert(s@ =~= cs@);
    s
}

/// How many characters of `s` come before the first white space.
pub(crate) fn find_space(s: &[char]) -> (r: usize)
    ensures
        r == word_len(s@),
        r <= s@.len(),
        r < s@.len() ==> is_space(s@[r as int]),
{
    let mut i: usize = 0;
    assert(s@.skip(0) =~= s@);
    while i < s.len()
        invariant
            i <= s.len(),
            word_len(s@) == i + word_len(s@.skip(i as int)),
        decreases s.len() - i,
    {
        if is_whitespace(s[i]) {
            return i;
        }
        assert(s@.skip(i as int).drop_first() =~= s@.skip(i + 1));
        i = i + 1;
    }
    i
}

/// How many characters of `s` come before the first that is no white space.
pub(crate) fn skip_space(s: &[char]) -> (r: usize)
    ensures
        r == gap_len(s@),
        r <= s@.len(),
        r < s@.len() ==> !is_space(s@[r as int]),
{
    let mut i: usize = 0;
    assert(s@.skip(0) =~= s@);
    while i < s.len()
        invariant
            i <= s.len(),
            gap_len(s@) == i + gap_len(s@.skip(i as int)),
        decreases s.len() - i,
    {
        if !is_whitespace(s[i]) {
            return i;
        }
        assert(s@.skip(i as int).drop_first() =~= s@.skip(i + 1));
        i = i + 1;
    }
    i
}

/// How many characters of `s` come before the first `c`.
pub(crate) fn find_char(s: &[char], c: char) -> (r: usize)
    ensures
        r == len_before(s@, c),
        r <= s@.len(),
        r < s@.len() ==> s@[r as int] == c,
{
    let mut i: usize = 0;
    assert(s@.skip(0) =~= s@);
    while i < s.len()
        invariant
            i <= s.len(),
            len_before(s@, c) == i + len_before(s@.skip(i as int), c),
        decreases s.len() - i,
    {
        if s[i] == c {
            return i;
        }
        assert(s@.skip(i as int).drop_first() =~= s@.skip(i + 1));
        i = i + 1;
    }
    i
}

/// `s` without the white space at either end.
pub(crate) fn trimmed(s: &[char]) -> (r: &[char])
    ensures
        r@ == trim(s@),
{
    let from: usize = skip_space(s);
    let mut to: usize = s.len();
    let ghost t = s@.skip(from as int);
    assert(s@.subrange(from as int, to as int) =~= t);
    while from < to && is_whitespace(s[to - 1])
        invariant
            from <= to <= s.len(),
            trim_end(t) == trim_end(s@.subrange(from as int, to as int)),
        decreases to - from,
    {
        assert(s@.subrange(from as int, to as int).drop_last() =~= s@.subrange(
            from as int,
            to - 1,
        ));
        to = to - 1;
    }
    slice_subrange(s, from, to)
}

/// What follows the last `/` of `s`, or all of it if there is none.
pub(crate) fn base_of(s: &[char]) -> (r: &[char])
    ensures
        r@ == basename(s@),
{
    let mut rest: &[char] = s;
    let mut i: usize = find_char(rest, '/');
    while i < rest.len()
        invariant
            i == len_before(rest@, '/'),
            i <= rest@.len(),
            basename(s@) == basename(rest@),
        decreases rest.len(),
    {
        let next: &[char] = slice_subrange(rest, i + 1, rest.len());
        assert(next@ =~= rest@.skip(i + 1));
        rest = next;
        i = find_char(rest, '/');
    }
    rest
}

/// Whether two texts are the same.
pub(crate) fn same(a: &[char], b: &[char]) -> (r: bool)
    ensures
        r == (a@ == b@),
{
    if a.len() != b.len() {
        return false;
    }
    let mut i: usize = 0;
    while i < a.len()
        invariant
            i <= a.len(),
            a@.len() == b@.len(),
            forall|j: int| 0 <= j < i ==> a@[j] == b@[j],
        decreases a.len() - i,
    {
        if a[i] != b[i] {
            return false;
        }
        i = i + 1;
    }
    assert(a@ =~= b@);
    true
}

/// Whether `a` comes before `b` in the order of a dictionary over code points.
pub(crate) fn comes_before(a: &[char], b: &[char]) -> (r: bool)
    ensures
        r == before(a@, b@),
{
    let mut i: usize = 0;
    assert(a@.skip(0) =~= a@);
    assert(b@.skip(0) =~= b@);
    while i < a.len() && i < b.len() && a[i] == b[i]
        invariant
            i <= a.len(),
            i <= b.len(),
            before(a@, b@) == before(a@.skip(i as int), b@.skip(i as int)),
        decreases a.len() - i,
    {
        assert(a@.skip(i as int).drop_first() =~= a@.skip(i + 1));
        assert(b@.skip(i as int).drop_first() =~= b@.skip(i + 1));
        i = i + 1;
    }
    if i >= b.len() {
        false
    } else if i >= a.len() {
        true
    } else {
        a[i] < b[i]
    }
}

/// The value of a hexadecimal digit.
pub(crate) fn value_of(c: char) -> (r: Option<u8>)
    ensures
        match r {
            Some(v) => v < 16 && digit_value(c) == Some(v as nat),
            None => digit_value(c) is None,
        },
{
    let u: u32 = c as u32;
    if 0x30 <= u && u <= 0x39 {
        Some((u - 0x30) as u8)
    } else if 0x61 <= u && u <= 0x66 {
        Some((u - 0x61 + 10) as u8)
    } else if 0x41 <= u && u <= 0x46 {
        Some((u - 0x41 + 10) as u8)
    } else {
        None
    }
}

proof fn lemma_digits_prefix(s: Seq<char>, i: int, b: nat)
    requires
        b >= 1,
        0 <= i <= s.len(),
    ensures
        digits_value(s, b) is Some ==> digits_value(s.take(i), b) is Some && digits_value(
            s.take(i),
            b,
        )->0 <= digits_value(s, b)->0,
    decreases s.len() - i,
{
    if i == s.len() {
        assert(s.take(i) =~= s);
    } else {
        lemma_digits_prefix(s, i + 1, b);
        assert(s.take(i + 1).drop_last() =~= s.take(i));
        if digits_value(s, b) is Some {
            let v = digits_value(s.take(i), b)->0;
            assert(v <= v * b) by (nonlinear_arith)
                requires
                    b >= 1,
                    v >= 0,
            ;
        }
    }
}

/// The value of `s` as digits to base `b`, if it does not exceed `max`.
pub(crate) fn digits_up_to(s: &[char], b: u64, max: u64) -> (r: Option<u64>)
    requires
        1 <= b <= 16,
    ensures
        match r {
            Some(v) => digits_value(s@, b as nat) == Some(v as nat) && v <= max,
            None => digits_value(s@, b as nat) is None || digits_value(s@, b as nat)->0 > max,
        },
{
    let mut v: u64 = 0;
    let mut i: usize = 0;
    while i < s.len()
        invariant
            1 <= b <= 16,
            i <= s.len(),
            digits_value(s@.take(i as int), b as nat) == Some(v as nat),
            v <= max,
        decreases s.len() - i,
    {
        proof {
            assert(s@.take(i + 1).drop_last() =~= s@.take(i as int));
            lemma_digits_prefix(s@, i + 1, b as nat);
        }
        match value_of(s[i]) {
            Some(d) if (d as u64) < b => {
                assert(0 <= v * b <= 0xFFFF_FFFF_FFFF_FFFF * 16) by (nonlinear_arith)
                    requires
                        0 <= v <= 0xFFFF_FFFF_FFFF_FFFF,
                        1 <= b <= 16,
                ;
                let next: u128 = v as u128 * b as u128 + d as u128;
                if next > max as u128 {
                    return None;
                }
                v = next as u64;
            },
            _ => {
                return None;
            },
        }
        i = i + 1;
    }
    assert(s@.take(i as int) =~= s@);
    Some(v)
}

/// The value of `s` as an unsigned number to base `b`, if it does not exceed
/// `max`.
pub(crate) fn unsigned_up_to(s: &[char], b: u64, max: u64) -> (r: Option<u64>)
    requires
        1 <= b <= 16,
    ensures
        match r {
            Some(v) => unsigned_value(s@, b as nat) == Some(v as nat) && v <= max,
            None => unsigned_value(s@, b as nat) is None || unsigned_value(s@, b as nat)->0 > max,
        },
{
    if s.len() > 0 && s[0] == '+' {
        let t: &[char] = slice_subrange(s, 1, s.len());
        assert(t@ =~= s@.drop_first());
        if t.len() == 0 {
            return None;
        }
        digits_up_to(t, b, max)
    } else if s.len() == 0 {
        None
    } else {
        digits_up_to(s, b, max)
    }
}

/// The value of `s` as a signed decimal number, if an `i32` holds it.
pub(crate) fn parse_i32(s: &[char]) -> (r: Option<i32>)
    ensures
        match r {
            Some(v) => signed_value(s@) == Some(v as int),
            None => signed_value(s@) is None || !(i32::MIN <= signed_value(s@)->0 <= i32::MAX),
        },
{
    if s.len() > 1 && s[0] == '-' {
        let t: &[char] = slice_subrange(s, 1, s.len());
        assert(t@ =~= s@.drop_first());
        match digits_up_to(t, 10, 0x8000_0000) {
            Some(v) => Some((-(v as i64)) as i32),
            None => None,
        }
    } else {
        match unsigned_up_to(s, 10, 0x7FFF_FFFF) {
            Some(v) => Some(v as i32),
            None => None,
        }
    }
}

fn digit_of(d: u64) -> (r: char)
    requires
        d < 16,
    ensures
        r == digit(d as nat),
{
    match d {
        0 => '0',
        1 => '1',
        2 => '2',
        3 => '3',
        4 => '4',
        5 => '5',
        6 => '6',
        7 => '7',
        8 => '8',
        9 => '9',
        10 => 'a',
        11 => 'b',
        12 => 'c',
        13 => 'd',
        14 => 'e',
        _ => 'f',
    }
}

/// Append `n` to `s`, written to base `b`.
fn push_numeral(s: &mut String, n: u64, b: u64)
    requires
        2 <= b <= 16,
    ensures
        final(s)@ == old(s)@ + numeral(n as nat, b as nat),
    decreases n,
{
    if n < b {
        push_char(s, digit_of(n));
        assert(s@ =~= old(s)@ + numeral(n as nat, b as nat));
    } else {
        proof {
            vstd::arithmetic::div_mod::lemma_div_decreases(n as int, b as int);
        }
        push_numeral(s, n / b, b);
        push_char(s, digit_of(n % b));
        assert(s@ =~= old(s)@ + numeral(n as nat, b as nat));
    }
}

/// Append `n` to `s` in decimal.
pub(crate) fn push_decimal(s: &mut String, n: i64)
    ensures
        final(s)@ == old(s)@ + decimal(n as int),
{
    if n < 0 {
        push_char(s, '-');
        push_numeral(s, (-(n + 1)) as u64 + 1, 10);
        assert(s@ =~= old(s)@ + decimal(n as int));
    } else {
        push_numeral(s, n as u64, 10);
    }
}

/// Append `n` to `s` in decimal.
pub(crate) fn push_count(s: &mut String, n: usize)
    ensures
        final(s)@ == old(s)@ + decimal(n as int),
{
    push_numeral(s, n as u64, 10);
}

/// Append `n` to `s` in hexadecimal, behind `0x`.
pub(crate) fn push_hexadecimal(s: &mut String, n: usize)
    ensures
        final(s)@ == old(s)@ + hexadecimal(n as nat),
{
    push_char(s, '0');
    push_char(s, 'x');
    push_numeral(s, n as u64, 16);
    assert(s@ =~= old(s)@ + hexadecimal(n as nat));
}

/// The order of a dictionary is a strict total order.
pub(crate) proof fn lemma_before(a: Seq<char>, b: Seq<char>, c: Seq<char>)
    ensures
        !before(a, a),
        before(a, b) && before(b, c) ==> before(a, c),
        a == b || before(a, b) || before(b, a),
    decreases a.len(),
{
    if a.len() > 0 {
        let (x, y, z) = (a.drop_first(), b.drop_first(), c.drop_first());
        lemma_before(x, y, z);
        if b.len() > 0 && a[0] == b[0] && x == y {
            assert(a =~= seq![a[0]] + x);
            assert(b =~= seq![b[0]] + y);
        }
    } else if b.len() == 0 {
        assert(a =~= b);
    }
}

/// The text that bytes decode to as UTF-8 when what is not UTF-8 is replaced.
pub uninterp spec fn utf8_lossy(b: Seq<u8>) -> Seq<char>;

/// `String::from_utf8_lossy`: the text of the bytes, with replacement
/// characters for whatever in them is not UTF-8. Bytes that are valid UTF-8
/// give the text that they encode.
#[verifier::external_body]
pub(crate) fn lossy_text(b: &[u8]) -> (r: String)
    ensures
        r@ == utf8_lossy(b@),
        vstd::utf8::valid_utf8(b@) ==> r@ == vstd::utf8::decode_utf8(b@),
{
    String::from_utf8_lossy(b).into_owned()
}

/// The hexadecimal digits in the order of their values.
pub open spec fn hex_digits() -> Seq<char> {
    seq!['0', '1', '2', '3', '4', '5', '6', '7', '8', '9', 'a', 'b', 'c', 'd', 'e', 'f']
}

/// `n` as it is printed in hexadecimal.
pub open spec fn in_hex(n: nat) -> Seq<char>
    decreases n,
{
    if n < 16 {
        seq![hex_digits()[n as int]]
    } else {
        in_hex(n / 16).push(hex_digits()[(n % 16) as int])
    }
}

/// `n` as it is printed in decimal.
pub open spec fn in_decimal(n: nat) -> Seq<char>
    decreases n,
{
    if n < 10 {
        seq![hex_digits()[n as int]]
    } else {
        in_decimal(n / 10).push(hex_digits()[(n % 10) as int])
    }
}

/// `k` zeros.
pub open spec fn zeros(k: nat) -> Seq<char> {
    Seq::new(k, |i: int| '0')
}

/// The digits stand for their places in the row, in upper case too, and no other
/// character is a digit.
pub proof fn law_digits(c: char, d: nat)
    ensures
        d < 16 ==> digit_value(hex_digits()[d as int]) == Some(d),
        digit_value('A') == Some(10nat),
        digit_value('B') == Some(11nat),
        digit_value('C') == Some(12nat),
        digit_value('D') == Some(13nat),
        digit_value('E') == Some(14nat),
        digit_value('F') == Some(15nat),
        digit_value(c) is Some ==> hex_digits().contains(c) || 'A' <= c <= 'F',
{
    let h = hex_digits();
    if let Some(v) = digit_value(c) {
        if !('A' <= c <= 'F') {
            assert(h[v as int] == c);
        }
    }
}

proof fn lemma_in_hex(n: nat)
    ensures
        in_hex(n).len() > 0,
        digits_value(in_hex(n), 16) == Some(n),
        forall|i: int| 0 <= i < in_hex(n).len() ==> hex_digits().contains(#[trigger] in_hex(n)[i]),
    decreases n,
{
    let s = in_hex(n);
    let h = hex_digits();
    let last = (n % 16) as int;
    law_digits('0', last as nat);
    assert(h.contains(h[last]));
    if n < 16 {
        assert(s.drop_last() =~= Seq::<char>::empty());
        assert(digits_value(s.drop_last(), 16) == Some(0nat));
    } else {
        lemma_in_hex(n / 16);
        assert(s.drop_last() =~= in_hex(n / 16));
    }
}

proof fn lemma_in_decimal(n: nat)
    ensures
        in_decimal(n).len() > 0,
        digits_value(in_decimal(n), 10) == Some(n),
        forall|i: int|
            0 <= i < in_decimal(n).len() ==> hex_digits().contains(#[trigger] in_decimal(n)[i]),
    decreases n,
{
    let s = in_decimal(n);
    let h = hex_digits();
    let last = (n % 10) as int;
    law_digits('0', last as nat);
    assert(h.contains(h[last]));
    if n < 10 {
        assert(s.drop_last() =~= Seq::<char>::empty());
        assert(digits_value(s.drop_last(), 10) == Some(0nat));
    } else {
        lemma_in_decimal(n / 10);
        assert(s.drop_last() =~= in_decimal(n / 10));
    }
}

proof fn lemma_leading_zeros(k: nat, s: Seq<char>, b: nat)
    requires
        b >= 1,
    ensures
        digits_value(zeros(k) + s, b) == digits_value(s, b),
    decreases k + s.len(),
{
    let t = zeros(k) + s;
    if s.len() > 0 {
        lemma_leading_zeros(k, s.drop_last(), b);
        assert(t.drop_last() =~= zeros(k) + s.drop_last());
        assert(t.last() == s.last());
    } else if k > 0 {
        lemma_leading_zeros((k - 1) as nat, s, b);
        assert(t.drop_last() =~= zeros((k - 1) as nat) + s);
        assert(t.last() == '0');
        assert(digit_value('0') == Some(0nat));
        assert(0 * b + 0 == 0) by (nonlinear_arith);
    } else {
        assert(t =~= s);
    }
}

/// A number is read back from its hexadecimal digits, with or without zeros before
/// them, and with or without a plus sign before those.
pub proof fn law_hex_reads_back(n: nat, k: nat)
    ensures
        unsigned_value(zeros(k) + in_hex(n), 16) == Some(n),
        unsigned_value(seq!['+'] + (zeros(k) + in_hex(n)), 16) == Some(n),
        unsigned_value(Seq::empty(), 16) is None,
        unsigned_value(seq!['+'], 16) is None,
{
    lemma_in_hex(n);
    lemma_leading_zeros(k, in_hex(n), 16);
    let s = zeros(k) + in_hex(n);
    assert(s[0] != '+') by {
        if k == 0 {
            assert(s[0] == in_hex(n)[0]);
        }
    }
    assert((seq!['+'] + s).drop_first() =~= s);
    assert(seq!['+'].drop_first().len() == 0);
}

/// A signed number is read back from its decimal digits, with or without zeros
/// before them, and with or without a sign before those.
pub proof fn law_decimal_reads_back(n: nat, k: nat)
    ensures
        signed_value(in_decimal(n)) == Some(n as int),
        signed_value(zeros(k) + in_decimal(n)) == Some(n as int),
        signed_value(seq!['+'] + (zeros(k) + in_decimal(n))) == Some(n as int),
        signed_value(seq!['-'] + (zeros(k) + in_decimal(n))) == Some(-(n as int)),
        unsigned_value(in_decimal(n), 10) == Some(n),
        signed_value(Seq::empty()) is None,
        signed_value(seq!['-']) is None,
        signed_value(seq!['+']) is None,
{
    lemma_in_decimal(n);
    lemma_leading_zeros(k, in_decimal(n), 10);
    assert(in_decimal(n)[0] != '+' && in_decimal(n)[0] != '-') by {
        assert(hex_digits().contains(in_decimal(n)[0]));
    }
    let s = zeros(k) + in_decimal(n);
    assert(s[0] != '+' && s[0] != '-') by {
        if k == 0 {
            assert(s[0] == in_decimal(n)[0]);
        }
    }
    assert((seq!['-'] + s).drop_first() =~= s);
    assert((seq!['+'] + s).drop_first() =~= s);
    assert(seq!['+'].drop_first().len() == 0);
    assert(digits_value(seq!['-'], 10) is None) by {
        assert(seq!['-'].last() == '-');
    }
}

/// Numbers are written with just those digits.
pub proof fn law_numbers_are_written_in_digits(n: nat)
    ensures
        numeral(n, 16) == in_hex(n),
        numeral(n, 10) == in_decimal(n),
        decimal(n as int) == in_decimal(n),
        n > 0 ==> decimal(-(n as int)) == seq!['-'] + in_decimal(n),
        hexadecimal(n) == seq!['0', 'x'] + in_hex(n),
    decreases n,
{
    let h = hex_digits();
    assert forall|d: nat| d < 16 implies #[trigger] digit(d) == h[d as int] by {}
    if n >= 10 {
        law_numbers_are_written_in_digits(n / 10);
        assert(digit(n % 10) == h[(n % 10) as int]);
    }
    if n >= 16 {
        law_numbers_are_written_in_digits(n / 16);
        assert(digit(n % 16) == h[(n % 16) as int]);
    }
    if n < 16 {
        assert(digit(n) == h[n as int]);
    }
}

/// Whether every character of `s` is white space.
pub open spec fn blank(s: Seq<char>) -> bool {
    forall|i: int| 0 <= i < s.len() ==> is_space(#[trigger] s[i])
}

/// Whether `s` is a word: one character or more, none of them white space.
pub open spec fn word(s: Seq<char>) -> bool {
    &&& s.len() > 0
    &&& forall|i: int| 0 <= i < s.len() ==> !is_space(#[trigger] s[i])
}

proof fn lemma_word_len(w: Seq<char>, rest: Seq<char>)
    requires
        forall|i: int| 0 <= i < w.len() ==> !is_space(#[trigger] w[i]),
        rest.len() > 0 ==> is_space(rest[0]),
    ensures
        word_len(w + rest) == w.len(),
    decreases w.len(),
{
    let s = w + rest;
    if w.len() > 0 {
        assert(!is_space(w[0]));
        let t = w.drop_first();
        assert forall|i: int| 0 <= i < t.len() implies !is_space(#[trigger] t[i]) by {
            assert(!is_space(w[i + 1]));
        }
        lemma_word_len(t, rest);
        assert(s.drop_first() =~= t + rest);
    } else {
        assert(s =~= rest);
    }
}

proof fn lemma_gap_len(g: Seq<char>, rest: Seq<char>)
    requires
        blank(g),
        rest.len() > 0 ==> !is_space(rest[0]),
    ensures
        gap_len(g + rest) == g.len(),
    decreases g.len(),
{
    let s = g + rest;
    if g.len() > 0 {
        assert(is_space(g[0]));
        let t = g.drop_first();
        assert forall|i: int| 0 <= i < t.len() implies is_space(#[trigger] t[i]) by {
            assert(t[i] == g[i + 1]);
        }
        lemma_gap_len(t, rest);
        assert(s.drop_first() =~= t + rest);
    } else {
        assert(s =~= rest);
    }
}

proof fn lemma_trim_end(s: Seq<char>, g: Seq<char>)
    requires
        blank(g),
        s.len() > 0 ==> !is_space(s.last()),
    ensures
        trim_end(s + g) == s,
    decreases g.len(),
{
    let t = s + g;
    if g.len() > 0 {
        assert(is_space(g[g.len() - 1]));
        let h = g.drop_last();
        assert forall|i: int| 0 <= i < h.len() implies is_space(#[trigger] h[i]) by {
            assert(h[i] == g[i]);
        }
        lemma_trim_end(s, h);
        assert(t.drop_last() =~= s + h);
    } else {
        assert(t =~= s);
    }
}

/// Trimming takes the blanks off both ends, and nothing else.
pub proof fn law_trimming(a: Seq<char>, s: Seq<char>, b: Seq<char>)
    requires
        blank(a),
        blank(b),
        s.len() > 0 ==> !is_space(s[0]) && !is_space(s.last()),
    ensures
        trim(a + s + b) == s,
{
    let t = a + s + b;
    if s.len() > 0 {
        lemma_gap_len(a, s + b);
        assert(t =~= a + (s + b));
        assert(t.skip(a.len() as int) =~= s + b);
        lemma_trim_end(s, b);
    } else {
        let g = a + b;
        assert(blank(g));
        assert(t =~= g);
        lemma_gap_len(g, Seq::empty());
        assert(g + Seq::<char>::empty() =~= g);
        assert(t.skip(g.len() as int) =~= Seq::<char>::empty());
        assert(trim(t) =~= s);
    }
}

/// The words of a text are what its white space sets apart: the first word, then
/// the words of what follows it. White space alone has none.
pub proof fn law_words(g: Seq<char>, w: Seq<char>, rest: Seq<char>)
    requires
        blank(g),
        word(w),
        rest.len() > 0 ==> is_space(rest[0]),
    ensures
        words(g).len() == 0,
        words(g + w + rest) == seq![w] + words(rest),
{
    assert(!is_space(w[0]));
    lemma_gap_len(g, Seq::empty());
    assert(g + Seq::<char>::empty() =~= g);
    let s = g + w + rest;
    assert(s =~= g + (w + rest));
    lemma_gap_len(g, w + rest);
    lemma_word_len(w, rest);
    assert(s.skip(g.len() as int) =~= w + rest);
    assert((w + rest).take(w.len() as int) =~= w);
    assert((w + rest).skip(w.len() as int) =~= rest);
}

/// A piece of a text is a word that a blank follows, and the rest is cut further;
/// the last piece is all that is left.
pub proof fn law_pieces(w: Seq<char>, rest: Seq<char>, n: nat)
    requires
        word(w),
    ensures
        n >= 2 ==> pieces(w + seq![' '] + rest, n) == seq![w] + pieces(rest, (n - 1) as nat),
        pieces(rest, 1) == seq![rest],
{
    let r = seq![' '] + rest;
    let s = w + seq![' '] + rest;
    assert(s =~= w + r);
    lemma_word_len(w, r);
    assert(s.take(w.len() as int) =~= w);
    assert(s.skip(w.len() as int + 1) =~= rest);
}

proof fn lemma_len_before(a: Seq<char>, c: char, rest: Seq<char>)
    requires
        forall|i: int| 0 <= i < a.len() ==> #[trigger] a[i] != c,
        rest.len() > 0 ==> rest[0] == c,
    ensures
        len_before(a + rest, c) == a.len(),
    decreases a.len(),
{
    let s = a + rest;
    if a.len() > 0 {
        let t = a.drop_first();
        assert forall|i: int| 0 <= i < t.len() implies #[trigger] t[i] != c by {
            assert(a[i + 1] != c);
        }
        assert(a[0] != c);
        lemma_len_before(t, c, rest);
        assert(s.drop_first() =~= t + rest);
    } else {
        assert(s =~= rest);
    }
}

/// What comes before the first `c` is measured up to it, or to the end.
pub proof fn law_len_before(a: Seq<char>, c: char, rest: Seq<char>)
    requires
        forall|i: int| 0 <= i < a.len() ==> #[trigger] a[i] != c,
    ensures
        len_before(a + seq![c] + rest, c) == a.len(),
        len_before(a, c) == a.len(),
{
    lemma_len_before(a, c, seq![c] + rest);
    assert(a + (seq![c] + rest) =~= a + seq![c] + rest);
    lemma_len_before(a, c, Seq::empty());
    assert(a + Seq::<char>::empty() =~= a);
}

/// A text is cut into lines at its line feeds, and a carriage return before a line
/// feed belongs to neither line. What follows the last line feed is a line unless
/// it is empty.
pub proof fn law_lines(l: Seq<char>, rest: Seq<char>)
    requires
        forall|i: int| 0 <= i < l.len() ==> #[trigger] l[i] != '\n',
        l.len() > 0 ==> l.last() != '\r',
    ensures
        lines(l + seq!['\n'] + rest) == seq![l] + lines(rest),
        lines(l + seq!['\r', '\n'] + rest) == seq![l] + lines(rest),
        l.len() > 0 ==> lines(l) == seq![l],
        lines(Seq::empty()).len() == 0,
{
    let s = l + seq!['\n'] + rest;
    law_len_before(l, '\n', rest);
    assert(s.take(l.len() as int) =~= l);
    assert(s.skip(l.len() as int + 1) =~= rest);
    let m = l.push('\r');
    let t = m + seq!['\n'] + rest;
    law_len_before(m, '\n', rest);
    assert(t.take(m.len() as int) =~= m);
    assert(m.drop_last() =~= l);
    assert(t.skip(m.len() as int + 1) =~= rest);
    assert(t =~= l + seq!['\r', '\n'] + rest);
}

/// The last part of a path is what follows its last slash, or all of it.
pub proof fn law_basename(dir: Seq<char>, name: Seq<char>)
    requires
        forall|i: int| 0 <= i < name.len() ==> #[trigger] name[i] != '/',
    ensures
        basename(name) == name,
        basename(dir + seq!['/'] + name) == name,
    decreases dir.len(),
{
    law_len_before(name, '/', Seq::empty());
    assert(basename(name) == name);
    let s = dir + seq!['/'] + name;
    if exists|i: int| 0 <= i < dir.len() && #[trigger] dir[i] == '/' {
        let k = lemma_first_slash(dir);
        let (a, b) = (dir.take(k), dir.skip(k + 1));
        law_basename(b, name);
        assert(s =~= a + seq!['/'] + (b + seq!['/'] + name));
        law_len_before(a, '/', b + seq!['/'] + name);
        assert(s.skip(k + 1) =~= b + seq!['/'] + name);
        assert(basename(s) == basename(s.skip(k + 1)));
    } else {
        law_len_before(dir, '/', name);
        assert(s.skip(dir.len() as int + 1) =~= name);
        assert(len_before(s, '/') == dir.len()) by {
            assert forall|i: int| 0 <= i < dir.len() implies #[trigger] dir[i] != '/' by {}
        }
        assert(basename(s) == basename(s.skip(dir.len() as int + 1)));
    }
}

proof fn lemma_first_slash(dir: Seq<char>) -> (k: int)
    requires
        exists|i: int| 0 <= i < dir.len() && #[trigger] dir[i] == '/',
    ensures
        0 <= k < dir.len(),
        dir[k] == '/',
        forall|i: int| 0 <= i < dir.take(k).len() ==> #[trigger] dir.take(k)[i] != '/',
    decreases dir.len(),
{
    if dir[0] == '/' {
        0
    } else {
        let t = dir.drop_first();
        let i = choose|i: int| 0 <= i < dir.len() && #[trigger] dir[i] == '/';
        assert(t[i - 1] == '/');
        let k = lemma_first_slash(t);
        assert forall|j: int| 0 <= j < dir.take(k + 1).len() implies #[trigger] dir.take(k + 1)[j]
            != '/' by {
            if j > 0 {
                assert(t.take(k)[j - 1] == dir.take(k + 1)[j]);
            }
        }
        k + 1
    }
}

/// Of two texts the one comes first whose character is the lesser where they first
/// differ, and a text comes before any longer one that it begins.
pub proof fn law_dictionary_order(p: Seq<char>, x: char, y: char, s: Seq<char>, t: Seq<char>)
    requires
        x < y,
    ensures
        before(p.push(x) + s, p.push(y) + t),
        !before(p.push(y) + t, p.push(x) + s),
        before(p, p.push(y) + t),
        !before(p.push(y) + t, p),
    decreases p.len(),
{
    let (a, b) = (p.push(x) + s, p.push(y) + t);
    if p.len() > 0 {
        let q = p.drop_first();
        law_dictionary_order(q, x, y, s, t);
        assert(a.drop_first() =~= q.push(x) + s);
        assert(b.drop_first() =~= q.push(y) + t);
        assert(a[0] == p[0] && b[0] == p[0]);
    } else {
        assert(a[0] == x && b[0] == y);
    }
}

/// Hexadecimal digits are a word without a dash.
pub(crate) proof fn lemma_hex_is_a_word(n: nat, k: nat)
    ensures
        word(zeros(k) + in_hex(n)),
        forall|i: int|
            0 <= i < (zeros(k) + in_hex(n)).len() ==> #[trigger] (zeros(k) + in_hex(n))[i] != '-',
{
    lemma_in_hex(n);
    let s = zeros(k) + in_hex(n);
    assert forall|i: int| 0 <= i < s.len() implies !is_space(#[trigger] s[i]) && s[i] != '-' by {
        if i >= k {
            assert(s[i] == in_hex(n)[i - k]);
        }
    }
}

/// Whether `name` is the last part of a path.
pub open spec fn names(path: Seq<char>, name: Seq<char>) -> bool {
    &&& forall|i: int| 0 <= i < name.len() ==> #[trigger] name[i] != '/'
    &&& path == name || exists|dir: Seq<char>| path == #[trigger] (dir + seq!['/']) + name
}

/// The last part of a path is what names it, and nothing else does.
pub proof fn law_basename_names(path: Seq<char>, name: Seq<char>)
    ensures
        basename(path) == name <==> names(path, name),
{
    lemma_basename_names(path);
    if names(path, name) {
        if path == name {
            law_basename(Seq::empty(), name);
        } else {
            let dir = choose|dir: Seq<char>| path == #[trigger] (dir + seq!['/']) + name;
            law_basename(dir, name);
        }
    }
}

proof fn lemma_basename_names(path: Seq<char>)
    ensures
        names(path, basename(path)),
    decreases path.len(),
{
    let b = basename(path);
    if exists|i: int| 0 <= i < path.len() && #[trigger] path[i] == '/' {
        let k = lemma_first_slash(path);
        let (a, t) = (path.take(k), path.skip(k + 1));
        law_len_before(a, '/', t);
        assert(path =~= a + seq!['/'] + t);
        lemma_basename_names(t);
        assert(b == basename(t));
        if t == b {
            assert(path == (a + seq!['/']) + b);
        } else {
            let dir = choose|dir: Seq<char>| t == #[trigger] (dir + seq!['/']) + b;
            let all = a + seq!['/'] + dir;
            assert(path =~= (all + seq!['/']) + b);
        }
    } else {
        law_len_before(path, '/', Seq::empty());
        assert(b == path);
    }
}

} // verus!
