//! The text form of a round duration: whole milliseconds are written, and
//! milliseconds, seconds or a bare number of seconds are read.

use vstd::arithmetic::power::pow;
use vstd::prelude::*;
use vstd::string::StrSliceExecFns;

use crate::sums::{lemma_sum_same, sum};

use super::config::RoundDuration;

verus! {

/// The text is not a duration.
#[derive(Clone, Copy, Debug, PartialEq, Eq, Structural)]
pub struct DurationError;

// ---------------------------------------------------------------------------
// Model
// ---------------------------------------------------------------------------

/// A decimal digit.
pub open spec fn is_digit(c: char) -> bool {
    '0' <= c && c <= '9'
}

/// The value of a decimal digit.
pub open spec fn digit_value(c: char) -> nat {
    (c as nat - '0' as nat) as nat
}

/// Decimal digits and nothing else.
pub open spec fn all_digits(s: Seq<char>) -> bool {
    forall|i: int| 0 <= i < s.len() ==> is_digit(#[trigger] s[i])
}

/// The number that decimal digits stand for.
pub open spec fn digits_value(s: Seq<char>) -> nat
    decreases s.len(),
{
    if s.len() == 0 {
        0
    } else {
        10 * digits_value(s.drop_last()) + digit_value(s.last())
    }
}

/// The decimal digits of a number.
pub open spec fn digits_of(n: nat) -> Seq<char>
    decreases n,
{
    let last = (('0' as nat + n % 10) as u8) as char;
    if n < 10 {
        seq![last]
    } else {
        digits_of(n / 10).push(last)
    }
}

/// White space in the sense of Unicode.
pub open spec fn is_space(c: char) -> bool {
    ||| '\u{9}' <= c && c <= '\u{d}'
    ||| c == '\u{20}'
    ||| c == '\u{85}'
    ||| c == '\u{a0}'
    ||| c == '\u{1680}'
    ||| '\u{2000}' <= c && c <= '\u{200a}'
    ||| c == '\u{2028}'
    ||| c == '\u{2029}'
    ||| c == '\u{202f}'
    ||| c == '\u{205f}'
    ||| c == '\u{3000}'
}

/// `s` without the white space in front of it.
pub open spec fn without_front(s: Seq<char>) -> Seq<char>
    decreases s.len(),
{
    if s.len() > 0 && is_space(s[0]) {
        without_front(s.drop_first())
    } else {
        s
    }
}

/// `s` without the white space behind it.
pub open spec fn without_back(s: Seq<char>) -> Seq<char>
    decreases s.len(),
{
    if s.len() > 0 && is_space(s.last()) {
        without_back(s.drop_last())
    } else {
        s
    }
}

/// `s` without the white space around it.
pub open spec fn trimmed(s: Seq<char>) -> Seq<char> {
    without_back(without_front(s))
}

/// The number of at most 64 bits that `s` is the decimal form of, a plus sign
/// in front allowed.
pub open spec fn number(s: Seq<char>) -> Option<nat> {
    let t = if s.len() > 0 && s[0] == '+' {
        s.drop_first()
    } else {
        s
    };
    if t.len() > 0 && all_digits(t) && digits_value(t) <= u64::MAX {
        Some(digits_value(t))
    } else {
        None
    }
}

/// The milliseconds that a text stands for: `500ms`, `10s`, or a bare number of
/// seconds.
pub open spec fn millis_of(s: Seq<char>) -> Option<nat> {
    let n = s.len() as int;
    if n >= 2 && s[n - 2] == 'm' && s[n - 1] == 's' {
        number(trimmed(s.take(n - 2)))
    } else {
        let seconds = if n >= 1 && s[n - 1] == 's' {
            number(trimmed(s.take(n - 1)))
        } else {
            number(trimmed(s))
        };
        match seconds {
            Some(v) => Some(1000 * v),
            None => None,
        }
    }
}

/// The text of a number of milliseconds.
pub open spec fn text_of(millis: nat) -> Seq<char> {
    digits_of(millis) + seq!['m', 's']
}

// ---------------------------------------------------------------------------
// Writing
// ---------------------------------------------------------------------------

fn push_digits(out: &mut Vec<char>, n: u128)
    ensures
        final(out)@ == old(out)@ + digits_of(n as nat),
    decreases n,
{
    if n >= 10 {
        push_digits(out, n / 10);
    }
    let d: u8 = (n % 10) as u8;
    out.push((48u8 + d) as char);
    proof {
        assert(out@ =~= old(out)@ + digits_of(n as nat));
    }
}

/// The text of a duration.
pub fn format_duration(d: &RoundDuration) -> (out: Vec<char>)
    ensures
        out@ == text_of(d.millis as nat),
{
    let mut out: Vec<char> = Vec::new();
    push_digits(&mut out, d.millis);
    out.push('m');
    out.push('s');
    proof {
        assert(out@ =~= text_of(d.millis as nat));
    }
    out
}

// ---------------------------------------------------------------------------
// Reading
// ---------------------------------------------------------------------------

fn chars_of(s: &str) -> (out: Vec<char>)
    ensures
        out@ == s@,
{
    let n = s.unicode_len();
    let mut out: Vec<char> = Vec::new();
    let mut i: usize = 0;
    while i < n
        invariant
            i <= n,
            n == s@.len(),
            out@ == s@.take(i as int),
        decreases n - i,
    {
        out.push(s.get_char(i));
        i = i + 1;
        proof {
            assert(out@ =~= s@.take(i as int));
        }
    }
    proof {
        assert(s@.take(n as int) =~= s@);
    }
    out
}

fn space(c: char) -> (r: bool)
    ensures
        r == is_space(c),
{
    ('\u{9}' <= c && c <= '\u{d}') || c == '\u{20}' || c == '\u{85}' || c == '\u{a0}' || c
        == '\u{1680}' || ('\u{2000}' <= c && c <= '\u{200a}') || c == '\u{2028}' || c == '\u{2029}'
        || c == '\u{202f}' || c == '\u{205f}' || c == '\u{3000}'
}

/// The number that the trimmed text stands for.
fn read_number(s: &[char]) -> (r: Option<u64>)
    ensures
        match r {
            Some(v) => number(trimmed(s@)) == Some(v as nat),
            None => number(trimmed(s@)) is None,
        },
{
    let mut lo: usize = 0;
    let mut hi: usize = s.len();
    proof {
        assert(s@.subrange(0, hi as int) =~= s@);
    }
    while lo < hi && space(s[lo])
        invariant
            lo <= hi,
            hi == s@.len(),
            without_front(s@) == without_front(s@.subrange(lo as int, hi as int)),
        decreases hi - lo,
    {
        proof {
            let t = s@.subrange(lo as int, hi as int);
            assert(t.drop_first() =~= s@.subrange(lo + 1, hi as int));
        }
        lo = lo + 1;
    }
    let ghost front = without_front(s@);
    proof {
        assert(front == s@.subrange(lo as int, hi as int));
    }
    while lo < hi && space(s[hi - 1])
        invariant
            lo <= hi <= s@.len(),
            without_back(front) == without_back(s@.subrange(lo as int, hi as int)),
        decreases hi - lo,
    {
        proof {
            let t = s@.subrange(lo as int, hi as int);
            assert(t.drop_last() =~= s@.subrange(lo as int, hi - 1));
        }
        hi = hi - 1;
    }
    let ghost body = s@.subrange(lo as int, hi as int);
    proof {
        assert(trimmed(s@) == body);
    }
    if lo < hi && s[lo] == '+' {
        lo = lo + 1;
        proof {
            assert(body.drop_first() =~= s@.subrange(lo as int, hi as int));
        }
    }
    let ghost t = s@.subrange(lo as int, hi as int);
    if lo == hi {
        return None;
    }
    let mut acc: u128 = 0;
    let mut i: usize = lo;
    proof {
        assert(t.take(0) =~= Seq::empty());
    }
    while i < hi
        invariant
            lo <= i <= hi <= s@.len(),
            lo < hi,
            t == s@.subrange(lo as int, hi as int),
            number(trimmed(s@)) == if all_digits(t) && digits_value(t) <= u64::MAX {
                Some(digits_value(t))
            } else {
                None
            },
            all_digits(t.take(i - lo)),
            acc == digits_value(t.take(i - lo)),
            acc <= u64::MAX,
        decreases hi - i,
    {
        let c = s[i];
        let ghost k = i - lo;
        proof {
            assert(t[k] == c);
            assert(t.take(k + 1).drop_last() =~= t.take(k));
            assert(t.take(k + 1).last() == c);
        }
        if c < '0' || c > '9' {
            proof {
                assert(!is_digit(t[k]));
            }
            return None;
        }
        acc = 10 * acc + (c as u128 - 48);
        i = i + 1;
        if acc > u64::MAX as u128 {
            proof {
                lemma_digits_grow(t, k + 1);
            }
            return None;
        }
    }
    proof {
        assert(t.take(i - lo) =~= t);
    }
    Some(acc as u64)
}

/// More digits make no smaller number.
proof fn lemma_digits_grow(t: Seq<char>, n: int)
    requires
        0 <= n <= t.len(),
    ensures
        digits_value(t.take(n)) <= digits_value(t),
    decreases t.len() - n,
{
    if n < t.len() {
        lemma_digits_grow(t, n + 1);
        assert(t.take(n + 1).drop_last() =~= t.take(n));
    } else {
        assert(t.take(n) =~= t);
    }
}

/// The duration that a text stands for.
pub fn parse_duration(s: &str) -> (r: Result<RoundDuration, DurationError>)
    ensures
        match r {
            Ok(d) => millis_of(s@) == Some(d.millis as nat),
            Err(_) => millis_of(s@) is None,
        },
{
    let cs = chars_of(s);
    let n = cs.len();
    if n >= 2 && cs[n - 2] == 'm' && cs[n - 1] == 's' {
        proof {
            assert(cs@.subrange(0, n - 2) =~= s@.take(n - 2));
        }
        return match read_number(&cs[0..n - 2]) {
            Some(v) => Ok(RoundDuration { millis: v as u128 }),
            None => Err(DurationError),
        };
    }
    let seconds = if n >= 1 && cs[n - 1] == 's' {
        proof {
            assert(cs@.subrange(0, n - 1) =~= s@.take(n - 1));
        }
        read_number(&cs[0..n - 1])
    } else {
        read_number(&cs)
    };
    match seconds {
        Some(v) => Ok(RoundDuration { millis: 1000 * (v as u128) }),
        None => Err(DurationError),
    }
}

// ---------------------------------------------------------------------------
// Laws
// ---------------------------------------------------------------------------

proof fn lemma_digits_round_trip(n: nat)
    ensures
        digits_of(n).len() > 0,
        all_digits(digits_of(n)),
        digits_value(digits_of(n)) == n,
    decreases n,
{
    let d = digits_of(n);
    let last = (('0' as nat + n % 10) as u8) as char;
    assert(is_digit(last) && digit_value(last) == n % 10);
    if n < 10 {
        assert(d.drop_last() =~= Seq::empty());
        assert(digits_value(d.drop_last()) == 0);
        assert(d.last() == last);
    } else {
        lemma_digits_round_trip(n / 10);
        assert(d.drop_last() =~= digits_of(n / 10));
    }
}

/// A duration reads back as it was written, up to the 64-bit milliseconds that
/// can be read.
pub proof fn law_duration_round_trip(millis: nat)
    ensures
        millis_of(text_of(millis)) == if millis <= u64::MAX {
            Some(millis)
        } else {
            None
        },
{
    let d = digits_of(millis);
    let s = text_of(millis);
    lemma_digits_round_trip(millis);
    assert(s.take(s.len() - 2) =~= d);
    assert(is_digit(d[0]) && is_digit(d[d.len() - 1]));
    assert(!is_space(d[0]) && !is_space(d.last()));
    assert(trimmed(d) == d);
}

/// White space and nothing else.
pub open spec fn all_spaces(s: Seq<char>) -> bool {
    forall|i: int| 0 <= i < s.len() ==> is_space(#[trigger] s[i])
}

proof fn lemma_trimmed(front: Seq<char>, body: Seq<char>, back: Seq<char>)
    requires
        all_spaces(front),
        all_spaces(back),
        body.len() > 0,
        !is_space(body[0]),
        !is_space(body.last()),
    ensures
        trimmed(front + body + back) == body,
{
    lemma_front_goes(front, body + back);
    assert(front + body + back =~= front + (body + back));
    lemma_back_goes(body, back);
}

proof fn lemma_front_goes(front: Seq<char>, rest: Seq<char>)
    requires
        all_spaces(front),
        rest.len() > 0,
        !is_space(rest[0]),
    ensures
        without_front(front + rest) == rest,
    decreases front.len(),
{
    let s = front + rest;
    if front.len() == 0 {
        assert(s =~= rest);
    } else {
        let less = front.drop_first();
        assert(is_space(front[0]) && s[0] == front[0]);
        assert forall|i: int| 0 <= i < less.len() implies is_space(#[trigger] less[i]) by {
            assert(less[i] == front[i + 1]);
        }
        assert(s.drop_first() =~= less + rest);
        lemma_front_goes(less, rest);
    }
}

proof fn lemma_back_goes(body: Seq<char>, back: Seq<char>)
    requires
        all_spaces(back),
        body.len() > 0,
        !is_space(body.last()),
    ensures
        without_back(body + back) == body,
    decreases back.len(),
{
    let s = body + back;
    if back.len() == 0 {
        assert(s =~= body);
    } else {
        let less = back.drop_last();
        assert(is_space(back[back.len() - 1]) && s.last() == back.last());
        assert forall|i: int| 0 <= i < less.len() implies is_space(#[trigger] less[i]) by {
            assert(less[i] == back[i]);
        }
        assert(s.drop_last() =~= body + less);
        lemma_back_goes(body, less);
    }
}

/// Decimal digits stand for the sum of their values, the digit before `k` others
/// times ten to the `k`.
pub proof fn law_digits_have_weights(s: Seq<char>)
    requires
        all_digits(s),
    ensures
        digits_value(s) == sum(
            |k: int| (s[s.len() - 1 - k] as int - 48) * pow(10, k as nat),
            s.len() as int,
        ),
    decreases s.len(),
{
    if s.len() > 0 {
        let init = s.drop_last();
        let n = s.len() as int;
        assert forall|i: int| 0 <= i < init.len() implies is_digit(#[trigger] init[i]) by {
            assert(init[i] == s[i]);
        }
        law_digits_have_weights(init);
        let f = |k: int| (s[n - 1 - k] as int - 48) * pow(10, k as nat);
        let g = |k: int| (init[n - 2 - k] as int - 48) * pow(10, k as nat);
        assert(is_digit(s[n - 1]));
        lemma_sum_same(
            |k: int| (init[init.len() - 1 - k] as int - 48) * pow(10, k as nat),
            g,
            n - 1,
        );
        assert forall|k: int| 0 <= k < n - 1 implies 10 * #[trigger] g(k) == f(k + 1) by {
            let d = s[n - 2 - k] as int - 48;
            let t = pow(10, k as nat);
            vstd::arithmetic::power::lemma_pow1(10);
            vstd::arithmetic::power::lemma_pow_adds(10, 1, k as nat);
            assert(d * (10 * t) == 10 * (d * t)) by (nonlinear_arith);
        }
        lemma_sum_tens(f, g, n - 1);
        vstd::arithmetic::power::lemma_pow0(10);
        let d = s.last() as int - 48;
        assert(d * 1 == d);
    }
}

proof fn lemma_sum_tens(f: spec_fn(int) -> int, g: spec_fn(int) -> int, n: int)
    requires
        0 <= n,
        forall|k: int| 0 <= k < n ==> 10 * #[trigger] g(k) == f(k + 1),
    ensures
        sum(f, n + 1) == 10 * sum(g, n) + f(0),
    decreases n,
{
    if n > 0 {
        lemma_sum_tens(f, g, n - 1);
        assert(10 * g(n - 1) == f(n));
    } else {
        assert(sum(f, 0) == 0);
        assert(sum(g, 0) == 0);
    }
}

/// A number of at most 64 bits, a plus sign in front allowed and white space
/// around it, is read as milliseconds before `ms` and as seconds before `s` and
/// by itself. A larger number is refused.
pub proof fn law_durations_are_read(
    front: Seq<char>,
    plus: bool,
    digits: Seq<char>,
    back: Seq<char>,
)
    requires
        all_spaces(front),
        all_spaces(back),
        digits.len() > 0,
        all_digits(digits),
    ensures
        ({
            let body = if plus {
                seq!['+'] + digits
            } else {
                digits
            };
            let s = front + body + back;
            let v = digits_value(digits);
            let millis = if v <= u64::MAX {
                Some(v)
            } else {
                None
            };
            let seconds = if v <= u64::MAX {
                Some(1000 * v)
            } else {
                None
            };
            &&& millis_of(s + seq!['m', 's']) == millis
            &&& millis_of(s + seq!['s']) == seconds
            &&& millis_of(s) == seconds
        }),
{
    let body = if plus {
        seq!['+'] + digits
    } else {
        digits
    };
    let s = front + body + back;
    let n = s.len() as int;
    assert(is_digit(digits[0]) && is_digit(digits[digits.len() - 1]));
    lemma_trimmed(front, body, back);
    if plus {
        assert(body.drop_first() =~= digits);
    }
    assert(body.last() == digits.last());
    let a = s + seq!['m', 's'];
    let b = s + seq!['s'];
    assert(a.take(a.len() - 2) =~= s);
    assert(b.take(b.len() - 1) =~= s);
    let last = s[n - 1];
    assert(last != 's' && last != 'm') by {
        if back.len() > 0 {
            assert(last == back[back.len() - 1]);
            assert(is_space(back[back.len() - 1]));
        } else {
            assert(last == body.last());
        }
    }
    assert(b[b.len() - 2] == last);
}

/// Only such texts are read.
pub proof fn law_only_durations_are_read(s: Seq<char>)
    requires
        millis_of(s) is Some,
    ensures
        exists|front: Seq<char>, body: Seq<char>, back: Seq<char>, unit: Seq<char>| #[trigger]
            reads_as(s, front, body, back, unit),
{
    let n = s.len() as int;
    let unit = if n >= 2 && s[n - 2] == 'm' && s[n - 1] == 's' {
        seq!['m', 's']
    } else if n >= 1 && s[n - 1] == 's' {
        seq!['s']
    } else {
        Seq::empty()
    };
    let t = s.take(n - unit.len());
    assert(s =~= t + unit);
    if unit.len() == 0 {
        assert(t =~= s);
    }
    let body = trimmed(t);
    let (front, back) = lemma_around(t);
    assert(s =~= front + body + back + unit);
    assert(reads_as(s, front, body, back, unit));
}

/// `s` is a number with white space around it and a unit behind it.
pub open spec fn reads_as(
    s: Seq<char>,
    front: Seq<char>,
    body: Seq<char>,
    back: Seq<char>,
    unit: Seq<char>,
) -> bool {
    let digits = if body.len() > 0 && body[0] == '+' {
        body.drop_first()
    } else {
        body
    };
    &&& s == front + body + back + unit
    &&& all_spaces(front)
    &&& all_spaces(back)
    &&& digits.len() > 0
    &&& all_digits(digits)
    &&& digits_value(digits) <= u64::MAX
    &&& unit == seq!['m', 's'] || unit == seq!['s'] || unit == Seq::<char>::empty()
    &&& millis_of(s) == Some(
        if unit == seq!['m', 's'] {
            digits_value(digits)
        } else {
            1000 * digits_value(digits)
        },
    )
}

/// What trimming takes away is white space in front and behind.
proof fn lemma_around(t: Seq<char>) -> (r: (Seq<char>, Seq<char>))
    ensures
        all_spaces(r.0),
        all_spaces(r.1),
        t == r.0 + trimmed(t) + r.1,
{
    let front = lemma_in_front(t);
    let rest = without_front(t);
    let back = lemma_behind(rest);
    assert(t =~= front + trimmed(t) + back);
    (front, back)
}

proof fn lemma_in_front(t: Seq<char>) -> (front: Seq<char>)
    ensures
        all_spaces(front),
        t == front + without_front(t),
    decreases t.len(),
{
    if t.len() > 0 && is_space(t[0]) {
        let less = lemma_in_front(t.drop_first());
        let front = seq![t[0]] + less;
        assert forall|i: int| 0 <= i < front.len() implies is_space(#[trigger] front[i]) by {
            if i > 0 {
                assert(front[i] == less[i - 1]);
            }
        }
        let rest = without_front(t.drop_first());
        assert(t =~= seq![t[0]] + t.drop_first());
        assert(t.drop_first() == less + rest);
        assert(seq![t[0]] + (less + rest) =~= front + rest);
        front
    } else {
        assert(t =~= Seq::<char>::empty() + t);
        Seq::empty()
    }
}

proof fn lemma_behind(t: Seq<char>) -> (back: Seq<char>)
    ensures
        all_spaces(back),
        t == without_back(t) + back,
    decreases t.len(),
{
    if t.len() > 0 && is_space(t.last()) {
        let less = lemma_behind(t.drop_last());
        let back = less.push(t.last());
        let rest = without_back(t.drop_last());
        assert(t =~= t.drop_last().push(t.last()));
        assert(t.drop_last() == rest + less);
        assert((rest + less).push(t.last()) =~= rest + back);
        back
    } else {
        assert(t =~= t + Seq::<char>::empty());
        Seq::empty()
    }
}

/// A duration is written as its milliseconds in decimal digits, without a zero
/// in front, and `ms`.
pub proof fn law_durations_are_written(millis: nat)
    ensures
        ({
            let s = text_of(millis);
            let n = s.len() as int;
            &&& n >= 3
            &&& s[n - 2] == 'm' && s[n - 1] == 's'
            &&& all_digits(s.take(n - 2))
            &&& digits_value(s.take(n - 2)) == millis
            &&& n > 3 ==> s[0] != '0'
        }),
{
    let d = digits_of(millis);
    let s = text_of(millis);
    lemma_digits_round_trip(millis);
    assert(s.take(s.len() - 2) =~= d);
    lemma_no_leading_zero(millis);
}

proof fn lemma_no_leading_zero(n: nat)
    ensures
        digits_of(n).len() > 0,
        n > 0 ==> digits_of(n)[0] != '0',
        n == 0 ==> digits_of(n).len() == 1,
        digits_of(n).len() > 1 ==> n > 0,
    decreases n,
{
    let last = (('0' as nat + n % 10) as u8) as char;
    assert(is_digit(last) && digit_value(last) == n % 10);
    if n >= 10 {
        lemma_no_leading_zero(n / 10);
        assert(digits_of(n)[0] == digits_of(n / 10)[0]);
    }
}

/// The code points of white space.
pub open spec fn white_space() -> Seq<u32> {
    seq![
        0x9u32, 0xa, 0xb, 0xc, 0xd, 0x20, 0x85, 0xa0, 0x1680, 0x2000, 0x2001, 0x2002, 0x2003,
        0x2004, 0x2005, 0x2006, 0x2007, 0x2008, 0x2009, 0x200a, 0x2028, 0x2029, 0x202f, 0x205f,
        0x3000,
    ]
}

/// White space may stand around a number, and it is what Unicode calls so: these
/// twenty-five characters and no others.
pub proof fn law_white_space(c: char)
    ensures
        is_space(c) <==> white_space().contains(c as u32),
{
    let w = white_space();
    let x = c as u32;
    if is_space(c) {
        let i: int = if x <= 0xd {
            x - 0x9
        } else if x == 0x20 {
            5
        } else if x == 0x85 {
            6
        } else if x == 0xa0 {
            7
        } else if x == 0x1680 {
            8
        } else if x <= 0x200a {
            9 + (x - 0x2000)
        } else if x == 0x2028 {
            20
        } else if x == 0x2029 {
            21
        } else if x == 0x202f {
            22
        } else if x == 0x205f {
            23
        } else {
            24
        };
        assert(w[i] == x);
    }
}

} // verus!
