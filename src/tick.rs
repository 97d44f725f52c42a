//! Moments of the simulation, in tenths of a second.

use rand::Rng;
use rand::XorShiftRng;
use vstd::prelude::*;
use vstd::string::*;

verus! {

#[verifier::external_type_specification]
#[verifier::external_body]
pub struct ExXorShiftRng(XorShiftRng);

/// Relies on rand's `Rng::gen_range` for `u32`: a value in `[low, high)`, drawn by
/// `UniformInt::sample_single`, which panics when `low >= high`.
#[verifier::external_body]
fn gen_range_u32(rng: &mut XorShiftRng, low: u32, high: u32) -> (r: u32)
    requires
        low < high,
    ensures
        low <= r < high,
{
    rng.gen_range(low, high)
}

/// A moment of the simulation, in tenths of a second since midnight.
#[derive(Clone, Copy, Debug, PartialEq, Eq, Structural, Hash, PartialOrd, Ord)]
pub struct Tick(pub u32);

pub const TICKS_PER_SECOND: u32 = 10;

pub const TICKS_PER_MINUTE: u32 = 600;

pub const TICKS_PER_HOUR: u32 = 36000;

/// The decimal digits of `n`, without leading zeros.
pub open spec fn decimal(n: nat) -> Seq<char>
    decreases n,
{
    if n < 10 {
        seq![digit_char(n)]
    } else {
        decimal(n / 10).push(digit_char(n % 10))
    }
}

pub open spec fn digit_char(d: nat) -> char {
    if d == 0 {
        '0'
    } else if d == 1 {
        '1'
    } else if d == 2 {
        '2'
    } else if d == 3 {
        '3'
    } else if d == 4 {
        '4'
    } else if d == 5 {
        '5'
    } else if d == 6 {
        '6'
    } else if d == 7 {
        '7'
    } else if d == 8 {
        '8'
    } else {
        '9'
    }
}

/// At least two digits, with a leading zero when needed.
pub open spec fn two_digits(n: nat) -> Seq<char> {
    if n < 10 {
        seq!['0'].add(decimal(n))
    } else {
        decimal(n)
    }
}

fn digit_str(d: u32) -> (r: &'static str)
    requires
        d < 10,
    ensures
        r@ == seq![digit_char(d as nat)],
{
    proof {
        reveal_strlit("0");
        reveal_strlit("1");
        reveal_strlit("2");
        reveal_strlit("3");
        reveal_strlit("4");
        reveal_strlit("5");
        reveal_strlit("6");
        reveal_strlit("7");
        reveal_strlit("8");
        reveal_strlit("9");
    }
    if d == 0 {
        "0"
    } else if d == 1 {
        "1"
    } else if d == 2 {
        "2"
    } else if d == 3 {
        "3"
    } else if d == 4 {
        "4"
    } else if d == 5 {
        "5"
    } else if d == 6 {
        "6"
    } else if d == 7 {
        "7"
    } else if d == 8 {
        "8"
    } else {
        "9"
    }
}

/// Appends the decimal digits of `n`.
fn push_decimal(s: &mut String, n: u32)
    ensures
        final(s)@ == old(s)@ + decimal(n as nat),
    decreases n,
{
    if n >= 10 {
        push_decimal(s, n / 10);
    }
    s.append(digit_str(n % 10));
    assert(final(s)@ =~= old(s)@ + decimal(n as nat)) by {
        if n < 10 {
            assert(n % 10 == n);
        }
    }
}

fn push_two_digits(s: &mut String, n: u32)
    ensures
        final(s)@ == old(s)@ + two_digits(n as nat),
{
    if n < 10 {
        proof {
            reveal_strlit("0");
        }
        s.append("0");
    }
    push_decimal(s, n);
    assert(final(s)@ =~= old(s)@ + two_digits(n as nat));
}

/// The pieces of `s` between the occurrences of `c`; always at least one.
pub open spec fn split_on(s: Seq<char>, c: char) -> Seq<Seq<char>>
    decreases s.len(),
{
    if s.len() == 0 {
        seq![Seq::empty()]
    } else {
        let parts = split_on(s.drop_last(), c);
        if s.last() == c {
            parts.push(Seq::empty())
        } else {
            parts.update(parts.len() - 1, parts.last().push(s.last()))
        }
    }
}

proof fn lemma_split_nonempty(s: Seq<char>, c: char)
    ensures
        split_on(s, c).len() >= 1,
    decreases s.len(),
{
    if s.len() > 0 {
        lemma_split_nonempty(s.drop_last(), c);
    }
}

pub open spec fn is_digit(c: char) -> bool {
    '0' <= c <= '9'
}

/// The value of a string of decimal digits.
pub open spec fn digits_value(s: Seq<char>) -> nat
    decreases s.len(),
{
    if s.len() == 0 {
        0
    } else {
        (digits_value(s.drop_last()) * 10 + (s.last() as int - '0' as int)) as nat
    }
}

/// A base-ten `u32` as `u32::from_str_radix` reads it: digits, after an optional `+`,
/// with a value that fits.
pub open spec fn u32_digits(s: Seq<char>) -> Seq<char> {
    if s.len() > 1 && s[0] == '+' {
        s.drop_first()
    } else {
        s
    }
}

pub open spec fn parse_u32(s: Seq<char>) -> Option<nat> {
    let d = u32_digits(s);
    if d.len() > 0 && (forall|i: int| 0 <= i < d.len() ==> is_digit(#[trigger] d[i]))
        && digits_value(d) <= u32::MAX {
        Some(digits_value(d))
    } else {
        None
    }
}

/// The ticks in the last part of a time: seconds, with an optional single digit
/// string of tenths after a `.`.
pub open spec fn seconds_part(last: Seq<char>) -> Option<nat> {
    if last.contains('.') {
        let lp = split_on(last, '.');
        if lp.len() != 2 {
            None
        } else {
            match (parse_u32(lp[1]), parse_u32(lp[0])) {
                (Some(a), Some(b)) => Some(a + 10 * b),
                _ => None,
            }
        }
    } else {
        match parse_u32(last) {
            Some(v) => Some(10 * v),
            None => None,
        }
    }
}

/// The ticks that `[[hh:]mm:]ss[.t]` stands for, when that fits in a `u32`.
pub open spec fn parse_ticks(s: Seq<char>) -> Option<nat> {
    let parts = split_on(s, ':');
    let total = match seconds_part(parts.last()) {
        None => None,
        Some(sec) => if parts.len() == 1 {
            Some(sec)
        } else if parts.len() == 2 {
            match parse_u32(parts[0]) {
                Some(m) => Some(sec + 600 * m),
                None => None,
            }
        } else if parts.len() == 3 {
            match (parse_u32(parts[1]), parse_u32(parts[0])) {
                (Some(m), Some(h)) => Some(sec + 600 * m + 36000 * h),
                _ => None,
            }
        } else {
            None
        },
    };
    match total {
        Some(t) => if t <= u32::MAX {
            Some(t)
        } else {
            None
        },
        None => None,
    }
}

proof fn lemma_digits_prefix(s: Seq<char>, i: int)
    requires
        0 <= i <= s.len(),
        forall|j: int| 0 <= j < s.len() ==> is_digit(#[trigger] s[j]),
    ensures
        digits_value(s.take(i)) <= digits_value(s),
    decreases s.len() - i,
{
    if i < s.len() {
        lemma_digits_prefix(s, i + 1);
        assert(s.take(i + 1).drop_last() =~= s.take(i));
    } else {
        assert(s.take(i) =~= s);
    }
}

/// `parse_u32` on a vector of characters.
fn parse_u32_exec(s: &Vec<char>) -> (r: Option<u32>)
    ensures
        r matches Some(v) ==> parse_u32(s@) == Some(v as nat),
        r is None ==> parse_u32(s@) is None,
{
    let start: usize = if s.len() > 1 && s[0] == '+' {
        1
    } else {
        0
    };
    let ghost d = u32_digits(s@);
    assert(d =~= s@.subrange(start as int, s@.len() as int));
    if start >= s.len() {
        return None;
    }
    let mut acc: u64 = 0;
    let mut i: usize = start;
    while i < s.len()
        invariant
            start <= i <= s@.len(),
            d == u32_digits(s@),
            d =~= s@.subrange(start as int, s@.len() as int),
            forall|j: int| 0 <= j < i - start ==> is_digit(#[trigger] d[j]),
            acc == digits_value(d.take(i - start)),
            acc <= u32::MAX,
        decreases s@.len() - i,
    {
        let c = s[i];
        if !('0' <= c && c <= '9') {
            assert(!is_digit(d[i - start]));
            assert(!(forall|j: int| 0 <= j < d.len() ==> is_digit(#[trigger] d[j])));
            return None;
        }
        assert(d.take(i - start + 1).drop_last() =~= d.take(i - start));
        acc = acc * 10 + (c as u64 - '0' as u64);
        i = i + 1;
        if acc > u32::MAX as u64 {
            proof {
                assert forall|j: int| 0 <= j < i - start implies is_digit(#[trigger] d.take(i - start)[j]) by {}
                if forall|j: int| 0 <= j < d.len() ==> is_digit(#[trigger] d[j]) {
                    lemma_digits_prefix(d, i - start);
                }
            }
            return None;
        }
    }
    assert(d.take(i - start) =~= d);
    Some(acc as u32)
}

/// Splits a vector of characters at each `c`.
fn split_chars(s: &Vec<char>, c: char) -> (r: Vec<Vec<char>>)
    ensures
        r@.len() == split_on(s@, c).len(),
        forall|k: int| 0 <= k < r@.len() ==> (#[trigger] r@[k])@ == split_on(s@, c)[k],
{
    let mut parts: Vec<Vec<char>> = Vec::new();
    let mut cur: Vec<char> = Vec::new();
    let mut i: usize = 0;
    while i < s.len()
        invariant
            i <= s@.len(),
            parts@.len() + 1 == split_on(s@.take(i as int), c).len(),
            forall|k: int| 0 <= k < parts@.len() ==> (#[trigger] parts@[k])@ == split_on(s@.take(i as int), c)[k],
            cur@ == split_on(s@.take(i as int), c).last(),
        decreases s@.len() - i,
    {
        proof {
            lemma_split_nonempty(s@.take(i as int), c);
        }
        assert(s@.take(i + 1).drop_last() =~= s@.take(i as int));
        if s[i] == c {
            parts.push(cur);
            cur = Vec::new();
        } else {
            cur.push(s[i]);
        }
        i = i + 1;
    }
    assert(s@.take(i as int) =~= s@);
    proof {
        lemma_split_nonempty(s@, c);
    }
    parts.push(cur);
    parts
}

pub(crate) fn chars_of(s: &str) -> (r: Vec<char>)
    ensures
        r@ == s@,
{
    let n = s.unicode_len();
    let mut v: Vec<char> = Vec::new();
    let mut i: usize = 0;
    while i < n
        invariant
            n == s@.len(),
            i <= n,
            v@ == s@.take(i as int),
        decreases n - i,
    {
        v.push(s.get_char(i));
        i = i + 1;
        assert(v@ =~= s@.take(i as int));
    }
    assert(v@ =~= s@);
    v
}

fn contains_char(s: &Vec<char>, c: char) -> (r: bool)
    ensures
        r == s@.contains(c),
{
    let mut i: usize = 0;
    while i < s.len()
        invariant
            i <= s@.len(),
            forall|j: int| 0 <= j < i ==> s@[j] != c,
        decreases s@.len() - i,
    {
        if s[i] == c {
            return true;
        }
        i = i + 1;
    }
    false
}

impl Tick {
    pub fn zero() -> (r: Tick)
        ensures
            r.0 == 0,
    {
        Tick(0)
    }

    pub fn from_minutes(mins: u32) -> (r: Tick)
        requires
            600 * mins <= u32::MAX,
        ensures
            r.0 == 600 * mins,
    {
        Tick(600 * mins)
    }

    pub fn from_seconds(secs: u32) -> (r: Tick)
        requires
            10 * secs <= u32::MAX,
        ensures
            r.0 == 10 * secs,
    {
        Tick(10 * secs)
    }

    /// Reads `[[hh:]mm:]ss[.t]`, each number as `u32::from_str_radix` reads it in base
    /// ten; `None` when the text has another shape or the moment does not fit.
    pub fn parse(string: &str) -> (r: Option<Tick>)
        ensures
            r matches Some(t) ==> parse_ticks(string@) == Some(t.0 as nat),
            r is None ==> parse_ticks(string@) is None,
    {
        let chars = chars_of(string);
        let parts = split_chars(&chars, ':');
        proof {
            lemma_split_nonempty(chars@, ':');
        }
        let n = parts.len();
        let last = &parts[n - 1];
        let sec: u64 = if contains_char(last, '.') {
            let lp = split_chars(last, '.');
            if lp.len() != 2 {
                return None;
            }
            let a = match parse_u32_exec(&lp[1]) {
                Some(a) => a,
                None => {
                    return None;
                },
            };
            let b = match parse_u32_exec(&lp[0]) {
                Some(b) => b,
                None => {
                    return None;
                },
            };
            a as u64 + 10 * b as u64
        } else {
            match parse_u32_exec(last) {
                Some(v) => 10 * v as u64,
                None => {
                    return None;
                },
            }
        };
        let total: u64 = if n == 1 {
            sec
        } else if n == 2 {
            match parse_u32_exec(&parts[0]) {
                Some(m) => sec + 600 * m as u64,
                None => {
                    return None;
                },
            }
        } else if n == 3 {
            let m = match parse_u32_exec(&parts[1]) {
                Some(m) => m,
                None => {
                    return None;
                },
            };
            let h = match parse_u32_exec(&parts[0]) {
                Some(h) => h,
                None => {
                    return None;
                },
            };
            sec + 600 * m as u64 + 36000 * h as u64
        } else {
            return None;
        };
        if total > u32::MAX as u64 {
            return None;
        }
        Some(Tick(total as u32))
    }

    pub fn next(self) -> (r: Tick)
        requires
            self.0 < u32::MAX,
        ensures
            r.0 == self.0 + 1,
    {
        Tick(self.0 + 1)
    }

    pub fn is_multiple_of(&self, other: Tick) -> (r: bool)
        requires
            other.0 != 0,
        ensures
            r == (self.0 % other.0 == 0),
    {
        self.0 % other.0 == 0
    }

    /// Hours, minutes, seconds and tenths of a second.
    pub fn get_parts(&self) -> (r: (u32, u32, u32, u32))
        ensures
            r.0 == self.0 / TICKS_PER_HOUR,
            r.1 == (self.0 % TICKS_PER_HOUR) / TICKS_PER_MINUTE,
            r.2 == (self.0 % TICKS_PER_MINUTE) / TICKS_PER_SECOND,
            r.3 == self.0 % TICKS_PER_SECOND,
    {
        let hours = self.0 / TICKS_PER_HOUR;
        let mut remainder = self.0 % TICKS_PER_HOUR;
        let minutes = remainder / TICKS_PER_MINUTE;
        remainder = remainder % TICKS_PER_MINUTE;
        let seconds = remainder / TICKS_PER_SECOND;
        remainder = remainder % TICKS_PER_SECOND;
        assert((self.0 % 36000) % 600 == self.0 % 600) by (nonlinear_arith);
        assert((self.0 % 600) % 10 == self.0 % 10) by (nonlinear_arith);
        (hours, minutes, seconds, remainder)
    }

    /// `HHhMMmSS.Ts`, a name that sorts like the moments it stands for (up to 99 hours).
    pub fn as_filename(&self) -> (r: String)
        ensures
            ({
                let (h, m, s, t) = (
                    self.0 / TICKS_PER_HOUR,
                    (self.0 % TICKS_PER_HOUR) / TICKS_PER_MINUTE,
                    (self.0 % TICKS_PER_MINUTE) / TICKS_PER_SECOND,
                    self.0 % TICKS_PER_SECOND,
                );
                r@ == two_digits(h as nat) + "h"@ + two_digits(m as nat) + "m"@ + two_digits(
                    s as nat,
                ) + "."@ + decimal(t as nat) + "s"@
            }),
    {
        let (hours, minutes, seconds, remainder) = self.get_parts();
        let mut out = String::new();
        push_two_digits(&mut out, hours);
        out.append("h");
        push_two_digits(&mut out, minutes);
        out.append("m");
        push_two_digits(&mut out, seconds);
        out.append(".");
        push_decimal(&mut out, remainder);
        out.append("s");
        out
    }

    /// `HH:MM:SS.T`, the usual way to show a moment.
    pub fn as_clock_string(&self) -> (r: String)
        ensures
            ({
                let (h, m, s, t) = (
                    self.0 / TICKS_PER_HOUR,
                    (self.0 % TICKS_PER_HOUR) / TICKS_PER_MINUTE,
                    (self.0 % TICKS_PER_MINUTE) / TICKS_PER_SECOND,
                    self.0 % TICKS_PER_SECOND,
                );
                r@ == two_digits(h as nat) + ":"@ + two_digits(m as nat) + ":"@ + two_digits(
                    s as nat,
                ) + "."@ + decimal(t as nat)
            }),
    {
        let (hours, minutes, seconds, remainder) = self.get_parts();
        let mut out = String::new();
        push_two_digits(&mut out, hours);
        out.append(":");
        push_two_digits(&mut out, minutes);
        out.append(":");
        push_two_digits(&mut out, seconds);
        out.append(".");
        push_decimal(&mut out, remainder);
        out
    }

    /// A moment drawn uniformly from `[start, stop)`.
    pub fn uniform(start: Tick, stop: Tick, rng: &mut XorShiftRng) -> (r: Tick)
        requires
            start.0 < stop.0,
        ensures
            start.0 <= r.0 < stop.0,
    {
        Tick(gen_range_u32(rng, start.0, stop.0))
    }

    /// Adds `other` in place.
    pub fn add_assign(&mut self, other: Tick)
        requires
            old(self).0 + other.0 <= u32::MAX,
        ensures
            final(self).0 == old(self).0 + other.0,
    {
        *self = Tick(self.0 + other.0)
    }

    /// The ticks from `other` to `self`.
    pub fn sub(self, other: Tick) -> (r: Tick)
        requires
            other.0 <= self.0,
        ensures
            r.0 == self.0 - other.0,
    {
        Tick(self.0 - other.0)
    }
}

} // verus!
