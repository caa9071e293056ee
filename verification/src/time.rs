use vstd::prelude::*;

verus! {

/// Seconds in one calendar day.
pub const SECONDS_PER_DAY: u32 = 86400;

/// The last second of a day, 23:59:59; a day left open in the past is
/// treated as closed at this time.
pub const END_OF_DAY: u32 = 86399;

/// A time of day, stored as whole seconds since midnight.
#[derive(Clone, Copy, PartialEq, Eq, Structural, Debug)]
pub struct Time {
    pub seconds: u32,
}

impl Time {
    /// A time is valid when it lies inside one day.
    pub open spec fn valid(self) -> bool {
        self.seconds < SECONDS_PER_DAY
    }

    /// The time `h:m:s`, when each component is in range.
    pub fn from_hms(h: u32, m: u32, s: u32) -> (r: Option<Time>)
        ensures
            r is Some <==> (h < 24 && m < 60 && s < 60),
            r is Some ==> r->0.seconds == h * 3600 + m * 60 + s && r->0.valid(),
    {
        if h < 24 && m < 60 && s < 60 {
            Some(Time { seconds: h * 3600 + m * 60 + s })
        } else {
            None
        }
    }

    /// The close of the day, 23:59:59.
    pub fn end_of_day() -> (r: Time)
        ensures
            r.seconds == END_OF_DAY,
            r.valid(),
    {
        Time { seconds: END_OF_DAY }
    }

    /// This time shifted by `delta` seconds, wrapping around midnight,
    /// as adding a signed duration to a time of day does.
    pub fn plus_seconds(self, delta: i64) -> (r: Time)
        requires
            self.valid(),
        ensures
            r.valid(),
            r.seconds == (self.seconds + delta) % (SECONDS_PER_DAY as int),
    {
        let day: u128 = SECONDS_PER_DAY as u128;
        if delta >= 0 {
            let reduced: u32 = ((delta as u128) % day) as u32;
            let sum: u32 = (self.seconds + reduced) % SECONDS_PER_DAY;
            proof {
                lemma_mod_shift_right(self.seconds as int, delta as int, SECONDS_PER_DAY as int);
            }
            Time { seconds: sum }
        } else {
            let magnitude: u128 = (-(delta as i128)) as u128;
            let reduced: u32 = (magnitude % day) as u32;
            let sum: u32 = (self.seconds + (SECONDS_PER_DAY - reduced)) % SECONDS_PER_DAY;
            proof {
                lemma_mod_shift_left(self.seconds as int, magnitude as int, SECONDS_PER_DAY as int);
            }
            Time { seconds: sum }
        }
    }
}

/// The shift of `t` by `delta` seconds, wrapping around midnight.
pub open spec fn shifted_spec(t: Time, delta: i64) -> Time {
    Time { seconds: ((t.seconds + delta) % (SECONDS_PER_DAY as int)) as u32 }
}

/// A user's time-or-shift input: either an absolute time of day, or a
/// signed shift in whole seconds.
#[derive(Clone, Copy, PartialEq, Eq, Structural, Debug)]
pub enum TimeOrDelta {
    Time(Time),
    Delta(i64),
}

/// Whether `c` is a decimal digit.
pub open spec fn is_digit_char(c: char) -> bool {
    '0' <= c && c <= '9'
}

/// Whether every character of `s` is a decimal digit.
pub open spec fn all_digits(s: Seq<char>) -> bool {
    forall|i: int| 0 <= i < s.len() ==> is_digit_char(s[i])
}

/// The value of the digit character `c`.
pub open spec fn digit_of(c: char) -> int {
    c as int - 48
}

/// The number a digit string denotes, most significant digit first.
pub open spec fn digits_val(s: Seq<char>) -> int
    decreases s.len(),
{
    if s.len() == 0 {
        0
    } else {
        10 * digits_val(s.drop_last()) + digit_of(s.last())
    }
}

/// The minute count a signed-shift suffix denotes: at most one extra
/// leading `+`, then one or more digits whose value fits a `u32` (the shape
/// `u32` parsing accepts).
pub open spec fn shift_minutes(s: Seq<char>) -> Option<int> {
    let digits = if s.len() > 0 && s[0] == '+' {
        s.drop_first()
    } else {
        s
    };
    if digits.len() > 0 && all_digits(digits) && digits_val(digits) <= u32::MAX {
        Some(digits_val(digits))
    } else {
        None
    }
}

/// What parsing a time-or-shift input string yields: one or two digits are
/// an hour, three or four are hours then minutes, a leading `+` or `-` is a
/// shift by minutes, and anything else is rejected.
pub open spec fn parse_spec(s: Seq<char>) -> Result<TimeOrDelta, crate::error::Error> {
    if 1 <= s.len() <= 2 && all_digits(s) {
        if digits_val(s) < 24 {
            Ok(TimeOrDelta::Time(Time { seconds: (digits_val(s) * 3600) as u32 }))
        } else {
            Err(crate::error::Error::Validation)
        }
    } else if 3 <= s.len() <= 4 && all_digits(s) {
        let h = digits_val(s.take(s.len() - 2));
        let m = digits_val(s.skip(s.len() - 2));
        if h < 24 && m < 60 {
            Ok(TimeOrDelta::Time(Time { seconds: (h * 3600 + m * 60) as u32 }))
        } else {
            Err(crate::error::Error::Validation)
        }
    } else if s.len() > 0 && s[0] == '+' {
        match shift_minutes(s.drop_first()) {
            Some(m) => Ok(TimeOrDelta::Delta((m * 60) as i64)),
            None => Err(crate::error::Error::Validation),
        }
    } else if s.len() > 0 && s[0] == '-' {
        match shift_minutes(s.drop_first()) {
            Some(m) => Ok(TimeOrDelta::Delta((-m * 60) as i64)),
            None => Err(crate::error::Error::Validation),
        }
    } else {
        Err(crate::error::Error::Validation)
    }
}

/// Each digit string's value stays at or above the value of any prefix.
proof fn lemma_digits_val_prefix(s: Seq<char>, k: int)
    requires
        all_digits(s),
        0 <= k <= s.len(),
    ensures
        0 <= digits_val(s.take(k)) <= digits_val(s),
    decreases s.len(),
{
    if s.len() == 0 {
        assert(s.take(k) == s);
    } else if k == s.len() {
        assert(s.take(k) == s);
        lemma_digits_val_prefix(s.drop_last(), k - 1);
    } else {
        let t = s.drop_last();
        assert(all_digits(t));
        assert(s.take(k) == t.take(k));
        lemma_digits_val_prefix(t, k);
        assert(digits_val(s) == 10 * digits_val(t) + digit_of(s.last()));
        assert(digit_of(s.last()) >= 0);
        assert(10 * digits_val(t) >= digits_val(t)) by (nonlinear_arith)
            requires
                digits_val(t) >= 0,
        ;
    }
}

/// Scans `s[from..to]` as a decimal number: the value when the range is
/// nonempty, all digits, and fits a `u32`.
fn scan_digits(s: &str, from: usize, to: usize) -> (r: Option<u32>)
    requires
        from <= to <= s@.len(),
    ensures
        ({
            let piece = s@.subrange(from as int, to as int);
            match r {
                Some(v) => piece.len() > 0 && all_digits(piece) && v == digits_val(piece),
                None => piece.len() == 0 || !all_digits(piece) || digits_val(piece) > u32::MAX,
            }
        }),
{
    let ghost piece = s@.subrange(from as int, to as int);
    if from == to {
        return None;
    }
    let mut acc: u64 = 0;
    let mut i: usize = from;
    while i < to
        invariant
            from <= i <= to <= s@.len(),
            piece == s@.subrange(from as int, to as int),
            all_digits(piece.take(i - from)),
            acc == digits_val(piece.take(i - from)),
            acc <= u32::MAX,
        decreases to - i,
    {
        let c = s.get_char(i);
        proof {
            assert(piece[i - from] == s@[i as int]);
        }
        if c < '0' || c > '9' {
            proof {
                assert(!is_digit_char(piece[i - from]));
            }
            return None;
        }
        let d: u64 = (c as u32 - 48) as u64;
        proof {
            assert(piece.take(i - from + 1).drop_last() == piece.take(i - from));
            assert(piece.take(i - from + 1).last() == piece[i - from]);
        }
        acc = acc * 10 + d;
        i = i + 1;
        if acc > u32::MAX as u64 {
            proof {
                if all_digits(piece) {
                    lemma_digits_val_prefix(piece, i - from);
                    assert(piece.take(piece.len() as int) == piece);
                }
            }
            return None;
        }
    }
    proof {
        assert(piece.take(piece.len() as int) == piece);
    }
    Some(acc as u32)
}

/// Whether every character of `s` is a decimal digit.
pub fn is_digit(s: &str) -> (r: bool)
    ensures
        r == all_digits(s@),
{
    let n = s.unicode_len();
    let mut i: usize = 0;
    while i < n
        invariant
            0 <= i <= n,
            n == s@.len(),
            forall|j: int| 0 <= j < i ==> is_digit_char(s@[j]),
        decreases n - i,
    {
        let c = s.get_char(i);
        if c < '0' || c > '9' {
            return false;
        }
        i = i + 1;
    }
    true
}

impl TimeOrDelta {
    /// Reads a user's time-or-shift input: `"9"` or `"17"` as an hour,
    /// `"930"` or `"0930"` as hours and minutes, `"+15"` or `"-15"` as a
    /// shift by minutes.
    pub fn parse(s: &str) -> (r: Result<TimeOrDelta, crate::error::Error>)
        ensures
            r == parse_spec(s@),
    {
        let n = s.unicode_len();
        if n >= 1 && n <= 2 && is_digit(s) {
            proof {
                assert(s@.subrange(0, n as int) == s@);
            }
            let v = match scan_digits(s, 0, n) {
                Some(v) => v,
                None => {
                    return Err(crate::error::Error::Validation);
                },
            };
            if v < 24 {
                return Ok(TimeOrDelta::Time(Time { seconds: v * 3600 }));
            }
            return Err(crate::error::Error::Validation);
        }
        if n >= 3 && n <= 4 && is_digit(s) {
            proof {
                assert(s@.subrange(0, (n - 2) as int) == s@.take(n - 2));
                assert(s@.subrange((n - 2) as int, n as int) == s@.skip(n - 2));
            }
            let h = match scan_digits(s, 0, n - 2) {
                Some(v) => v,
                None => {
                    return Err(crate::error::Error::Validation);
                },
            };
            let m = match scan_digits(s, n - 2, n) {
                Some(v) => v,
                None => {
                    return Err(crate::error::Error::Validation);
                },
            };
            if h < 24 && m < 60 {
                return Ok(TimeOrDelta::Time(Time { seconds: h * 3600 + m * 60 }));
            }
            return Err(crate::error::Error::Validation);
        }
        if n == 0 {
            return Err(crate::error::Error::Validation);
        }
        let head = s.get_char(0);
        if head != '+' && head != '-' {
            return Err(crate::error::Error::Validation);
        }
        let rest_from: usize = if n >= 2 && s.get_char(1) == '+' {
            2
        } else {
            1
        };
        proof {
            let tail = s@.drop_first();
            if rest_from == 2 {
                assert(tail[0] == '+');
                assert(tail.drop_first() == s@.subrange(2, n as int));
            } else {
                assert(tail == s@.subrange(1, n as int));
            }
        }
        let m = match scan_digits(s, rest_from, n) {
            Some(v) => v,
            None => {
                return Err(crate::error::Error::Validation);
            },
        };
        let seconds: i64 = (m as i64) * 60;
        if head == '+' {
            Ok(TimeOrDelta::Delta(seconds))
        } else {
            Ok(TimeOrDelta::Delta(-seconds))
        }
    }
}

/// Shifting by `d % n` and reducing agrees with shifting by `d` itself.
proof fn lemma_mod_shift_right(s: int, d: int, n: int)
    requires
        0 <= s,
        0 <= d,
        0 < n,
    ensures
        (s + d % n) % n == (s + d) % n,
{
    let q = d / n;
    assert(d == q * n + d % n) by {
        vstd::arithmetic::div_mod::lemma_fundamental_div_mod(d, n);
    }
    assert((s + d % n + q * n) % n == (s + d % n) % n) by {
        vstd::arithmetic::div_mod::lemma_mod_multiples_vanish(q, s + d % n, n);
    }
}

/// Shifting down by a magnitude `m` agrees with shifting up by the
/// complement of `m`'s remainder: `s - m` and `s + (n - m % n)` share a
/// residue modulo `n`.
proof fn lemma_mod_shift_left(s: int, m: int, n: int)
    requires
        0 <= s,
        0 <= m,
        0 < n,
    ensures
        (s + (n - m % n)) % n == (s - m) % n,
{
    let q = m / n;
    assert(m == q * n + m % n) by {
        vstd::arithmetic::div_mod::lemma_fundamental_div_mod(m, n);
    }
    assert(s - m == s + (n - m % n) + (-1 - q) * n) by {
        assert((-1 - q) * n == -1 * n + -q * n) by (nonlinear_arith);
        assert(-q * n == -(q * n)) by (nonlinear_arith);
    }
    assert((s + (n - m % n) + (-1 - q) * n) % n == (s + (n - m % n)) % n) by {
        vstd::arithmetic::div_mod::lemma_mod_multiples_vanish(-1 - q, s + (n - m % n), n);
    }
}

} // verus!
