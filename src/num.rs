//! Classification of literal spans: integers (with radix prefixes), floats
//! (with special values), booleans, and date-time literals.
use vstd::prelude::*;

use crate::cursor::{RIter, RSlice};
use crate::error::{ErrKind, ErrLocation, TomlError};
use crate::lexer::string_of;
use crate::parser::ParsedValue;
use crate::{DateTime, DateTimeValue, DateValue, Float, FloatV, TimeValue, TomlValue, Val};

verus! {

/// The sign or start of a literal, which selects how it is read.
#[derive(Debug, Clone, Copy, PartialEq, Eq)]
pub enum Hint {
    Inf,
    Nan,
    Number,
    Negative,
    Positive,
}

// ---------------------------------------------------------------------------
// Digits and integers

/// The value of `c` as a digit of `radix` (up to 36), if it is one.
pub open spec fn digit_of(c: char, radix: nat) -> Option<nat> {
    let v: int = if '0' <= c && c <= '9' {
        c as int - '0' as int
    } else if 'a' <= c && c <= 'z' {
        c as int - 'a' as int + 10
    } else if 'A' <= c && c <= 'Z' {
        c as int - 'A' as int + 10
    } else {
        99
    };
    if v < radix {
        Some(v as nat)
    } else {
        None
    }
}

/// Every character of `s` is a digit of `radix`.
pub open spec fn all_digits(s: Seq<char>, radix: nat) -> bool {
    forall|i: int| 0 <= i < s.len() ==> digit_of(#[trigger] s[i], radix) is Some
}

/// The number that the digits `s` write in `radix`, most significant first.
pub open spec fn digits_value(s: Seq<char>, radix: nat) -> nat
    decreases s.len(),
{
    if s.len() == 0 {
        0
    } else {
        let d = match digit_of(s.last(), radix) {
            Some(d) => d,
            None => 0,
        };
        digits_value(s.drop_last(), radix) * radix + d
    }
}

/// What `i64::from_str_radix` gives: an optional `+` or `-`, then one or more
/// digits of `radix`, whose value must fit in an `i64`.
pub open spec fn int_of_radix(s: Seq<char>, radix: nat) -> Option<i64> {
    if s.len() == 0 {
        None
    } else if s[0] == '+' || s[0] == '-' {
        let body = s.subrange(1, s.len() as int);
        if body.len() == 0 || !all_digits(body, radix) {
            None
        } else if s[0] == '+' {
            if digits_value(body, radix) <= i64::MAX {
                Some(digits_value(body, radix) as i64)
            } else {
                None
            }
        } else {
            if digits_value(body, radix) <= 0x8000_0000_0000_0000 {
                Some((0 - digits_value(body, radix)) as i64)
            } else {
                None
            }
        }
    } else if !all_digits(s, radix) {
        None
    } else if digits_value(s, radix) <= i64::MAX {
        Some(digits_value(s, radix) as i64)
    } else {
        None
    }
}

/// An integer literal: `0b`, `0o` or `0x` select radix 2, 8 or 16 for the
/// rest; anything else is read in radix 10.
pub open spec fn integer_of(l: Seq<char>) -> Option<i64> {
    if l.len() >= 2 && l[0] == '0' && l[1] == 'b' {
        int_of_radix(l.subrange(2, l.len() as int), 2)
    } else if l.len() >= 2 && l[0] == '0' && l[1] == 'x' {
        int_of_radix(l.subrange(2, l.len() as int), 16)
    } else if l.len() >= 2 && l[0] == '0' && l[1] == 'o' {
        int_of_radix(l.subrange(2, l.len() as int), 8)
    } else {
        int_of_radix(l, 10)
    }
}

proof fn lemma_digits_value_prefix(s: Seq<char>, radix: nat, k: int)
    requires
        0 <= k < s.len(),
        radix >= 1,
    ensures
        digits_value(s.subrange(0, k + 1), radix) == digits_value(s.subrange(0, k), radix) * radix
            + match digit_of(s[k], radix) {
            Some(d) => d,
            None => 0,
        },
{
    assert(s.subrange(0, k + 1).drop_last() =~= s.subrange(0, k));
}

proof fn lemma_digits_value_grows(s: Seq<char>, radix: nat, k: int)
    requires
        0 <= k <= s.len(),
        radix >= 1,
    ensures
        digits_value(s.subrange(0, k), radix) <= digits_value(s, radix),
    decreases s.len() - k,
{
    if k < s.len() {
        lemma_digits_value_grows(s, radix, k + 1);
        lemma_digits_value_prefix(s, radix, k);
        let a = digits_value(s.subrange(0, k), radix);
        assert(a * radix >= a) by (nonlinear_arith)
            requires
                radix >= 1,
        ;
    } else {
        assert(s.subrange(0, k) =~= s);
    }
}

/// The value of `c` as a digit of `radix`, if it is one.
fn digit_value(c: char, radix: u32) -> (r: Option<u32>)
    requires
        2 <= radix <= 36,
    ensures
        r is Some <==> digit_of(c, radix as nat) is Some,
        r matches Some(d) ==> digit_of(c, radix as nat) == Some(d as nat) && d < radix,
{
    let v: u32 = if '0' <= c && c <= '9' {
        (c as u32) - ('0' as u32)
    } else if 'a' <= c && c <= 'z' {
        (c as u32) - ('a' as u32) + 10
    } else if 'A' <= c && c <= 'Z' {
        (c as u32) - ('A' as u32) + 10
    } else {
        99
    };
    if v < radix {
        Some(v)
    } else {
        None
    }
}

/// The value of the digits `s[from..]` in `radix`, where it is at most `2^63`
/// and every character is a digit; `None` otherwise.
fn digits_up_to_limit(s: &Vec<char>, from: usize, radix: u32) -> (r: Option<u64>)
    requires
        from <= s@.len(),
        2 <= radix <= 36,
    ensures
        r is Some <==> all_digits(s@.subrange(from as int, s@.len() as int), radix as nat)
            && digits_value(s@.subrange(from as int, s@.len() as int), radix as nat)
            <= 0x8000_0000_0000_0000,
        r matches Some(v) ==> v == digits_value(
            s@.subrange(from as int, s@.len() as int),
            radix as nat,
        ),
{
    let ghost body = s@.subrange(from as int, s@.len() as int);
    let mut acc: u64 = 0;
    let mut k: usize = from;
    assert(body.subrange(0, 0) =~= Seq::<char>::empty());
    while k < s.len()
        invariant
            from <= k <= s@.len(),
            2 <= radix <= 36,
            body == s@.subrange(from as int, s@.len() as int),
            all_digits(body.subrange(0, k - from), radix as nat),
            acc == digits_value(body.subrange(0, k - from), radix as nat),
            acc <= 0x8000_0000_0000_0000,
        decreases s@.len() - k,
    {
        let d = match digit_value(s[k], radix) {
            Some(d) => d,
            None => {
                assert(body[k - from] == s@[k as int]);
                return None;
            },
        };
        proof {
            lemma_digits_value_prefix(body, radix as nat, k - from);
            assert(body[k - from] == s@[k as int]);
        }
        assert((acc as int) * (radix as int) <= 0x8000_0000_0000_0000 * 36) by (nonlinear_arith)
            requires
                acc <= 0x8000_0000_0000_0000,
                radix <= 36,
        ;
        let next: u128 = (acc as u128) * (radix as u128) + (d as u128);
        if next > 0x8000_0000_0000_0000 {
            proof {
                lemma_digits_value_grows(body, radix as nat, k - from + 1);
                assert(body.subrange(0, body.len() as int) =~= body);
            }
            return None;
        }
        acc = next as u64;
        k = k + 1;
        proof {
            assert forall|i: int| 0 <= i < k - from implies digit_of(
                #[trigger] body.subrange(0, k - from)[i],
                radix as nat,
            ) is Some by {
                if i < k - from - 1 {
                    assert(body.subrange(0, k - from)[i] == body.subrange(0, k - from - 1)[i]);
                }
            }
        }
    }
    assert(body.subrange(0, body.len() as int) =~= body);
    Some(acc)
}

/// Reads `s[from..]` as `i64::from_str_radix` does.
pub fn int_from_radix(s: &Vec<char>, from: usize, radix: u32) -> (r: Option<i64>)
    requires
        from <= s@.len(),
        2 <= radix <= 36,
    ensures
        r == int_of_radix(s@.subrange(from as int, s@.len() as int), radix as nat),
{
    let ghost t = s@.subrange(from as int, s@.len() as int);
    if from == s.len() {
        return None;
    }
    let c = s[from];
    assert(t[0] == c);
    if c == '+' || c == '-' {
        proof {
            assert(t.subrange(1, t.len() as int) =~= s@.subrange(from + 1, s@.len() as int));
        }
        if from + 1 == s.len() {
            return None;
        }
        match digits_up_to_limit(s, from + 1, radix) {
            Some(v) => {
                if c == '+' {
                    if v <= 0x7fff_ffff_ffff_ffff {
                        Some(v as i64)
                    } else {
                        None
                    }
                } else {
                    if v == 0x8000_0000_0000_0000 {
                        Some(i64::MIN)
                    } else {
                        Some(0 - (v as i64))
                    }
                }
            },
            None => None,
        }
    } else {
        match digits_up_to_limit(s, from, radix) {
            Some(v) => {
                if v <= 0x7fff_ffff_ffff_ffff {
                    Some(v as i64)
                } else {
                    None
                }
            },
            None => None,
        }
    }
}

/// Reads an integer literal, honouring the `0b`, `0o` and `0x` prefixes.
pub fn get_integer(literal: &Vec<char>) -> (r: Option<i64>)
    ensures
        r == integer_of(literal@),
{
    let n = literal.len();
    if n >= 2 && literal[0] == '0' && literal[1] == 'b' {
        int_from_radix(literal, 2, 2)
    } else if n >= 2 && literal[0] == '0' && literal[1] == 'x' {
        int_from_radix(literal, 2, 16)
    } else if n >= 2 && literal[0] == '0' && literal[1] == 'o' {
        int_from_radix(literal, 2, 8)
    } else {
        proof {
            assert(literal@.subrange(0, literal@.len() as int) =~= literal@);
        }
        int_from_radix(literal, 0, 10)
    }
}

// ---------------------------------------------------------------------------
// Floats

/// An ASCII decimal digit.
pub open spec fn is_dec(c: char) -> bool {
    '0' <= c && c <= '9'
}

/// The end of the run of decimal digits that starts at `i`.
pub open spec fn dec_run(s: Seq<char>, i: int) -> int
    decreases s.len() - i,
{
    if i < 0 || i >= s.len() || !is_dec(s[i]) {
        i
    } else {
        dec_run(s, i + 1)
    }
}

/// Decimal float syntax as `f64`'s `FromStr` reads it, special words aside:
/// an optional sign, digits with an optional fraction (at least one digit in
/// all), then an optional exponent `e` or `E` with an optional sign and digits.
pub open spec fn is_float_text(s: Seq<char>) -> bool {
    let a: int = if s.len() > 0 && (s[0] == '+' || s[0] == '-') {
        1
    } else {
        0
    };
    let b = dec_run(s, a);
    let has_dot = b < s.len() && s[b] == '.';
    let c = if has_dot {
        dec_run(s, b + 1)
    } else {
        b
    };
    let mantissa = b > a || (has_dot && c > b + 1);
    if c >= s.len() {
        mantissa
    } else if s[c] == 'e' || s[c] == 'E' {
        let d: int = if c + 1 < s.len() && (s[c + 1] == '+' || s[c + 1] == '-') {
            c + 2
        } else {
            c + 1
        };
        let e = dec_run(s, d);
        mantissa && e > d && e == s.len()
    } else {
        false
    }
}

/// The end of the run of decimal digits in `s` that starts at `i`.
fn dec_run_end(s: &Vec<char>, i: usize) -> (r: usize)
    requires
        i <= s@.len(),
    ensures
        r == dec_run(s@, i as int),
        i <= r <= s@.len(),
{
    let mut k: usize = i;
    while k < s.len() && '0' <= s[k] && s[k] <= '9'
        invariant
            i <= k <= s@.len(),
            dec_run(s@, i as int) == dec_run(s@, k as int),
        decreases s@.len() - k,
    {
        k = k + 1;
    }
    k
}

/// Whether `s` is decimal float text.
pub fn check_float_text(s: &Vec<char>) -> (r: bool)
    ensures
        r == is_float_text(s@),
{
    let n = s.len();
    let a: usize = if n > 0 && (s[0] == '+' || s[0] == '-') {
        1
    } else {
        0
    };
    let b = dec_run_end(s, a);
    let has_dot = b < n && s[b] == '.';
    let c = if has_dot {
        dec_run_end(s, b + 1)
    } else {
        b
    };
    let mantissa = b > a || (has_dot && c > b + 1);
    if c >= n {
        mantissa
    } else if s[c] == 'e' || s[c] == 'E' {
        let d: usize = if c + 1 < n && (s[c + 1] == '+' || s[c + 1] == '-') {
            c + 2
        } else {
            c + 1
        };
        let e = dec_run_end(s, d);
        mantissa && e > d && e == n
    } else {
        false
    }
}

// ---------------------------------------------------------------------------
// Digit separators

/// The literal starts with `0x`, so that its letters `a`-`f` are digits too.
pub open spec fn has_hex_prefix(s: Seq<char>) -> bool {
    s.len() >= 2 && s[0] == '0' && s[1] == 'x'
}

/// A digit that may stand beside a digit separator: a decimal digit, or in a
/// hexadecimal literal also a hex letter.
pub open spec fn is_sep_neighbour(c: char, hex: bool) -> bool {
    ('0' <= c && c <= '9') || (hex && (('a' <= c && c <= 'f') || ('A' <= c && c <= 'F')))
}

/// Every `_` in `s` stands between two digits.
pub open spec fn separators_ok(s: Seq<char>) -> bool {
    forall|i: int|
        0 <= i < s.len() && #[trigger] s[i] == '_' ==> 0 < i && i + 1 < s.len() && is_sep_neighbour(
            s[i - 1],
            has_hex_prefix(s),
        ) && is_sep_neighbour(s[i + 1], has_hex_prefix(s))
}

/// `s` with every `_` removed.
pub open spec fn strip_separators(s: Seq<char>) -> Seq<char>
    decreases s.len(),
{
    if s.len() == 0 {
        s
    } else if s.last() == '_' {
        strip_separators(s.drop_last())
    } else {
        strip_separators(s.drop_last()).push(s.last())
    }
}

fn sep_neighbour(c: char, hex: bool) -> (r: bool)
    ensures
        r == is_sep_neighbour(c, hex),
{
    ('0' <= c && c <= '9') || (hex && (('a' <= c && c <= 'f') || ('A' <= c && c <= 'F')))
}

/// Whether every `_` in `s` stands between two digits.
pub fn check_separators(s: &Vec<char>) -> (r: bool)
    ensures
        r == separators_ok(s@),
{
    let n = s.len();
    let hex = n >= 2 && s[0] == '0' && s[1] == 'x';
    let mut k: usize = 0;
    while k < n
        invariant
            k <= n == s@.len(),
            hex == has_hex_prefix(s@),
            forall|i: int|
                0 <= i < k && #[trigger] s@[i] == '_' ==> 0 < i && i + 1 < s@.len()
                    && is_sep_neighbour(s@[i - 1], hex) && is_sep_neighbour(s@[i + 1], hex),
        decreases n - k,
    {
        if s[k] == '_' {
            if k == 0 || k + 1 >= n || !sep_neighbour(s[k - 1], hex) || !sep_neighbour(s[k + 1], hex) {
                return false;
            }
        }
        k = k + 1;
    }
    true
}

/// `s` with every `_` removed.
pub fn remove_separators(s: &Vec<char>) -> (r: Vec<char>)
    ensures
        r@ == strip_separators(s@),
{
    let mut r: Vec<char> = Vec::new();
    let mut k: usize = 0;
    assert(s@.subrange(0, 0) =~= Seq::<char>::empty());
    while k < s.len()
        invariant
            k <= s@.len(),
            r@ == strip_separators(s@.subrange(0, k as int)),
        decreases s@.len() - k,
    {
        assert(s@.subrange(0, k + 1).drop_last() =~= s@.subrange(0, k as int));
        if s[k] != '_' {
            r.push(s[k]);
        }
        k = k + 1;
    }
    assert(s@.subrange(0, s@.len() as int) =~= s@);
    r
}

// ---------------------------------------------------------------------------
// Dates and times

/// What `speedate::DateTime::parse_str` gives for a text.
pub uninterp spec fn datetime_of(s: Seq<char>) -> Option<DateTimeValue>;

/// What `speedate::Date::parse_str` gives for a text.
pub uninterp spec fn date_of(s: Seq<char>) -> Option<DateValue>;

/// What `speedate::Time::parse_str` gives for a text.
pub uninterp spec fn time_of(s: Seq<char>) -> Option<TimeValue>;

/// Relies on `speedate::DateTime::parse_str`: the result depends on the text alone.
#[verifier::external_body]
fn parse_datetime(s: &str) -> (r: Option<DateTimeValue>)
    ensures
        r == datetime_of(s@),
{
    match speedate::DateTime::parse_str(s) {
        Ok(d) => Some(DateTimeValue {
            date: DateValue { year: d.date.year, month: d.date.month, day: d.date.day },
            time: TimeValue {
                hour: d.time.hour,
                minute: d.time.minute,
                second: d.time.second,
                microsecond: d.time.microsecond,
                tz_offset: d.time.tz_offset,
            },
        }),
        Err(_) => None,
    }
}

/// Relies on `speedate::Date::parse_str`: the result depends on the text alone.
#[verifier::external_body]
fn parse_date(s: &str) -> (r: Option<DateValue>)
    ensures
        r == date_of(s@),
{
    match speedate::Date::parse_str(s) {
        Ok(d) => Some(DateValue { year: d.year, month: d.month, day: d.day }),
        Err(_) => None,
    }
}

/// Relies on `speedate::Time::parse_str`: the result depends on the text alone.
#[verifier::external_body]
fn parse_time(s: &str) -> (r: Option<TimeValue>)
    ensures
        r == time_of(s@),
{
    match speedate::Time::parse_str(s) {
        Ok(t) => Some(TimeValue {
            hour: t.hour,
            minute: t.minute,
            second: t.second,
            microsecond: t.microsecond,
            tz_offset: t.tz_offset,
        }),
        Err(_) => None,
    }
}

// ---------------------------------------------------------------------------
// Classification

/// The special float words after a sign: `inf` or `nan`.
pub open spec fn special_of(rest: Seq<char>) -> Option<Hint> {
    if rest =~= seq!['i', 'n', 'f'] {
        Some(Hint::Inf)
    } else if rest =~= seq!['n', 'a', 'n'] {
        Some(Hint::Nan)
    } else {
        None
    }
}

/// The first reading that succeeded, in the order date-time, date, time.
pub open spec fn date_time_choice(
    datetime: Option<DateTimeValue>,
    date: Option<DateValue>,
    time: Option<TimeValue>,
) -> Option<DateTime> {
    match (datetime, date, time) {
        (Some(x), _, _) => Some(DateTime::DateTime(x)),
        (None, Some(x), _) => Some(DateTime::Date(x)),
        (None, None, Some(x)) => Some(DateTime::Time(x)),
        (None, None, None) => None,
    }
}

/// Picks the reading of a literal as a date-time, a date or a time: the first
/// that succeeded, in that order.
pub fn pick_date_time(
    datetime: Option<DateTimeValue>,
    date: Option<DateValue>,
    time: Option<TimeValue>,
) -> (r: Option<DateTime>)
    ensures
        r == date_time_choice(datetime, date, time),
{
    match (datetime, date, time) {
        (Some(x), _, _) => Some(DateTime::DateTime(x)),
        (None, Some(x), _) => Some(DateTime::Date(x)),
        (None, None, Some(x)) => Some(DateTime::Time(x)),
        (None, None, None) => None,
    }
}

/// The value of a literal that starts with a sign or a digit, given its hint:
/// digit separators are checked and removed, then a signed `inf` or `nan`, an
/// integer, a float, and (unsigned only) a date-time, a date and a time are
/// tried in that order.
pub open spec fn num_or_date_of(literal: Seq<char>, hint: Hint) -> Result<Val, ErrKind> {
    if !separators_ok(literal) {
        Err(ErrKind::CannotParseValue)
    } else {
        let l = strip_separators(literal);
        match hint {
            Hint::Inf => Ok(Val::Float(FloatV::Infinite(false))),
            Hint::Nan => Ok(Val::Float(FloatV::NaN(false))),
            Hint::Number => {
                if integer_of(l) is Some {
                    Ok(Val::Int(integer_of(l)->0))
                } else if is_float_text(l) {
                    Ok(Val::Float(FloatV::Decimal(l)))
                } else {
                    match date_time_choice(datetime_of(l), date_of(l), time_of(l)) {
                        Some(dt) => Ok(Val::Date(dt)),
                        None => Err(ErrKind::CannotParseValue),
                    }
                }
            },
            Hint::Negative | Hint::Positive => {
                let neg = hint == Hint::Negative;
                let rest = if l.len() > 0 {
                    l.subrange(1, l.len() as int)
                } else {
                    l
                };
                if special_of(rest) == Some(Hint::Inf) {
                    Ok(Val::Float(FloatV::Infinite(neg)))
                } else if special_of(rest) == Some(Hint::Nan) {
                    Ok(Val::Float(FloatV::NaN(neg)))
                } else if integer_of(l) is Some {
                    Ok(Val::Int(integer_of(l)->0))
                } else if is_float_text(l) {
                    Ok(Val::Float(FloatV::Decimal(l)))
                } else {
                    Err(ErrKind::CannotParseValue)
                }
            },
        }
    }
}

/// The value of a trimmed literal span: `inf`, `nan`, `true`, `false`, or a
/// number or date selected by its first character.
pub open spec fn literal_value_of(s: Seq<char>) -> Result<Val, ErrKind> {
    if s =~= seq!['i', 'n', 'f'] {
        Ok(Val::Float(FloatV::Infinite(false)))
    } else if s =~= seq!['n', 'a', 'n'] {
        Ok(Val::Float(FloatV::NaN(false)))
    } else if s =~= seq!['t', 'r', 'u', 'e'] {
        Ok(Val::Bool(true))
    } else if s =~= seq!['f', 'a', 'l', 's', 'e'] {
        Ok(Val::Bool(false))
    } else if s.len() == 0 {
        Err(ErrKind::UnspecifiedValue)
    } else if s[0] == '+' {
        num_or_date_of(s, Hint::Positive)
    } else if s[0] == '-' {
        num_or_date_of(s, Hint::Negative)
    } else if is_dec(s[0]) {
        num_or_date_of(s, Hint::Number)
    } else {
        Err(ErrKind::CannotParseValue)
    }
}

/// Whether `s` holds exactly the characters of `w`.
fn is_text(s: &Vec<char>, from: usize, w: &str) -> (r: bool)
    requires
        from <= s@.len(),
    ensures
        r == (s@.subrange(from as int, s@.len() as int) =~= w@),
{
    let n = w.unicode_len();
    if s.len() - from != n {
        return false;
    }
    let mut k: usize = 0;
    while k < n
        invariant
            k <= n == w@.len(),
            from <= s@.len() <= usize::MAX,
            s@.len() - from == n,
            forall|i: int| 0 <= i < k ==> s@[from + i] == #[trigger] w@[i],
        decreases n - k,
    {
        if s[from + k] != w.get_char(k) {
            return false;
        }
        k = k + 1;
    }
    true
}

/// The special word after the first character of `literal`, if it is `inf` or `nan`.
pub fn check_if_nan_or_inf(literal: &Vec<char>) -> (r: Option<Hint>)
    ensures
        literal@.len() > 0 ==> r == special_of(literal@.subrange(1, literal@.len() as int)),
        literal@.len() == 0 ==> r is None,
{
    if literal.len() == 0 {
        return None;
    }
    proof {
        reveal_strlit("inf");
        reveal_strlit("nan");
    }
    if is_text(literal, 1, "inf") {
        Some(Hint::Inf)
    } else if is_text(literal, 1, "nan") {
        Some(Hint::Nan)
    } else {
        None
    }
}

/// Reads a literal that starts with a sign or a digit, as a number or a date.
pub fn parse_num_or_date<'a>(literal: &Vec<char>, hint: Hint, slice: RSlice<'a>) -> (r: Result<
    ParsedValue<'a>,
    TomlError,
>)
    requires
        slice.wf(),
    ensures
        match (r, num_or_date_of(literal@, hint)) {
            (Ok(p), Ok(v)) => p.value@ == v && p.section.tokens@ == slice.slice@ && p.section.pos
                == slice.pos && p.section.depth == slice.depth,
            (Err(e), Err(k)) => e.kind() == k,
            _ => false,
        },
{
    if !check_separators(literal) {
        return Err(TomlError::CannotParseValue(ErrLocation::new(RIter::from(slice))));
    }
    let l = remove_separators(literal);
    let value = match hint {
        Hint::Inf => TomlValue::Float(Float::Infinite { negative: false }),
        Hint::Nan => TomlValue::Float(Float::NaN { negative: false }),
        Hint::Number => {
            if let Some(integer) = get_integer(&l) {
                TomlValue::Int(integer)
            } else if check_float_text(&l) {
                TomlValue::Float(Float::Decimal(string_of(&l)))
            } else {
                let text = string_of(&l);
                let choice = pick_date_time(
                    parse_datetime(text.as_str()),
                    parse_date(text.as_str()),
                    parse_time(text.as_str()),
                );
                match choice {
                    Some(dt) => TomlValue::DateTime(dt),
                    None => {
                        return Err(TomlError::CannotParseValue(ErrLocation::new(RIter::from(slice))));
                    },
                }
            }
        },
        Hint::Positive | Hint::Negative => {
            let negative = match hint {
                Hint::Negative => true,
                _ => false,
            };
            match check_if_nan_or_inf(&l) {
                Some(Hint::Inf) => TomlValue::Float(Float::Infinite { negative }),
                Some(Hint::Nan) => TomlValue::Float(Float::NaN { negative }),
                _ => {
                    if let Some(integer) = get_integer(&l) {
                        TomlValue::Int(integer)
                    } else if check_float_text(&l) {
                        TomlValue::Float(Float::Decimal(string_of(&l)))
                    } else {
                        return Err(
                            TomlError::CannotParseValue(ErrLocation::new(RIter::from(slice))),
                        );
                    }
                },
            }
        },
    };
    Ok(ParsedValue { value, section: RIter::from(slice) })
}

/// Reads a trimmed literal span as `inf`, `nan`, a boolean, or a number or date.
pub fn check_for_other_values<'a>(literal: &Vec<char>, slice: RSlice<'a>) -> (r: Result<
    ParsedValue<'a>,
    TomlError,
>)
    requires
        slice.wf(),
    ensures
        match (r, literal_value_of(literal@)) {
            (Ok(p), Ok(v)) => p.value@ == v && p.section.tokens@ == slice.slice@ && p.section.pos
                == slice.pos && p.section.depth == slice.depth,
            (Err(e), Err(k)) => e.kind() == k,
            _ => false,
        },
{
    proof {
        reveal_strlit("inf");
        reveal_strlit("nan");
        reveal_strlit("true");
        reveal_strlit("false");
        assert(literal@.subrange(0, literal@.len() as int) =~= literal@);
    }
    if is_text(literal, 0, "inf") {
        Ok(ParsedValue { value: TomlValue::Float(Float::Infinite { negative: false }), section: RIter::from(slice) })
    } else if is_text(literal, 0, "nan") {
        Ok(ParsedValue { value: TomlValue::Float(Float::NaN { negative: false }), section: RIter::from(slice) })
    } else if is_text(literal, 0, "true") {
        Ok(ParsedValue { value: TomlValue::Boolean(true), section: RIter::from(slice) })
    } else if is_text(literal, 0, "false") {
        Ok(ParsedValue { value: TomlValue::Boolean(false), section: RIter::from(slice) })
    } else if literal.len() == 0 {
        Err(TomlError::UnspecifiedValue(ErrLocation::new(RIter::from(slice))))
    } else if literal[0] == '+' {
        parse_num_or_date(literal, Hint::Positive, slice)
    } else if literal[0] == '-' {
        parse_num_or_date(literal, Hint::Negative, slice)
    } else if '0' <= literal[0] && literal[0] <= '9' {
        parse_num_or_date(literal, Hint::Number, slice)
    } else {
        Err(TomlError::CannotParseValue(ErrLocation::new(RIter::from(slice))))
    }
}

} // verus!
