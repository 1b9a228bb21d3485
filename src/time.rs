//! A requested cook time: read from text such as `5:30` or `5.30`, and the
//! values derived from it that the search needs.
use vstd::prelude::*;
use vstd::string::*;
use crate::compose::{compose, digits_to_compose, lemma_compose_digits, lemma_compose_short};
use crate::cost::{combination_time, entry_cost};
use crate::window::{window_upper, Bounds};

verus! {

/// Why a timestamp could not be read.
#[derive(Clone, Copy, Debug, PartialEq, Eq, Structural)]
pub enum Error {
    /// Neither `:` nor `.` separates minutes from seconds.
    MissingChar,
    /// Minutes or seconds are not a number from 0 to 255.
    NotNumber,
    /// The requested part of the text does not exist.
    BadSlice,
    /// More than two characters follow the separator.
    InvalidSeconds,
}

/// The message shown to a user for each error.
pub open spec fn error_message(e: Error) -> Seq<char> {
    match e {
        Error::MissingChar => "Missing a `:` or `.` character for a timestamp"@,
        Error::NotNumber => "Non-Numeric character (or : / .) included in timestamp"@,
        Error::BadSlice => "Non UTF8 characters included in timer"@,
        Error::InvalidSeconds => "Must be a maximum of two characters of seconds"@,
    }
}

impl Error {
    /// The message shown to a user for this error.
    pub fn message(&self) -> (r: &'static str)
        ensures
            r@ == error_message(*self),
    {
        match self {
            Error::MissingChar => "Missing a `:` or `.` character for a timestamp",
            Error::NotNumber => "Non-Numeric character (or : / .) included in timestamp",
            Error::BadSlice => "Non UTF8 characters included in timer",
            Error::InvalidSeconds => "Must be a maximum of two characters of seconds",
        }
    }
}

pub open spec fn is_digit_char(c: char) -> bool {
    '0' <= c && c <= '9'
}

/// The number that a string of decimal digit characters spells.
pub open spec fn char_digits_value(s: Seq<char>) -> nat
    decreases s.len(),
{
    if s.len() == 0 {
        0
    } else {
        char_digits_value(s.drop_last()) * 10 + (s.last() as nat - '0' as nat) as nat
    }
}

/// The text without one leading `+` sign, if it has one.
pub open spec fn unsigned_body(s: Seq<char>) -> Seq<char> {
    if s.len() > 0 && s[0] == '+' {
        s.drop_first()
    } else {
        s
    }
}

/// The byte that the text spells in decimal: an optional `+`, then one or more
/// decimal digits whose value is at most 255; `None` for any other text.
pub open spec fn parse_u8(s: Seq<char>) -> Option<u8> {
    let b = unsigned_body(s);
    if b.len() > 0 && (forall|i: int| 0 <= i < b.len() ==> is_digit_char(#[trigger] b[i]))
        && char_digits_value(b) <= 255 {
        Some(char_digits_value(b) as u8)
    } else {
        None
    }
}

/// The first position at or after `k` that holds `c`.
pub open spec fn find_from(s: Seq<char>, c: char, k: int) -> Option<int>
    decreases s.len() - k,
{
    if k < 0 || k >= s.len() {
        None
    } else if s[k] == c {
        Some(k)
    } else {
        find_from(s, c, k + 1)
    }
}

/// What `_matcher` returns for `s[start..end]`.
pub open spec fn matcher_result(s: Seq<char>, start: int, end: int) -> Result<u8, Error> {
    if !(0 <= start <= end <= s.len()) {
        Err(Error::BadSlice)
    } else {
        match parse_u8(s.subrange(start, end)) {
            Some(v) => Ok(v),
            None => Err(Error::NotNumber),
        }
    }
}

/// Where the separator stands: the first `:`, or failing that the first `.`.
pub open spec fn separator_index(s: Seq<char>) -> Option<int> {
    match find_from(s, ':', 0) {
        Some(i) => Some(i),
        None => find_from(s, '.', 0),
    }
}

/// Minutes and seconds that a timestamp spells, or why it spells none.
pub open spec fn parse_timestamp(s: Seq<char>) -> Result<(u8, u8), Error> {
    match separator_index(s) {
        None => Err(Error::MissingChar),
        Some(i) => if s.len() - (i + 1) > 2 {
            Err(Error::InvalidSeconds)
        } else {
            match matcher_result(s, 0, i) {
                Err(e) => Err(e),
                Ok(m) => match matcher_result(s, i + 1, s.len() as int) {
                    Err(e) => Err(e),
                    Ok(sec) => Ok((m, sec)),
                },
            }
        },
    }
}

/// Seconds in `min` minutes and `sec` seconds.
pub open spec fn total_of(min: u8, sec: u8) -> nat {
    min as nat * 60 + sec as nat
}

proof fn lemma_saturating_step(v: nat, d: nat)
    requires
        d <= 9,
    ensures
        (if v < 256 { v } else { 256 }) * 10 + d >= 256 <==> v * 10 + d >= 256,
        v < 256 ==> (if v < 256 { v } else { 256 }) * 10 + d == v * 10 + d,
{
}

/// The first position at or after `from` that holds `c`.
fn find_char(s: &str, c: char, from: usize) -> (r: Option<usize>)
    requires
        from <= s@.len(),
    ensures
        r matches Some(i) ==> i < s@.len() && find_from(s@, c, from as int) == Some(i as int),
        r is None ==> find_from(s@, c, from as int) is None,
{
    let n: usize = s.unicode_len();
    let mut i: usize = from;
    while i < n
        invariant
            n == s@.len(),
            from <= i <= n,
            find_from(s@, c, from as int) == find_from(s@, c, i as int),
        decreases n - i,
    {
        if s.get_char(i) == c {
            return Some(i);
        }
        i = i + 1;
    }
    None
}

/// Reads `s[from..to]` as a decimal byte.
fn parse_u8_range(s: &str, from: usize, to: usize) -> (r: Option<u8>)
    requires
        from <= to <= s@.len(),
    ensures
        r == parse_u8(s@.subrange(from as int, to as int)),
{
    let ghost text = s@.subrange(from as int, to as int);
    let mut start: usize = from;
    if from < to && s.get_char(from) == '+' {
        start = from + 1;
    }
    assert(unsigned_body(text) =~= s@.subrange(start as int, to as int));
    if start == to {
        return None;
    }
    let mut acc: u16 = 0;
    let mut i: usize = start;
    assert(s@.subrange(start as int, start as int) =~= Seq::<char>::empty());
    while i < to
        invariant
            from <= start <= i <= to <= s@.len(),
            text == s@.subrange(from as int, to as int),
            unsigned_body(text) =~= s@.subrange(start as int, to as int),
            forall|j: int| start <= j < i ==> is_digit_char(#[trigger] s@[j]),
            acc as nat == (if char_digits_value(s@.subrange(start as int, i as int)) < 256 {
                char_digits_value(s@.subrange(start as int, i as int))
            } else {
                256
            }),
        decreases to - i,
    {
        let c: char = s.get_char(i);
        if !('0' <= c && c <= '9') {
            let ghost b = unsigned_body(text);
            assert(b[i - start] == c);
            assert(!is_digit_char(b[i - start]));
            assert(parse_u8(text) is None);
            return None;
        }
        let ghost prefix = s@.subrange(start as int, i + 1);
        assert(prefix.drop_last() =~= s@.subrange(start as int, i as int));
        proof {
            lemma_saturating_step(
                char_digits_value(s@.subrange(start as int, i as int)),
                (c as nat - '0' as nat) as nat,
            );
        }
        let d: u16 = (c as u32 - '0' as u32) as u16;
        acc = acc * 10 + d;
        if acc > 256 {
            acc = 256;
        }
        i = i + 1;
    }
    assert(s@.subrange(start as int, to as int) =~= s@.subrange(start as int, i as int));
    if acc <= 255 {
        Some(acc as u8)
    } else {
        None
    }
}

/// Reads `slice[start..end]`, counted in characters, as a decimal byte.
pub fn _matcher(slice: &str, start: usize, end: usize) -> (r: Result<u8, Error>)
    ensures
        r == matcher_result(slice@, start as int, end as int),
{
    let n: usize = slice.unicode_len();
    if !(start <= end && end <= n) {
        return Err(Error::BadSlice);
    }
    match parse_u8_range(slice, start, end) {
        Some(num) => Ok(num),
        None => Err(Error::NotNumber),
    }
}

/// A requested cook time, with its window of acceptable substitutes and its keystrokes.
#[derive(Clone, Debug)]
pub struct Time {
    pub min: u8,
    pub sec: u8,
    pub bounds: Bounds,
    pub digits: Vec<u8>,
}

impl Time {
    /// The window and the keystrokes belong to this time.
    pub open spec fn wf(&self) -> bool {
        &&& self.bounds.is_window_of(total_of(self.min, self.sec))
        &&& self.digits@ == compose(total_of(self.min, self.sec))
    }

    /// The cook time of `min` minutes and `sec` seconds.
    pub fn new(min: u8, sec: u8) -> (r: Time)
        ensures
            r.wf(),
            r.min == min,
            r.sec == sec,
    {
        let total_secs: u16 = min as u16 * 60 + sec as u16;
        assert(window_upper(total_secs as nat) <= u16::MAX);
        Time { min: min, sec: sec, bounds: Bounds::from_total_secs(total_secs), digits: digits_to_compose(total_secs) }
    }

    /// Reads a timestamp: minutes, then `:` or `.`, then at most two characters of seconds.
    pub fn new_str(arg: &str) -> (r: Result<Time, Error>)
        ensures
            match parse_timestamp(arg@) {
                Ok((m, s)) => r matches Ok(t) && t.wf() && t.min == m && t.sec == s,
                Err(e) => r == Err::<Time, Error>(e),
            },
    {
        let n: usize = arg.unicode_len();
        let split_index: usize = match find_char(arg, ':', 0) {
            Some(index) => index,
            None => match find_char(arg, '.', 0) {
                Some(index) => index,
                None => return Err(Error::MissingChar),
            },
        };
        if n - (split_index + 1) > 2 {
            return Err(Error::InvalidSeconds);
        }
        let min: u8 = match _matcher(arg, 0, split_index) {
            Ok(v) => v,
            Err(e) => return Err(e),
        };
        let sec: u8 = match _matcher(arg, split_index + 1, n) {
            Ok(v) => v,
            Err(e) => return Err(e),
        };
        Ok(Time::new(min, sec))
    }

    /// Estimated nanoseconds to key in this time as requested.
    pub fn base_time(&self) -> (r: u64)
        requires
            self.wf(),
        ensures
            r as nat == entry_cost(self.digits@),
    {
        proof {
            lemma_compose_digits(total_of(self.min, self.sec));
            lemma_compose_short(total_of(self.min, self.sec));
        }
        combination_time(&self.digits)
    }
}

} // verus!
