//! The microwave's entry convention: which digits a user keys in for a number
//! of seconds, and which number of seconds a keyed-in digit sequence means.
//!
//! Below 90 seconds the seconds are keyed in as they are (45 is `4 5`). From 90
//! on, the minutes are keyed in without a leading zero, followed by exactly two
//! digits of seconds (90 is `1 3 0`, 65 minutes and 5 seconds is `6 5 0 5`).
use vstd::prelude::*;

verus! {

/// The decimal digits of `n`, most significant first, without leading zeros
/// (`0` is the single digit `0`).
pub open spec fn decimal(n: nat) -> Seq<u8>
    decreases n,
{
    if n < 10 {
        seq![n as u8]
    } else {
        decimal(n / 10).push((n % 10) as u8)
    }
}

/// The number that a sequence of decimal digits spells (the empty sequence spells 0).
pub open spec fn digits_value(s: Seq<u8>) -> nat
    decreases s.len(),
{
    if s.len() == 0 {
        0
    } else {
        digits_value(s.drop_last()) * 10 + s.last() as nat
    }
}

/// Every element is a decimal digit.
pub open spec fn all_digits(s: Seq<u8>) -> bool {
    forall|i: int| 0 <= i < s.len() ==> s[i] <= 9
}

/// The keystrokes for `t` seconds.
pub open spec fn compose(t: nat) -> Seq<u8> {
    if t < 90 {
        decimal(t)
    } else {
        decimal(t / 60) + seq![((t % 60) / 10) as u8, ((t % 60) % 10) as u8]
    }
}

/// The number of seconds that a keyed-in sequence means: the last two digits are
/// seconds and whatever precedes them is minutes.
pub open spec fn total_from_digits(s: Seq<u8>) -> nat {
    if s.len() > 2 {
        digits_value(s.subrange(0, s.len() - 2)) * 60 + digits_value(
            s.subrange(s.len() - 2, s.len() as int),
        )
    } else {
        digits_value(s)
    }
}

pub open spec fn pow10(k: nat) -> nat
    decreases k,
{
    if k == 0 {
        1
    } else {
        10 * pow10((k - 1) as nat)
    }
}

pub proof fn lemma_pow10_monotone(a: nat, b: nat)
    requires
        a <= b,
    ensures
        1 <= pow10(a) <= pow10(b),
    decreases b,
{
    if b > 0 {
        if a < b {
            lemma_pow10_monotone(a, (b - 1) as nat);
        } else {
            lemma_pow10_monotone((a - 1) as nat, (b - 1) as nat);
        }
    }
}

pub proof fn lemma_pow10_values()
    ensures
        pow10(2) == 100,
        pow10(5) == 100_000,
        pow10(16) == 10_000_000_000_000_000,
        pow10(17) == 100_000_000_000_000_000,
{
    reveal_with_fuel(pow10, 18);
}

/// A sequence of `k` digits spells a number below `10^k`.
pub proof fn lemma_digits_value_bound(s: Seq<u8>)
    requires
        all_digits(s),
    ensures
        digits_value(s) < pow10(s.len()),
    decreases s.len(),
{
    if s.len() > 0 {
        lemma_digits_value_bound(s.drop_last());
    }
}

/// The digits of `n` are decimal digits, there is at least one, and there are at
/// most two when `n` is below 100.
pub proof fn lemma_decimal_shape(n: nat)
    ensures
        all_digits(decimal(n)),
        decimal(n).len() >= 1,
        n < 100 ==> decimal(n).len() <= 2,
    decreases n,
{
    if n >= 10 {
        lemma_decimal_shape(n / 10);
    }
}

/// A number below `10^k` has at most `k` digits.
pub proof fn lemma_decimal_len_bound(n: nat, k: nat)
    requires
        k >= 1,
        n < pow10(k),
    ensures
        decimal(n).len() <= k,
    decreases n,
{
    if n >= 10 {
        assert(k >= 2) by {
            if k == 1 {
                assert(pow10(1) == 10 * pow10(0));
            }
        }
        assert(pow10(k) == 10 * pow10((k - 1) as nat));
        lemma_decimal_len_bound(n / 10, (k - 1) as nat);
    }
}

/// The keystrokes for any time that fits in 16 bits number at most seven.
pub proof fn lemma_compose_short(t: nat)
    requires
        t <= u16::MAX,
    ensures
        compose(t).len() <= 7,
{
    lemma_pow10_values();
    lemma_decimal_len_bound(t, 5);
    lemma_decimal_len_bound(t / 60, 5);
}

/// The digits of `n` spell `n`.
pub proof fn lemma_decimal_value(n: nat)
    ensures
        digits_value(decimal(n)) == n,
    decreases n,
{
    if n >= 10 {
        lemma_decimal_value(n / 10);
        let s = decimal(n);
        assert(s.drop_last() =~= decimal(n / 10));
        assert(s.last() as nat == n % 10);
        assert(digits_value(s) == digits_value(s.drop_last()) * 10 + s.last() as nat);
        assert((n / 10) * 10 + n % 10 == n);
    } else {
        let s = decimal(n);
        assert(s.drop_last() =~= Seq::<u8>::empty());
        assert(digits_value(Seq::<u8>::empty()) == 0);
        assert(digits_value(s) == digits_value(s.drop_last()) * 10 + s.last() as nat);
    }
}

/// The keystrokes for `t` are decimal digits.
pub proof fn lemma_compose_digits(t: nat)
    ensures
        all_digits(compose(t)),
        compose(t).len() >= 1,
{
    lemma_decimal_shape(t);
    lemma_decimal_shape(t / 60);
}

/// Reading back the keystrokes composed for `t` seconds gives `t` again.
pub proof fn lemma_compose_round_trip(t: nat)
    ensures
        total_from_digits(compose(t)) == t,
{
    let s = compose(t);
    if t < 90 {
        lemma_decimal_shape(t);
        lemma_decimal_value(t);
    } else {
        let m = decimal(t / 60);
        let sec = t % 60;
        let tail = seq![(sec / 10) as u8, (sec % 10) as u8];
        lemma_decimal_shape(t / 60);
        lemma_decimal_value(t / 60);
        assert(s.subrange(0, s.len() - 2) =~= m);
        assert(s.subrange(s.len() - 2, s.len() as int) =~= tail);
        assert(tail.drop_last().drop_last() =~= Seq::<u8>::empty());
        assert(digits_value(Seq::<u8>::empty()) == 0);
        assert(digits_value(tail.drop_last()) == (sec / 10));
        assert(digits_value(tail) == (sec / 10) * 10 + sec % 10);
    }
}

/// Appends the decimal digits of `n` to `out`.
fn push_decimal(n: u16, out: &mut Vec<u8>)
    ensures
        final(out)@ == old(out)@ + decimal(n as nat),
    decreases n,
{
    if n >= 10 {
        push_decimal(n / 10, out);
    }
    out.push((n % 10) as u8);
    proof {
        if n >= 10 {
            assert(old(out)@ + decimal(n as nat) =~= old(out)@ + decimal((n / 10) as nat) + seq![(n % 10) as u8]);
        } else {
            assert(old(out)@ + decimal(n as nat) =~= old(out)@.push((n % 10) as u8));
        }
    }
}

/// The keystrokes a user enters for `total_seconds` seconds.
pub fn digits_to_compose(total_seconds: u16) -> (r: Vec<u8>)
    ensures
        r@ == compose(total_seconds as nat),
{
    let mut out: Vec<u8> = Vec::new();
    if total_seconds < 90 {
        push_decimal(total_seconds, &mut out);
        assert(out@ =~= decimal(total_seconds as nat));
        return out;
    }
    let minutes: u16 = total_seconds / 60;
    let seconds: u16 = total_seconds % 60;
    push_decimal(minutes, &mut out);
    out.push((seconds / 10) as u8);
    out.push((seconds % 10) as u8);
    assert(out@ =~= compose(total_seconds as nat));
    out
}

/// Seconds in `minutes` minutes and `seconds` seconds.
pub fn total_seconds_from_parts(minutes: u16, seconds: u16) -> (r: u16)
    requires
        minutes * 60 + seconds <= u16::MAX,
    ensures
        r == minutes * 60 + seconds,
{
    minutes * 60 + seconds
}

/// The number spelled by `digits[from..to]`.
fn digits_number(digits: &Vec<u8>, from: usize, to: usize) -> (r: u64)
    requires
        from <= to <= digits@.len(),
        to - from <= 18,
        all_digits(digits@),
    ensures
        r as nat == digits_value(digits@.subrange(from as int, to as int)),
        (r as nat) < pow10((to - from) as nat),
{
    let mut acc: u64 = 0;
    let mut i: usize = from;
    assert(digits@.subrange(from as int, from as int) =~= Seq::<u8>::empty());
    while i < to
        invariant
            from <= i <= to <= digits@.len(),
            to - from <= 18,
            all_digits(digits@),
            acc as nat == digits_value(digits@.subrange(from as int, i as int)),
            (acc as nat) < pow10((i - from) as nat),
        decreases to - i,
    {
        proof {
            lemma_pow10_monotone((i - from) as nat, 17);
            lemma_pow10_values();
        }
        let d: u8 = digits[i];
        assert(digits@.subrange(from as int, i + 1).drop_last() =~= digits@.subrange(from as int, i as int));
        acc = acc * 10 + d as u64;
        i = i + 1;
    }
    acc
}

/// The number of seconds a keyed-in digit sequence means.
pub fn total_seconds_from_digits(digits: &Vec<u8>) -> (r: u64)
    requires
        all_digits(digits@),
        digits@.len() <= 18,
    ensures
        r as nat == total_from_digits(digits@),
{
    let n: usize = digits.len();
    if n > 2 {
        let minutes: u64 = digits_number(digits, 0, n - 2);
        let seconds: u64 = digits_number(digits, n - 2, n);
        proof {
            lemma_pow10_monotone((n - 2) as nat, 16);
            lemma_pow10_values();
        }
        minutes * 60 + seconds
    } else {
        proof {
            assert(digits@.subrange(0, n as int) =~= digits@);
        }
        digits_number(digits, 0, n)
    }
}

} // verus!
