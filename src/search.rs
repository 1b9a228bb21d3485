//! The search: every cook time inside the window is a candidate, and the
//! quickest to key in wins.
//!
//! Candidates are scanned in increasing order. One replaces the best so far when
//! it costs no more to key in and lies strictly closer to the target than the
//! last one that was accepted (the first acceptance needs only the cost).
use vstd::prelude::*;
use crate::compose::{compose, digits_to_compose, lemma_compose_digits, lemma_compose_short};
use crate::cost::{combination_time, entry_cost};
use crate::time::{total_of, Time};
use crate::window::{window_lower, window_upper};

verus! {

/// The chosen cook time, its keystrokes, and their estimated entry time.
#[derive(Clone, Debug)]
pub struct CandidateResult {
    pub digits: Vec<u8>,
    pub total_seconds: u16,
    /// Estimated nanoseconds to key in `digits`.
    pub cost: u64,
}

/// Distance between two cook times, in seconds.
pub open spec fn abs_diff(a: nat, b: nat) -> nat {
    if a >= b {
        (a - b) as nat
    } else {
        (b - a) as nat
    }
}

/// Estimated nanoseconds to key in `t` seconds.
pub open spec fn candidate_cost(t: nat) -> nat {
    entry_cost(compose(t))
}

/// A candidate `diff` seconds from the target may replace the best so far, given
/// how far from the target the last accepted one lay (`None`: none accepted yet).
pub open spec fn closer_than(diff: nat, previous: Option<nat>) -> bool {
    match previous {
        None => true,
        Some(p) => diff < p,
    }
}

/// The best cook time once the candidates `t..=hi` have been scanned, starting
/// from `best` with `previous` the distance of the last accepted one.
pub open spec fn scan(target: nat, t: nat, hi: nat, best: nat, previous: Option<nat>) -> nat
    decreases hi + 1 - t,
{
    if t > hi {
        best
    } else if candidate_cost(t) <= candidate_cost(best) && closer_than(abs_diff(t, target), previous) {
        scan(target, t + 1, hi, t, Some(abs_diff(t, target)))
    } else {
        scan(target, t + 1, hi, best, previous)
    }
}

/// The cook time that the search settles on for `target` seconds.
pub open spec fn best_total(target: nat) -> nat {
    scan(target, window_lower(target), window_upper(target), target, None)
}

/// The scan never ends on something dearer than where it started, and it ends
/// where it started or on one of the scanned candidates.
pub proof fn lemma_scan_bounds(target: nat, t: nat, hi: nat, best: nat, previous: Option<nat>)
    ensures
        candidate_cost(scan(target, t, hi, best, previous)) <= candidate_cost(best),
        scan(target, t, hi, best, previous) == best || t <= scan(target, t, hi, best, previous)
            <= hi,
    decreases hi + 1 - t,
{
    if t <= hi {
        if candidate_cost(t) <= candidate_cost(best) && closer_than(abs_diff(t, target), previous) {
            lemma_scan_bounds(target, t + 1, hi, t, Some(abs_diff(t, target)));
        } else {
            lemma_scan_bounds(target, t + 1, hi, best, previous);
        }
    }
}

/// The search never settles on a cook time that takes longer to key in than the
/// requested one.
pub proof fn lemma_search_never_worse(target: nat)
    ensures
        entry_cost(compose(best_total(target))) <= entry_cost(compose(target)),
{
    lemma_scan_bounds(target, window_lower(target), window_upper(target), target, None);
}

/// The search always settles on a cook time inside the window around the target.
pub proof fn lemma_search_within_window(target: nat)
    ensures
        window_lower(target) <= best_total(target) <= window_upper(target),
{
    lemma_scan_bounds(target, window_lower(target), window_upper(target), target, None);
}

/// The view of a remembered distance.
pub open spec fn previous_view(p: Option<u16>) -> Option<nat> {
    match p {
        Some(d) => Some(d as nat),
        None => None,
    }
}

/// Whether `candidate_time` lies strictly closer to `base_time` than the last
/// accepted candidate; if so, remembers its distance as the new one to beat.
pub fn allow_update(base_time: u16, candidate_time: u16, previous_difference: &mut Option<u16>) -> (r: bool)
    ensures
        r == closer_than(abs_diff(candidate_time as nat, base_time as nat), previous_view(*old(previous_difference))),
        *final(previous_difference) == (if r {
            Some(abs_diff(candidate_time as nat, base_time as nat) as u16)
        } else {
            *old(previous_difference)
        }),
{
    let new_diff: u16 = if base_time >= candidate_time {
        base_time - candidate_time
    } else {
        candidate_time - base_time
    };
    let closer: bool = match *previous_difference {
        None => true,
        Some(p) => new_diff < p,
    };
    if closer {
        *previous_difference = Some(new_diff);
    }
    closer
}

/// Searches the window of `time` for the cook time that is quickest to key in.
pub fn make_combinations(time: &Time) -> (r: CandidateResult)
    requires
        time.wf(),
    ensures
        r.total_seconds == best_total(total_of(time.min, time.sec)),
        r.digits@ == compose(r.total_seconds as nat),
        r.cost == entry_cost(r.digits@),
        r.cost <= entry_cost(compose(total_of(time.min, time.sec))),
        window_lower(total_of(time.min, time.sec)) <= r.total_seconds <= window_upper(
            total_of(time.min, time.sec),
        ),
{
    let ghost target = total_of(time.min, time.sec);
    let base: u16 = time.bounds.total_sec;
    let lower: u16 = time.bounds.lower;
    let upper: u16 = time.bounds.upper;
    let mut best_total_secs: u16 = base;
    let mut number_combo: Vec<u8> = digits_to_compose(base);
    proof {
        lemma_compose_digits(target);
        lemma_compose_short(target);
    }
    let mut min_time: u64 = combination_time(&number_combo);
    let mut previous_difference: Option<u16> = None;
    let mut i: u32 = lower as u32;
    while i <= upper as u32
        invariant
            target == base,
            lower == window_lower(target),
            upper == window_upper(target),
            lower <= i <= upper + 1,
            number_combo@ == compose(best_total_secs as nat),
            min_time == candidate_cost(best_total_secs as nat),
            scan(target, i as nat, upper as nat, best_total_secs as nat, previous_view(previous_difference))
                == best_total(target),
        decreases upper + 1 - i,
    {
        let candidate: u16 = i as u16;
        let digits: Vec<u8> = digits_to_compose(candidate);
        proof {
            lemma_compose_digits(candidate as nat);
            lemma_compose_short(candidate as nat);
        }
        let combo_time: u64 = combination_time(&digits);
        if combo_time <= min_time && allow_update(base, candidate, &mut previous_difference) {
            min_time = combo_time;
            number_combo = digits;
            best_total_secs = candidate;
        }
        i = i + 1;
    }
    proof {
        lemma_search_never_worse(target);
        lemma_search_within_window(target);
    }
    CandidateResult { digits: number_combo, total_seconds: best_total_secs, cost: min_time }
}

} // verus!
