//! The tolerance window: the cook times close enough to a target to stand in for it.
use vstd::prelude::*;

verus! {

/// The window reaches this percentage of the target, rounded up, to each side ...
pub const PERCENT_ALLOWANCE: u16 = 5;

/// ... plus this many seconds.
pub const BASE_ALLOWANCE: u16 = 3;

/// How far, in seconds, the window reaches to each side of `target`.
pub open spec fn deviation(target: nat) -> nat {
    (BASE_ALLOWANCE + (target * PERCENT_ALLOWANCE + 99) / 100) as nat
}

/// The last second inside the window around `target`.
pub open spec fn window_upper(target: nat) -> nat {
    target + deviation(target)
}

/// The first second inside the window around `target`; the window stops at zero.
pub open spec fn window_lower(target: nat) -> nat {
    if deviation(target) > target {
        0
    } else {
        (target - deviation(target)) as nat
    }
}

/// The window around a target, both ends inclusive.
#[derive(Clone, Copy, Debug, PartialEq, Eq, Structural)]
pub struct Bounds {
    pub upper: u16,
    pub lower: u16,
    pub total_sec: u16,
}

impl Bounds {
    /// This is the window around `target`.
    pub open spec fn is_window_of(self, target: nat) -> bool {
        &&& self.total_sec == target
        &&& self.lower == window_lower(target)
        &&& self.upper == window_upper(target)
    }

    /// The window around `total_secs`.
    pub fn from_total_secs(total_secs: u16) -> (r: Bounds)
        requires
            window_upper(total_secs as nat) <= u16::MAX,
        ensures
            r.is_window_of(total_secs as nat),
            r.lower <= r.total_sec <= r.upper,
    {
        let diff: u16 = ((total_secs as u32 * PERCENT_ALLOWANCE as u32 + 99) / 100) as u16;
        let total_diff: u16 = BASE_ALLOWANCE + diff;
        Bounds {
            upper: total_secs + total_diff,
            lower: total_secs.saturating_sub(total_diff),
            total_sec: total_secs,
        }
    }

    /// Whether `t` lies inside the window.
    pub fn contains(&self, t: u16) -> (r: bool)
        ensures
            r == (self.lower <= t <= self.upper),
    {
        self.lower <= t && t <= self.upper
    }
}

/// The window around any target holds the target, and its lower end never
/// drops below zero.
pub proof fn lemma_window_contains_target(target: nat)
    ensures
        0 <= window_lower(target) <= target <= window_upper(target),
{
}

} // verus!
