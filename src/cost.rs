//! How long it takes to key in a digit sequence: the finger's travel between
//! consecutive keys, at a fixed speed.
use vstd::prelude::*;
use crate::compose::all_digits;
use crate::keypad::{digit_distance, key_distance, lemma_key_distance_bound};

verus! {

/// Nanoseconds to travel one millionth of a key pitch: 0.2 s per key pitch.
pub const MOVE_NANOS_PER_MICRO_UNIT: u64 = 200;

/// No move between two keys takes this long, in nanoseconds.
pub const MAX_MOVE_NANOS: u64 = 800_000_000;

/// Nanoseconds to move the finger from key `a` to key `b`.
pub open spec fn move_time(a: u8, b: u8) -> nat {
    (key_distance(a, b) * MOVE_NANOS_PER_MICRO_UNIT) as nat
}

/// Nanoseconds to travel along the keys of `s`, one after the other.
pub open spec fn path_time(s: Seq<u8>) -> nat
    decreases s.len(),
{
    if s.len() < 2 {
        0
    } else {
        path_time(s.drop_last()) + move_time(s[s.len() - 2], s[s.len() - 1])
    }
}

/// Estimated nanoseconds to key in `s`. The finger may rest on 0, so when the
/// sequence starts with 0 the move away from it is free.
pub open spec fn entry_cost(s: Seq<u8>) -> nat {
    if s.len() >= 2 && s[0] == 0 {
        path_time(s.subrange(1, s.len() as int))
    } else {
        path_time(s)
    }
}

/// Nanoseconds to move the finger from the key of `num_1` to the key of `num_2`.
pub fn time_to_move(num_1: u8, num_2: u8) -> (r: u64)
    requires
        num_1 <= 9,
        num_2 <= 9,
    ensures
        r as nat == move_time(num_1, num_2),
        r < MAX_MOVE_NANOS,
{
    proof {
        lemma_key_distance_bound(num_1, num_2);
    }
    digit_distance(num_1, num_2) * MOVE_NANOS_PER_MICRO_UNIT
}

/// Estimated nanoseconds to key in `data`.
pub fn combination_time(data: &Vec<u8>) -> (r: u64)
    requires
        all_digits(data@),
        data@.len() * MAX_MOVE_NANOS <= u64::MAX,
    ensures
        r as nat == entry_cost(data@),
{
    let n: usize = data.len();
    if n <= 1 {
        return 0;
    }
    let start: usize = if data[0] == 0 { 1 } else { 0 };
    let mut running_time: u64 = 0;
    let mut i: usize = start + 1;
    while i < n
        invariant
            n == data@.len(),
            all_digits(data@),
            n * MAX_MOVE_NANOS <= u64::MAX,
            start + 1 <= i <= n,
            running_time as nat == path_time(data@.subrange(start as int, i as int)),
            running_time <= (i - start) * MAX_MOVE_NANOS,
        decreases n - i,
    {
        let step: u64 = time_to_move(data[i - 1], data[i]);
        let ghost prefix = data@.subrange(start as int, i + 1);
        assert(prefix.drop_last() =~= data@.subrange(start as int, i as int));
        assert(prefix[prefix.len() - 2] == data@[i - 1] && prefix[prefix.len() - 1] == data@[i as int]);
        running_time = running_time + step;
        i = i + 1;
    }
    assert(start == 0 ==> data@.subrange(0, n as int) =~= data@);
    running_time
}

} // verus!
