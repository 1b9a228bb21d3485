use microwave_time::cost::{combination_time, time_to_move};

#[test]
fn short_sequences_cost_nothing() {
    assert_eq!(combination_time(&vec![]), 0);
    assert_eq!(combination_time(&vec![5]), 0);
    assert_eq!(combination_time(&vec![4, 4]), 0);
}

#[test]
fn one_pitch_takes_a_fifth_of_a_second() {
    assert_eq!(time_to_move(5, 2), 200_000_000);
    assert_eq!(time_to_move(1, 9), 565_685_400);
}

#[test]
fn moves_add_up() {
    // 1 -> 3 is two pitches, 3 -> 0 is sqrt(10)
    assert_eq!(combination_time(&vec![1, 3, 0]), 400_000_000 + 632_455_400);
    assert_eq!(combination_time(&vec![5, 3, 0]), 915_298_000);
    assert_eq!(combination_time(&vec![5, 0]), 400_000_000);
}

#[test]
fn leading_zero_move_is_free() {
    assert_eq!(combination_time(&vec![0, 5]), 0);
    assert_eq!(combination_time(&vec![0, 5, 2]), 200_000_000);
    assert_eq!(combination_time(&vec![5, 0, 5]), 800_000_000);
}
