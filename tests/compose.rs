use microwave_time::compose::{digits_to_compose, total_seconds_from_digits, total_seconds_from_parts};

#[test]
fn short_times_are_keyed_as_seconds() {
    assert_eq!(digits_to_compose(45), vec![4, 5]);
    assert_eq!(digits_to_compose(5), vec![5]);
    assert_eq!(digits_to_compose(0), vec![0]);
    assert_eq!(digits_to_compose(89), vec![8, 9]);
}

#[test]
fn scenario_ninety_seconds() {
    assert_eq!(digits_to_compose(90), vec![1, 3, 0]);
}

#[test]
fn seconds_are_zero_padded() {
    assert_eq!(digits_to_compose(605), vec![1, 0, 0, 5]);
    assert_eq!(digits_to_compose(65 * 60 + 5), vec![6, 5, 0, 5]);
    assert_eq!(digits_to_compose(330), vec![5, 3, 0]);
}

#[test]
fn largest_time() {
    assert_eq!(digits_to_compose(u16::MAX), vec![1, 0, 9, 2, 1, 5]);
}

#[test]
fn reading_back_digits() {
    assert_eq!(total_seconds_from_digits(&vec![]), 0);
    assert_eq!(total_seconds_from_digits(&vec![7]), 7);
    assert_eq!(total_seconds_from_digits(&vec![4, 5]), 45);
    assert_eq!(total_seconds_from_digits(&vec![9, 9]), 99);
    assert_eq!(total_seconds_from_digits(&vec![1, 3, 0]), 90);
    assert_eq!(total_seconds_from_digits(&vec![1, 0, 0, 5]), 605);
    assert_eq!(total_seconds_from_digits(&vec![9; 18]), 9_999_999_999_999_999 * 60 + 99);
}

#[test]
fn round_trip_up_to_ninety_nine_minutes() {
    for t in 0u16..=5999 {
        assert_eq!(total_seconds_from_digits(&digits_to_compose(t)), t as u64);
    }
}

#[test]
fn round_trip_every_sixteen_bit_time() {
    for t in 0u16..=u16::MAX {
        assert_eq!(total_seconds_from_digits(&digits_to_compose(t)), t as u64);
    }
}

#[test]
fn parts_to_seconds() {
    assert_eq!(total_seconds_from_parts(5, 30), 330);
    assert_eq!(total_seconds_from_parts(0, 45), 45);
    assert_eq!(total_seconds_from_parts(1, 75), 135);
}
