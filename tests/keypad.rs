use microwave_time::keypad::{digit_distance, location, Location, NORM_SCALE};

#[test]
fn zero_sits_below_eight() {
    assert_eq!(location(0), Location::new(2, 1));
    assert_eq!(location(8), Location::new(2, 2));
    assert_eq!(location(1), Location::new(1, 4));
    assert_eq!(location(9), Location::new(3, 2));
}

#[test]
fn distance_to_self_is_zero_for_every_digit() {
    for d in 0u8..=9 {
        assert_eq!(digit_distance(d, d), 0);
    }
}

#[test]
fn neighbouring_keys_are_one_pitch_apart() {
    assert_eq!(digit_distance(8, 0), NORM_SCALE);
    assert_eq!(digit_distance(1, 2), NORM_SCALE);
    assert_eq!(digit_distance(2, 5), NORM_SCALE);
}

#[test]
fn diagonal_distance_rounds_down() {
    // 2 * sqrt(2) = 2.828427124...
    assert_eq!(digit_distance(1, 9), 2_828_427);
    // sqrt(1 + 9) = 3.162277660...
    assert_eq!(digit_distance(0, 1), 3_162_277);
}

#[test]
fn distance_is_symmetric() {
    for a in 0u8..=9 {
        for b in 0u8..=9 {
            assert_eq!(digit_distance(a, b), digit_distance(b, a));
        }
    }
}

#[test]
fn sub_and_norm() {
    let v = Location::new(3, 4).sub(Location::new(0, 0));
    assert_eq!(v, Location::new(3, 4));
    assert_eq!(v.norm(), 5 * NORM_SCALE);
    assert_eq!(Location::new(1, 1).distance(Location::new(4, 5)), 5 * NORM_SCALE);
    assert_eq!(Location::new(-128, -128).norm(), 181_019_335);
}
