use microwave_time::compose::digits_to_compose;
use microwave_time::cost::combination_time;
use microwave_time::search::{allow_update, make_combinations};
use microwave_time::time::Time;

#[test]
fn scenario_five_thirty() {
    let time = Time::new(5, 30);
    assert_eq!(time.digits, vec![5, 3, 0]);
    assert_eq!(time.base_time(), 915_298_000);
    let r = make_combinations(&time);
    assert_eq!(r.total_seconds, 322);
    assert_eq!(r.digits, vec![5, 2, 2]);
    assert_eq!(r.cost, 200_000_000);
}

#[test]
fn scenario_forty_five() {
    let r = make_combinations(&Time::new(0, 45));
    assert_eq!(r.total_seconds, 44);
    assert_eq!(r.digits, vec![4, 4]);
    assert_eq!(r.cost, 0);
}

#[test]
fn scenario_two_seconds() {
    let r = make_combinations(&Time::new(0, 2));
    assert_eq!(r.total_seconds, 2);
    assert_eq!(r.digits, vec![2]);
    assert_eq!(r.cost, 0);
}

#[test]
fn scenario_ninety_seconds_search() {
    let time = Time::new(1, 30);
    assert_eq!(time.digits, vec![1, 3, 0]);
    let r = make_combinations(&time);
    assert_eq!(r.total_seconds, 88);
    assert_eq!(r.digits, vec![8, 8]);
}

#[test]
fn largest_request() {
    let r = make_combinations(&Time::new(255, 99));
    assert_eq!(r.total_seconds, 15355);
    assert_eq!(r.digits, vec![2, 5, 5, 5, 5]);
    assert_eq!(r.cost, 200_000_000);
}

#[test]
fn never_worse_and_inside_window() {
    for min in 0u8..=20 {
        for sec in 0u8..=59 {
            let time = Time::new(min, sec);
            let r = make_combinations(&time);
            let base = time.bounds.total_sec;
            assert!(r.cost <= combination_time(&digits_to_compose(base)));
            assert!(time.bounds.lower <= r.total_seconds && r.total_seconds <= time.bounds.upper);
            assert_eq!(r.digits, digits_to_compose(r.total_seconds));
            assert_eq!(r.cost, combination_time(&r.digits));
        }
    }
}

#[test]
fn first_candidate_is_always_allowed() {
    let mut previous = None;
    assert!(allow_update(100, 90, &mut previous));
    assert_eq!(previous, Some(10));
}

#[test]
fn only_strictly_closer_candidates_are_allowed() {
    let mut previous = Some(10);
    assert!(!allow_update(100, 110, &mut previous));
    assert_eq!(previous, Some(10));
    assert!(allow_update(100, 105, &mut previous));
    assert_eq!(previous, Some(5));
    assert!(allow_update(100, 100, &mut previous));
    assert_eq!(previous, Some(0));
    assert!(!allow_update(100, 100, &mut previous));
    assert_eq!(previous, Some(0));
}
