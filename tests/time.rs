use microwave_time::time::{Error, Time, _matcher};

#[test]
fn reads_colon_and_dot() {
    let t = Time::new_str("5:30").unwrap();
    assert_eq!((t.min, t.sec), (5, 30));
    assert_eq!(t.bounds.total_sec, 330);
    assert_eq!(t.digits, vec![5, 3, 0]);
    let t = Time::new_str("0.45").unwrap();
    assert_eq!((t.min, t.sec), (0, 45));
    assert_eq!(t.digits, vec![4, 5]);
}

#[test]
fn colon_wins_over_dot() {
    assert_eq!(Time::new_str("1.2:3").unwrap_err(), Error::NotNumber);
    let t = Time::new_str("12:3").unwrap();
    assert_eq!((t.min, t.sec), (12, 3));
}

#[test]
fn plus_sign_is_accepted() {
    let t = Time::new_str("+1:+5").unwrap();
    assert_eq!((t.min, t.sec), (1, 5));
}

#[test]
fn seconds_above_fifty_nine_are_kept() {
    let t = Time::new_str("1:75").unwrap();
    assert_eq!(t.bounds.total_sec, 135);
}

#[test]
fn missing_separator() {
    assert_eq!(Time::new_str("530").unwrap_err(), Error::MissingChar);
    assert_eq!(Time::new_str("").unwrap_err(), Error::MissingChar);
}

#[test]
fn too_many_seconds() {
    assert_eq!(Time::new_str("5:300").unwrap_err(), Error::InvalidSeconds);
}

#[test]
fn not_numbers() {
    assert_eq!(Time::new_str("a:30").unwrap_err(), Error::NotNumber);
    assert_eq!(Time::new_str("5:").unwrap_err(), Error::NotNumber);
    assert_eq!(Time::new_str(":30").unwrap_err(), Error::NotNumber);
    assert_eq!(Time::new_str("256:00").unwrap_err(), Error::NotNumber);
    assert_eq!(Time::new_str("5:-1").unwrap_err(), Error::NotNumber);
    assert_eq!(Time::new_str("+:30").unwrap_err(), Error::NotNumber);
}

#[test]
fn largest_minutes() {
    let t = Time::new_str("255:99").unwrap();
    assert_eq!(t.bounds.total_sec, 15399);
    assert_eq!((t.bounds.lower, t.bounds.upper), (14626, 16172));
}

#[test]
fn matcher_reads_a_slice() {
    assert_eq!(_matcher("12:34", 0, 2), Ok(12));
    assert_eq!(_matcher("12:34", 3, 5), Ok(34));
    assert_eq!(_matcher("0001", 0, 4), Ok(1));
    assert_eq!(_matcher("12:34", 1, 3), Err(Error::NotNumber));
    assert_eq!(_matcher("300", 0, 3), Err(Error::NotNumber));
}

#[test]
fn matcher_rejects_missing_slices() {
    assert_eq!(_matcher("12", 2, 1), Err(Error::BadSlice));
    assert_eq!(_matcher("12", 0, 3), Err(Error::BadSlice));
}

#[test]
fn every_error_has_a_message() {
    assert_eq!(Error::MissingChar.message(), "Missing a `:` or `.` character for a timestamp");
    assert_eq!(Error::NotNumber.message(), "Non-Numeric character (or : / .) included in timestamp");
    assert_eq!(Error::BadSlice.message(), "Non UTF8 characters included in timer");
    assert_eq!(Error::InvalidSeconds.message(), "Must be a maximum of two characters of seconds");
}
