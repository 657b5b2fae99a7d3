use ftrace::clock::millis_of_reading;

#[test]
fn a_reading_that_fits_is_kept() {
    assert_eq!(millis_of_reading(Some(0)), 0);
    assert_eq!(millis_of_reading(Some(1_700_000_000_123)), 1_700_000_000_123);
    assert_eq!(millis_of_reading(Some(u64::MAX as u128)), u64::MAX);
}

#[test]
fn a_reading_that_does_not_fit_is_held_at_the_largest_number() {
    assert_eq!(millis_of_reading(Some(u64::MAX as u128 + 1)), u64::MAX);
    assert_eq!(millis_of_reading(Some(u128::MAX)), u64::MAX);
}

#[test]
fn a_clock_before_the_epoch_reads_zero() {
    assert_eq!(millis_of_reading(None), 0);
}
