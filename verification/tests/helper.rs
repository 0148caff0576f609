use regex_engine::helper::{safe_add, SafeAdd};

#[test]
fn safe_add_returns_the_sum() {
    assert_eq!(5usize.safe_add(&7), Some(12));
    assert_eq!(0usize.safe_add(&0), Some(0));
    assert_eq!(usize::MAX.safe_add(&0), Some(usize::MAX));
}

#[test]
fn safe_add_reports_overflow() {
    assert_eq!(usize::MAX.safe_add(&1), None);
    assert_eq!((usize::MAX - 1).safe_add(&2), None);
}

#[test]
fn safe_add_updates_the_destination() {
    let mut x: usize = 10;
    assert_eq!(safe_add(&mut x, &32, || "overflow"), Ok(()));
    assert_eq!(x, 42);
}

#[test]
fn safe_add_on_overflow_keeps_the_destination_and_calls_the_producer() {
    let mut x: usize = usize::MAX;
    assert_eq!(safe_add(&mut x, &1, || "overflow"), Err("overflow"));
    assert_eq!(x, usize::MAX);
}
