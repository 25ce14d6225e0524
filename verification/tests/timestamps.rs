use time_series::mem::{Timestamps, TimestampsMs};
use time_series::ByteSize;

#[test]
fn age_starts_at_zero() {
    let ts = TimestampsMs::new(1234);
    assert_eq!(ts.current_age(), 0);
    assert_eq!(ts.size(), std::mem::size_of::<TimestampsMs>());
}

#[test]
fn age_advances_by_one_per_push() {
    let mut ts = TimestampsMs::new(1000);
    // forward, repeated and backward wall values are all accepted
    let walls = [1001u64, 1001, 900, 5000, 0, u64::MAX, 1];
    for (step, wall) in walls.iter().enumerate() {
        ts.push(*wall);
        assert_eq!(ts.current_age(), step as u64 + 1);
    }
}

#[test]
fn size_grows_with_each_push() {
    let mut ts = TimestampsMs::new(7);
    let base = std::mem::size_of::<TimestampsMs>();
    assert_eq!(ts.size(), base);
    // a repeated timestamp is a zero delta: one marker byte
    ts.push(7);
    assert_eq!(ts.size(), base + 1);
    // a small step: one payload byte and one marker byte
    ts.push(8);
    assert_eq!(ts.size(), base + 3);
    // a backward step of the same width costs the same
    ts.push(7);
    assert_eq!(ts.size(), base + 5);
}

#[test]
fn now_constructors_run() {
    let mut ts = TimestampsMs::new_now();
    assert_eq!(ts.current_age(), 0);
    ts.push_now();
    ts.push_now();
    assert_eq!(ts.current_age(), 2);
}
