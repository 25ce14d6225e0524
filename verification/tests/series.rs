use time_series::mem::{IntSeries, Metric, TimestampsMs};
use time_series::ByteSize;

fn read_all(series: &IntSeries<TimestampsMs, u64>, ts: &TimestampsMs) -> Vec<Option<u64>> {
    let mut out: Vec<Option<u64>> = Vec::new();
    series.into_vec(ts, &mut out, usize::MAX);
    out
}

fn read_all_i64(series: &IntSeries<TimestampsMs, i64>, ts: &TimestampsMs) -> Vec<Option<i64>> {
    let mut out: Vec<Option<i64>> = Vec::new();
    series.into_vec(ts, &mut out, usize::MAX);
    out
}

/// Drives a series through a list of ticks (each `Some(v)` is a push) and
/// checks the reversed read against the chronological history.
fn check_round_trip_u64(start: u64, ticks: &[Option<u64>]) {
    let mut wall: u64 = 1;
    let mut ts = TimestampsMs::new(wall);
    let mut vals: IntSeries<TimestampsMs, u64> = IntSeries::new(&ts, start);
    for tick in ticks {
        wall += 1;
        ts.push(wall);
        if let Some(v) = tick {
            vals.push(&ts, *v).unwrap();
        }
    }
    let mut out = read_all(&vals, &ts);
    out.reverse();
    assert_eq!(out.len(), ticks.len() + 1);
    assert_eq!(out[0], Some(start));
    assert_eq!(&out[1..], ticks);
}

#[test]
fn scenario_two_pushes_one_gap() {
    let mut ts = TimestampsMs::new(1);
    let mut vals: IntSeries<TimestampsMs, u64> = IntSeries::new(&ts, 100);
    ts.push(2);
    vals.push(&ts, 105).unwrap();
    ts.push(3);
    ts.push(4);
    vals.push(&ts, 90).unwrap();
    let mut out = read_all(&vals, &ts);
    out.reverse();
    assert_eq!(out, vec![Some(100), Some(105), None, Some(90)]);
    // pushing again without advancing the clock must fail and change nothing
    let before = read_all(&vals, &ts);
    let err = vals.push(&ts, 90);
    assert!(err.is_err());
    assert_eq!(read_all(&vals, &ts), before);
}

#[test]
fn round_trip_empty() {
    check_round_trip_u64(7, &[]);
}

#[test]
fn round_trip_all_pushed() {
    check_round_trip_u64(0, &[Some(5), Some(3), Some(3), Some(u64::MAX), Some(0)]);
}

#[test]
fn round_trip_with_gaps() {
    check_round_trip_u64(
        1000,
        &[None, Some(999), None, None, Some(2), None, Some(2), None],
    );
}

#[test]
fn round_trip_only_gaps() {
    check_round_trip_u64(42, &[None, None, None]);
}

#[test]
fn round_trip_i64_swings() {
    let mut wall: u64 = 10;
    let mut ts = TimestampsMs::new(wall);
    let ticks: Vec<Option<i64>> = vec![
        Some(-5),
        None,
        Some(i64::MAX),
        Some(i64::MIN),
        None,
        Some(0),
        Some(-1),
    ];
    let mut vals: IntSeries<TimestampsMs, i64> = IntSeries::new(&ts, -100);
    for tick in &ticks {
        wall += 3;
        ts.push(wall);
        if let Some(v) = tick {
            vals.push(&ts, *v).unwrap();
        }
    }
    let mut out = read_all_i64(&vals, &ts);
    out.reverse();
    assert_eq!(out[0], Some(-100));
    assert_eq!(&out[1..], &ticks[..]);
}

#[test]
fn duplicate_rejection() {
    let ts = TimestampsMs::new(5);
    let mut vals: IntSeries<TimestampsMs, u64> = IntSeries::new(&ts, 10);
    // the clock was never advanced past the creation age
    let r = vals.push(&ts, 11);
    assert!(r.is_err());
    assert_eq!(
        format!("{:?}", r.unwrap_err()),
        format!("{:?}", time_series::mem::PushError::DuplicateValue)
    );
    assert_eq!(read_all(&vals, &ts), vec![Some(10)]);
    assert_eq!(vals.size(), std::mem::size_of::<IntSeries<TimestampsMs, u64>>());
}

#[test]
fn budget_respected() {
    let mut ts = TimestampsMs::new(1);
    let mut vals: IntSeries<TimestampsMs, u64> = IntSeries::new(&ts, 1);
    for step in 0..6u64 {
        ts.push(2 + step);
        if step % 2 == 0 {
            vals.push(&ts, 10 + step).unwrap();
        }
    }
    let full = read_all(&vals, &ts);
    assert_eq!(full.len(), 7);
    for max in 0..10usize {
        let mut out: Vec<Option<u64>> = Vec::new();
        vals.into_vec(&ts, &mut out, max);
        assert!(out.len() <= max);
        let want = max.min(full.len());
        assert_eq!(&out[..], &full[..want]);
    }
}

#[test]
fn budget_head_gap_only() {
    let mut ts = TimestampsMs::new(1);
    let vals: IntSeries<TimestampsMs, u64> = IntSeries::new(&ts, 3);
    for step in 0..5u64 {
        ts.push(2 + step);
    }
    let mut out: Vec<Option<u64>> = Vec::new();
    vals.into_vec(&ts, &mut out, 4);
    assert_eq!(out, vec![None, None, None, None]);
}

#[test]
fn truncate_idempotence() {
    for num2 in 0..5usize {
        for num in num2..6usize {
            let mut ts = TimestampsMs::new(1);
            let mut a: IntSeries<TimestampsMs, u64> = IntSeries::new(&ts, 50);
            let mut b: IntSeries<TimestampsMs, u64> = IntSeries::new(&ts, 50);
            for step in 0..4u64 {
                ts.push(2 + step);
                a.push(&ts, 60 + step).unwrap();
                b.push(&ts, 60 + step).unwrap();
            }
            // a: truncate twice; b: truncate once to the smaller bound
            a.truncate(&ts, num);
            a.truncate(&ts, num2);
            b.truncate(&ts, num2);
            assert_eq!(read_all(&a, &ts), read_all(&b, &ts));
            assert_eq!(a.size(), b.size());
        }
    }
}

#[test]
fn truncate_keeps_newest() {
    let mut ts = TimestampsMs::new(1);
    let mut vals: IntSeries<TimestampsMs, u64> = IntSeries::new(&ts, 1);
    for step in 0..4u64 {
        ts.push(2 + step);
        vals.push(&ts, 10 * (step + 1)).unwrap();
    }
    assert!(vals.truncate(&ts, 2));
    let mut out = read_all(&vals, &ts);
    out.reverse();
    // the two newest entries survive, plus the value recorded just before
    // them, which becomes the new initial value
    assert_eq!(out, vec![Some(20), Some(30), Some(40)]);
}

#[test]
fn truncate_head_gap_exhausts_window() {
    let mut ts = TimestampsMs::new(1);
    let mut vals: IntSeries<TimestampsMs, u64> = IntSeries::new(&ts, 8);
    ts.push(2);
    vals.push(&ts, 9).unwrap();
    ts.push(3);
    ts.push(4);
    // head gap is 2, so a window of 2 leaves nothing stored
    assert!(!vals.truncate(&ts, 2));
    assert_eq!(vals.size(), std::mem::size_of::<IntSeries<TimestampsMs, u64>>());
    let out = read_all(&vals, &ts);
    assert_eq!(out, vec![None, None, Some(9)]);
}

#[test]
fn monotone_size() {
    let mut ts = TimestampsMs::new(1);
    let mut vals: IntSeries<TimestampsMs, u64> = IntSeries::new(&ts, 3);
    assert_eq!(vals.size(), std::mem::size_of::<IntSeries<TimestampsMs, u64>>());
    let mut last = vals.size();
    for step in 0..20u64 {
        ts.push(2 + step);
        if step % 3 != 0 {
            vals.push(&ts, step * step).unwrap();
        }
        let now = vals.size();
        assert!(now >= last);
        last = now;
    }
    vals.truncate(&ts, 4);
    assert!(vals.size() <= last);
}

#[test]
fn size_accounts_for_encoding_width() {
    let base = std::mem::size_of::<IntSeries<TimestampsMs, u64>>();
    let mut ts = TimestampsMs::new(1);
    let mut vals: IntSeries<TimestampsMs, u64> = IntSeries::new(&ts, 5);
    // a zero delta stores one marker byte and no payload
    ts.push(2);
    vals.push(&ts, 5).unwrap();
    assert_eq!(vals.size(), base + 1);
    // a small delta stores one payload byte and one marker byte
    ts.push(3);
    vals.push(&ts, 6).unwrap();
    assert_eq!(vals.size(), base + 3);
    // a huge delta stores eight payload bytes and one marker byte
    ts.push(4);
    vals.push(&ts, u64::MAX).unwrap();
    assert_eq!(vals.size(), base + 12);
    // an un-pushed tick stores nothing until the next push adds one gap byte
    ts.push(5);
    assert_eq!(vals.size(), base + 12);
    ts.push(6);
    vals.push(&ts, 0).unwrap();
    assert_eq!(vals.size(), base + 22);
}

#[test]
fn large_magnitudes_round_trip() {
    check_round_trip_u64(
        u64::MAX,
        &[Some(0), Some(u64::MAX), Some(1), Some(1 << 56), Some(255), Some(256)],
    );
}
