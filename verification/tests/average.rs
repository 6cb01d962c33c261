use liquidtempd::average::{window_capacity, Mean, MovingAverage};

#[test]
fn test_average() {
    let mut ma = MovingAverage::new(2);
    ma.push(1);
    ma.push(5);
    assert_eq!(ma.avg(), Some(Mean { sum: 6, count: 2 }));
}

#[test]
fn test_window_overflow() {
    let mut ma = MovingAverage::new(2);
    ma.push(1);
    ma.push(5);
    ma.push(7);
    assert_eq!(ma.avg(), Some(Mean { sum: 12, count: 2 }));
}

#[test]
fn test_partial_window() {
    let mut ma = MovingAverage::new(3);
    ma.push(1);
    assert_eq!(ma.avg(), Some(Mean { sum: 1, count: 1 }));
    ma.push(5);
    assert_eq!(ma.avg(), Some(Mean { sum: 6, count: 2 }));
}

#[test]
fn test_empty() {
    let ma = MovingAverage::new(3);
    assert_eq!(ma.avg(), None);
}

#[test]
fn test_window_wraps_repeatedly() {
    let mut ma = MovingAverage::new(2);
    ma.push(1);
    ma.push(5);
    ma.push(7);
    ma.push(9);
    ma.push(11);
    assert_eq!(ma.avg(), Some(Mean { sum: 20, count: 2 }));
}

#[test]
fn test_capacity_one_keeps_latest() {
    let mut ma = MovingAverage::new(1);
    ma.push(40);
    ma.push(60);
    assert_eq!(ma.avg(), Some(Mean { sum: 60, count: 1 }));
}

#[test]
fn test_negative_samples() {
    let mut ma = MovingAverage::new(3);
    ma.push(-10);
    ma.push(4);
    assert_eq!(ma.avg(), Some(Mean { sum: -6, count: 2 }));
}

#[test]
fn test_mean_at_least_inclusive() {
    let m = Mean { sum: 90, count: 2 };
    assert!(m.at_least(45));
    assert!(!m.at_least(46));
    assert!(m.at_least(-45));
    let neg = Mean { sum: -90, count: 2 };
    assert!(neg.at_least(-45));
    assert!(!neg.at_least(-44));
}

#[test]
fn test_window_clamps_to_interval() {
    // A 5 s window with a 10 s sample interval clamps up to 10 s: one sample.
    assert_eq!(window_capacity(5_000, 10_000), 1);
}

#[test]
fn test_window_capacity_rounds_up() {
    assert_eq!(window_capacity(30_000, 3_000), 10);
    assert_eq!(window_capacity(31_000, 3_000), 11);
    assert_eq!(window_capacity(10_000, 10_000), 1);
    assert_eq!(window_capacity(10_001, 10_000), 2);
}
