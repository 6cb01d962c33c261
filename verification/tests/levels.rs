use liquidtempd::average::Mean;
use liquidtempd::level::{match_level, Level, Rgb};

const RED: Rgb = Rgb { r: 255, g: 0, b: 0 };
const YELLOW: Rgb = Rgb { r: 255, g: 255, b: 0 };
const GREEN: Rgb = Rgb { r: 0, g: 255, b: 0 };

fn levels() -> Vec<Level> {
    vec![
        Level { color: RED, threshold: 55 },
        Level { color: YELLOW, threshold: 45 },
        Level { color: GREEN, threshold: 0 },
    ]
}

#[test]
fn test_match_picks_highest_reached_threshold() {
    // Mean 50: 50 >= 45 but 50 < 55, so the yellow tier matches.
    let m = Mean { sum: 150, count: 3 };
    assert_eq!(match_level(&levels(), &m), Some(Level { color: YELLOW, threshold: 45 }));
}

#[test]
fn test_match_boundary_is_inclusive() {
    // Mean exactly 45.0 (90 / 2) matches yellow, not green.
    let m = Mean { sum: 90, count: 2 };
    assert_eq!(match_level(&levels(), &m), Some(Level { color: YELLOW, threshold: 45 }));
    // A hair below 45 falls through to green.
    let below = Mean { sum: 89, count: 2 };
    assert_eq!(match_level(&levels(), &below), Some(Level { color: GREEN, threshold: 0 }));
}

#[test]
fn test_match_top_tier() {
    let m = Mean { sum: 180, count: 3 };
    assert_eq!(match_level(&levels(), &m), Some(Level { color: RED, threshold: 55 }));
}

#[test]
fn test_no_match_below_all_thresholds() {
    let m = Mean { sum: -10, count: 1 };
    assert_eq!(match_level(&levels(), &m), None);
}

#[test]
fn test_empty_level_list_never_matches() {
    let m = Mean { sum: 100, count: 1 };
    assert_eq!(match_level(&Vec::new(), &m), None);
}

#[test]
fn test_level_equality_is_by_both_fields() {
    let a = Level { color: RED, threshold: 55 };
    let b = Level { color: RED, threshold: 56 };
    let c = Level { color: YELLOW, threshold: 55 };
    assert_eq!(a, Level { color: RED, threshold: 55 });
    assert_ne!(a, b);
    assert_ne!(a, c);
}
