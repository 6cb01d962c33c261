use liquidtempd::applier::{command_for, hex_rgb, Applier, CycleAction};
use liquidtempd::average::{Mean, MovingAverage};
use liquidtempd::level::{Level, Rgb, Target};

const RED: Rgb = Rgb { r: 255, g: 0, b: 0 };
const YELLOW: Rgb = Rgb { r: 255, g: 255, b: 0 };
const GREEN: Rgb = Rgb { r: 0, g: 255, b: 0 };

fn levels() -> Vec<Level> {
    vec![
        Level { color: RED, threshold: 55 },
        Level { color: YELLOW, threshold: 45 },
        Level { color: GREEN, threshold: 0 },
    ]
}

fn targets() -> Vec<Target> {
    vec![
        Target { device: String::from("Smart Device"), channel: String::from("led1") },
        Target { device: String::from("Commander"), channel: String::from("led2") },
    ]
}

#[test]
fn test_hex_rendering() {
    assert_eq!(hex_rgb(Rgb { r: 255, g: 0, b: 17 }).as_str(), "ff0011");
    assert_eq!(hex_rgb(Rgb { r: 0, g: 0, b: 0 }).as_str(), "000000");
    assert_eq!(hex_rgb(RED).as_str(), "ff0000");
    assert_eq!(hex_rgb(Rgb { r: 0x9a, g: 0xbc, b: 0xde }).as_str(), "9abcde");
}

#[test]
fn test_command_shape() {
    let t = Target { device: String::from("Smart Device"), channel: String::from("led1") };
    let cmd = command_for(&t, RED);
    let expected: Vec<String> = vec![
        String::from("liquidctl"),
        String::from("--match=Smart Device"),
        String::from("set"),
        String::from("led1"),
        String::from("color"),
        String::from("fixed"),
        String::from("ff0000"),
    ];
    assert_eq!(cmd, expected);
}

#[test]
fn test_first_match_is_applied() {
    let ap = Applier::new(levels(), targets());
    let avg = Some(Mean { sum: 150, count: 3 });
    assert_eq!(ap.plan(avg), CycleAction::Apply(Level { color: YELLOW, threshold: 45 }));
}

#[test]
fn test_no_data_skips() {
    let ap = Applier::new(levels(), targets());
    assert_eq!(ap.plan(None), CycleAction::NoData);
}

#[test]
fn test_no_match_reported() {
    let ap = Applier::new(levels(), targets());
    let avg = Some(Mean { sum: -10, count: 1 });
    assert_eq!(ap.plan(avg), CycleAction::NoMatch);
}

#[test]
fn test_reapply_suppressed() {
    // Two consecutive cycles seeing the same level: the action runs once.
    let mut ap = Applier::new(levels(), targets());
    let avg = Some(Mean { sum: 150, count: 3 });
    let mut invocations = 0;
    for _ in 0..2 {
        if let CycleAction::Apply(l) = ap.plan(avg) {
            invocations += ap.commands(l.color).len();
            ap.record_applied(l);
        }
    }
    // One application, made of one command per target.
    assert_eq!(invocations, targets().len());
}

#[test]
fn test_level_change_applies_new_color() {
    let mut ap = Applier::new(levels(), targets());
    let mut ma = MovingAverage::new(3);
    ma.push(40);
    ma.push(50);
    ma.push(60);
    // Average 50.0 matches the yellow tier.
    assert_eq!(ma.avg(), Some(Mean { sum: 150, count: 3 }));
    match ap.plan(ma.avg()) {
        CycleAction::Apply(l) => {
            assert_eq!(l, Level { color: YELLOW, threshold: 45 });
            ap.record_applied(l);
        },
        other => panic!("expected an application, got {:?}", other),
    }
    // One more sample: the window becomes [50, 60, 70], average 60.0 — red.
    ma.push(70);
    assert_eq!(ma.avg(), Some(Mean { sum: 180, count: 3 }));
    match ap.plan(ma.avg()) {
        CycleAction::Apply(l) => {
            assert_eq!(l, Level { color: RED, threshold: 55 });
            // The action carries the new color to every configured target.
            let cmds = ap.commands(l.color);
            assert_eq!(cmds.len(), 2);
            for cmd in &cmds {
                assert_eq!(cmd[6], "ff0000");
            }
            assert_eq!(cmds[0][1], "--match=Smart Device");
            assert_eq!(cmds[1][1], "--match=Commander");
            ap.record_applied(l);
        },
        other => panic!("expected an application, got {:?}", other),
    }
    // A third cycle still at red applies nothing.
    assert_eq!(ap.plan(ma.avg()), CycleAction::AlreadyApplied);
}
