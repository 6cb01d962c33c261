//! Decision core of the applier task: read the current mean, match a level,
//! and — only when the matched level differs from the last applied one —
//! produce the commands that set every configured target to its color.
//!
//! The surrounding periodic loop (sleeping, locking the shared average,
//! spawning the external utility) lives outside the library; it feeds the
//! observed mean in and carries the planned commands out.

use vstd::prelude::*;
use crate::average::Mean;
use crate::level::{spec_match, match_level, Level, Rgb, Target};

verus! {

/// Lower-case hexadecimal digit for a value below 16.
pub open spec fn hex_digit(n: int) -> char {
    if n == 0 {
        '0'
    } else if n == 1 {
        '1'
    } else if n == 2 {
        '2'
    } else if n == 3 {
        '3'
    } else if n == 4 {
        '4'
    } else if n == 5 {
        '5'
    } else if n == 6 {
        '6'
    } else if n == 7 {
        '7'
    } else if n == 8 {
        '8'
    } else if n == 9 {
        '9'
    } else if n == 10 {
        'a'
    } else if n == 11 {
        'b'
    } else if n == 12 {
        'c'
    } else if n == 13 {
        'd'
    } else if n == 14 {
        'e'
    } else {
        'f'
    }
}

/// Two hexadecimal digits of one byte, high nibble first.
pub open spec fn hex_byte(b: int) -> Seq<char> {
    seq![hex_digit(b / 16), hex_digit(b % 16)]
}

/// Six-digit lower-case hexadecimal form of a color, without a leading `#`,
/// as the external utility expects it.
pub open spec fn spec_hex_rgb(c: Rgb) -> Seq<char> {
    hex_byte(c.r as int) + hex_byte(c.g as int) + hex_byte(c.b as int)
}

fn hex_digit_str(n: u8) -> (s: &'static str)
    requires
        n < 16,
    ensures
        s@.len() == 1,
        s@[0] == hex_digit(n as int),
{
    proof {
        reveal_strlit("0");
        reveal_strlit("1");
        reveal_strlit("2");
        reveal_strlit("3");
        reveal_strlit("4");
        reveal_strlit("5");
        reveal_strlit("6");
        reveal_strlit("7");
        reveal_strlit("8");
        reveal_strlit("9");
        reveal_strlit("a");
        reveal_strlit("b");
        reveal_strlit("c");
        reveal_strlit("d");
        reveal_strlit("e");
        reveal_strlit("f");
    }
    if n == 0 {
        "0"
    } else if n == 1 {
        "1"
    } else if n == 2 {
        "2"
    } else if n == 3 {
        "3"
    } else if n == 4 {
        "4"
    } else if n == 5 {
        "5"
    } else if n == 6 {
        "6"
    } else if n == 7 {
        "7"
    } else if n == 8 {
        "8"
    } else if n == 9 {
        "9"
    } else if n == 10 {
        "a"
    } else if n == 11 {
        "b"
    } else if n == 12 {
        "c"
    } else if n == 13 {
        "d"
    } else if n == 14 {
        "e"
    } else {
        "f"
    }
}

/// Render a color as the six hexadecimal digits the control utility takes.
pub fn hex_rgb(c: Rgb) -> (s: String)
    ensures
        s@ == spec_hex_rgb(c),
{
    let mut s = String::new();
    s.append(hex_digit_str(c.r / 16));
    s.append(hex_digit_str(c.r % 16));
    s.append(hex_digit_str(c.g / 16));
    s.append(hex_digit_str(c.g % 16));
    s.append(hex_digit_str(c.b / 16));
    s.append(hex_digit_str(c.b % 16));
    proof {
        assert(s@ =~= spec_hex_rgb(c));
    }
    s
}

/// Exact argument list of one invocation of the external utility: set
/// `channel` of the device matching `device` to the fixed color.
pub open spec fn spec_command(device: Seq<char>, channel: Seq<char>, color: Rgb) -> Seq<Seq<char>> {
    seq![
        "liquidctl"@,
        "--match="@ + device,
        "set"@,
        channel,
        "color"@,
        "fixed"@,
        spec_hex_rgb(color),
    ]
}

/// Build the argument list (program name first) that applies `color` to one
/// target.
pub fn command_for(target: &Target, color: Rgb) -> (cmd: Vec<String>)
    ensures
        cmd.deep_view() == spec_command(target.device@, target.channel@, color),
{
    let mut cmd: Vec<String> = Vec::new();
    cmd.push(String::from_str("liquidctl"));
    let mut matcher = String::from_str("--match=");
    matcher.append(target.device.as_str());
    cmd.push(matcher);
    cmd.push(String::from_str("set"));
    cmd.push(String::from_str(target.channel.as_str()));
    cmd.push(String::from_str("color"));
    cmd.push(String::from_str("fixed"));
    cmd.push(hex_rgb(color));
    proof {
        assert(cmd.deep_view() =~~= spec_command(target.device@, target.channel@, color));
    }
    cmd
}

/// What one applier cycle decides to do.
#[derive(Clone, Copy, PartialEq, Eq, Structural, Debug)]
pub enum CycleAction {
    /// A level matched and differs from the last applied one: run the
    /// commands, then record the level.
    Apply(Level),
    /// The matched level is the one already applied: do nothing.
    AlreadyApplied,
    /// The mean lies below every threshold: apply nothing, worth reporting.
    NoMatch,
    /// No sample has arrived yet: skip the cycle silently.
    NoData,
}

/// The full decision of one cycle, from the observed mean (if any), the
/// configured levels, and the last applied level.
pub open spec fn spec_plan(levels: Seq<Level>, avg: Option<Mean>, last: Option<Level>) -> CycleAction {
    match avg {
        Option::None => CycleAction::NoData,
        Option::Some(m) => match spec_match(levels, m) {
            Option::None => CycleAction::NoMatch,
            Option::Some(l) => if last == Option::Some(l) {
                CycleAction::AlreadyApplied
            } else {
                CycleAction::Apply(l)
            },
        },
    }
}

/// Decision state of the applier task: the configured levels (sorted
/// descending by threshold by the caller), the configured targets, and the
/// level most recently applied, used purely for change detection.
pub struct Applier {
    levels: Vec<Level>,
    targets: Vec<Target>,
    last: Option<Level>,
}

impl Applier {
    pub closed spec fn spec_levels(&self) -> Seq<Level> {
        self.levels@
    }

    pub closed spec fn spec_targets(&self) -> Seq<Target> {
        self.targets@
    }

    pub closed spec fn spec_last(&self) -> Option<Level> {
        self.last
    }

    /// A fresh applier has applied nothing yet, so the first matched level is
    /// always applied.
    pub fn new(levels: Vec<Level>, targets: Vec<Target>) -> (a: Applier)
        ensures
            a.spec_levels() == levels@,
            a.spec_targets() == targets@,
            a.spec_last() is None,
    {
        Applier { levels, targets, last: Option::None }
    }

    /// Decide one cycle from the observed mean; mutates nothing, so a failed
    /// application can be retried or escalated by the caller.
    pub fn plan(&self, avg: Option<Mean>) -> (act: CycleAction)
        ensures
            act == spec_plan(self.spec_levels(), avg, self.spec_last()),
    {
        match avg {
            Option::None => CycleAction::NoData,
            Option::Some(m) => match match_level(&self.levels, &m) {
                Option::None => CycleAction::NoMatch,
                Option::Some(l) => match self.last {
                    Option::Some(prev) => if prev == l {
                        CycleAction::AlreadyApplied
                    } else {
                        CycleAction::Apply(l)
                    },
                    Option::None => CycleAction::Apply(l),
                },
            },
        }
    }

    /// Record that `level` was successfully applied to every target, so the
    /// next cycle that matches it applies nothing.
    pub fn record_applied(&mut self, level: Level)
        ensures
            final(self).spec_last() == Option::Some(level),
            final(self).spec_levels() == old(self).spec_levels(),
            final(self).spec_targets() == old(self).spec_targets(),
    {
        self.last = Option::Some(level);
    }

    /// One command per configured target, each setting that target to
    /// `color`: applying a level means running all of them.
    pub fn commands(&self, color: Rgb) -> (cmds: Vec<Vec<String>>)
        ensures
            cmds.deep_view().len() == self.spec_targets().len(),
            forall|i: int|
                0 <= i < self.spec_targets().len() ==> cmds.deep_view()[i] == spec_command(
                    self.spec_targets()[i].device@,
                    self.spec_targets()[i].channel@,
                    color,
                ),
    {
        let n = self.targets.len();
        let mut cmds: Vec<Vec<String>> = Vec::new();
        let mut i: usize = 0;
        while i < n
            invariant
                n == self.targets@.len(),
                i <= n,
                cmds.deep_view().len() == i,
                forall|j: int|
                    0 <= j < i ==> cmds.deep_view()[j] == spec_command(
                        self.targets@[j].device@,
                        self.targets@[j].channel@,
                        color,
                    ),
            decreases n - i,
        {
            let cmd = command_for(&self.targets[i], color);
            let ghost prev = cmds.deep_view();
            let ghost cmd_view = cmd.deep_view();
            cmds.push(cmd);
            proof {
                assert(cmds.deep_view() =~~= prev.push(cmd_view));
            }
            i = i + 1;
        }
        cmds
    }
}

/// Idempotence of application: once a cycle has applied level `l` and
/// recorded it, any later cycle whose mean still matches `l` plans no new
/// application, so an unchanged decision never re-invokes the external
/// action.
pub proof fn lemma_reapply_suppressed(
    levels: Seq<Level>,
    m1: Mean,
    m2: Mean,
    last: Option<Level>,
    l: Level,
)
    requires
        spec_plan(levels, Option::Some(m1), last) == CycleAction::Apply(l),
        spec_match(levels, m2) == Option::Some(l),
    ensures
        spec_plan(levels, Option::Some(m2), Option::Some(l)) == CycleAction::AlreadyApplied,
{
}

/// A changed decision is always acted on: whenever the mean matches a level
/// other than the last applied one (or nothing was applied yet), the cycle
/// plans exactly one application, of the newly matched level.
pub proof fn lemma_changed_level_applies(
    levels: Seq<Level>,
    m: Mean,
    last: Option<Level>,
    l: Level,
)
    requires
        spec_match(levels, m) == Option::Some(l),
        last != Option::Some(l),
    ensures
        spec_plan(levels, Option::Some(m), last) == CycleAction::Apply(l),
{
}

} // verus!
