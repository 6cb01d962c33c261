//! Levels, the output tiers of the controller: each pairs an RGB color with a
//! temperature threshold, and the matcher picks the first level, in
//! descending-threshold order, whose threshold the current mean reaches.

use vstd::prelude::*;
use crate::average::Mean;

verus! {

/// An RGB color, one byte per channel.
#[derive(Clone, Copy, PartialEq, Eq, Structural, Debug)]
pub struct Rgb {
    pub r: u8,
    pub g: u8,
    pub b: u8,
}

/// One output tier: the color to apply once the smoothed temperature reaches
/// `threshold` (in millidegrees). Two levels are equal when both fields are,
/// which is what lets the applier detect "no change" across cycles.
#[derive(Clone, Copy, PartialEq, Eq, Structural, Debug)]
pub struct Level {
    pub color: Rgb,
    pub threshold: i64,
}

/// An addressable output channel of the external control utility.
#[derive(Debug)]
pub struct Target {
    pub device: String,
    pub channel: String,
}

/// First level in order whose threshold the mean reaches, if any.
pub open spec fn spec_match(levels: Seq<Level>, m: Mean) -> Option<Level>
    decreases levels.len(),
{
    if levels.len() == 0 {
        Option::None
    } else if m.spec_at_least(levels[0].threshold) {
        Option::Some(levels[0])
    } else {
        spec_match(levels.drop_first(), m)
    }
}

/// Thresholds never increase along the list.
pub open spec fn sorted_descending(levels: Seq<Level>) -> bool {
    forall|i: int, j: int|
        0 <= i <= j < levels.len() ==> levels[i].threshold >= levels[j].threshold
}

/// Scan the levels in order and return the first whose threshold does not
/// exceed the mean (inclusive at equality); none when the mean lies below
/// every threshold, or when the list is empty.
pub fn match_level(levels: &Vec<Level>, m: &Mean) -> (r: Option<Level>)
    ensures
        r == spec_match(levels@, *m),
{
    let n = levels.len();
    let mut i: usize = 0;
    proof {
        assert(levels@.skip(0) =~= levels@);
    }
    while i < n
        invariant
            n == levels@.len(),
            i <= n,
            spec_match(levels@, *m) == spec_match(levels@.skip(i as int), *m),
        decreases n - i,
    {
        let level = levels[i];
        proof {
            assert(levels@.skip(i as int).drop_first() =~= levels@.skip(i + 1));
            assert(levels@.skip(i as int)[0] == levels@[i as int]);
        }
        if m.at_least(level.threshold) {
            return Option::Some(level);
        }
        i = i + 1;
    }
    proof {
        assert(levels@.skip(n as int) =~= Seq::<Level>::empty());
    }
    Option::None
}

/// On a descending-sorted list the matched level is a greatest hit: every
/// level whose threshold the mean reaches has a threshold no larger than the
/// matched one, and a miss means the mean lies below every threshold.
pub proof fn lemma_match_is_highest(levels: Seq<Level>, m: Mean)
    requires
        sorted_descending(levels),
    ensures
        match spec_match(levels, m) {
            Option::Some(l) => m.spec_at_least(l.threshold) && (forall|j: int|
                0 <= j < levels.len() && m.spec_at_least(levels[j].threshold)
                    ==> levels[j].threshold <= l.threshold),
            Option::None => forall|j: int|
                0 <= j < levels.len() ==> !m.spec_at_least(levels[j].threshold),
        },
    decreases levels.len(),
{
    if levels.len() == 0 {
    } else if m.spec_at_least(levels[0].threshold) {
        assert forall|j: int|
            0 <= j < levels.len() && m.spec_at_least(levels[j].threshold) implies levels[j].threshold
            <= levels[0].threshold by {
            assert(levels[0].threshold >= levels[j].threshold);
        }
    } else {
        let rest = levels.drop_first();
        assert(sorted_descending(rest)) by {
            assert(forall|i: int, j: int|
                0 <= i <= j < rest.len() ==> rest[i] == levels[i + 1] && rest[j] == levels[j + 1]);
        }
        lemma_match_is_highest(rest, m);
        match spec_match(levels, m) {
            Option::Some(l) => {
                assert forall|j: int|
                    0 <= j < levels.len() && m.spec_at_least(levels[j].threshold)
                    implies levels[j].threshold <= l.threshold by {
                    if j >= 1 {
                        assert(rest[j - 1] == levels[j]);
                    }
                }
            },
            Option::None => {
                assert forall|j: int| 0 <= j < levels.len()
                    implies !m.spec_at_least(levels[j].threshold) by {
                    if j >= 1 {
                        assert(rest[j - 1] == levels[j]);
                    }
                }
            },
        }
    }
}

} // verus!
