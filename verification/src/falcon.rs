//! Falcons mark the enemies they dive on.

use vstd::prelude::*;

use crate::components::{indicator_counts, indicator_of, set_indicator, EntityMap};

verus! {

#[derive(Clone, Copy, PartialEq, Eq, Structural, Debug)]
pub struct TargetIndicator {
    // Like a reference count but for falcons instead of pointers :)
    pub falcons: u32,
}

impl TargetIndicator {
    /// An indicator is drawn while some falcon marks its enemy.
    pub fn is_shown(&self) -> (shown: bool)
        ensures
            shown == (self.falcons != 0),
    {
        self.falcons != 0
    }
}

/// The counts after a falcon has marked `target`: one more falcon on it,
/// starting from none.
pub open spec fn marked(counts: Map<u32, u32>, target: u32) -> Map<u32, u32> {
    let before = if counts.contains_key(target) {
        counts[target]
    } else {
        0
    };
    counts.insert(target, (before + 1) as u32)
}

/// The counts after a falcon has landed from `target`: one falcon fewer on
/// it, never below none; an enemy without an indicator is left without one.
pub open spec fn unmarked(counts: Map<u32, u32>, target: u32) -> Map<u32, u32> {
    if counts.contains_key(target) {
        counts.insert(
            target,
            if counts[target] == 0 {
                0
            } else {
                (counts[target] - 1) as u32
            },
        )
    } else {
        counts
    }
}

/// Mark the target of a falcon that has begun its climb.
pub fn mark_target(indicators: &mut EntityMap<u32, TargetIndicator>, target: u32)
    requires
        indicator_counts(*old(indicators)).contains_key(target) ==> indicator_counts(
            *old(indicators),
        )[target] < u32::MAX,
    ensures
        indicator_counts(*final(indicators)) == marked(indicator_counts(*old(indicators)), target),
{
    let falcons: u32 = match indicator_of(indicators, target) {
        Some(indicator) => indicator.falcons,
        None => 0,
    };
    set_indicator(indicators, target, TargetIndicator { falcons: falcons + 1 });
}

/// Unmark the target of a falcon that has reached the ground.
pub fn unmark_target(indicators: &mut EntityMap<u32, TargetIndicator>, target: u32)
    ensures
        indicator_counts(*final(indicators)) == unmarked(
            indicator_counts(*old(indicators)),
            target,
        ),
{
    if let Some(indicator) = indicator_of(indicators, target) {
        set_indicator(
            indicators,
            target,
            TargetIndicator { falcons: indicator.falcons.saturating_sub(1) },
        );
    }
}

/// Marking a target adds one falcon to its count (from none, if it had no
/// indicator) and landing takes one away, never below none; no other enemy's
/// count changes, and an enemy without an indicator gets none from a landing.
pub proof fn lemma_marks_count_falcons(counts: Map<u32, u32>, target: u32, other: u32)
    requires
        other != target,
        counts.contains_key(target) ==> counts[target] < u32::MAX,
    ensures
        marked(counts, target).contains_key(target),
        marked(counts, target)[target] == (if counts.contains_key(target) {
            counts[target] + 1
        } else {
            1
        }),
        counts.contains_key(target) ==> unmarked(counts, target).contains_key(target)
            && unmarked(counts, target)[target] == (if counts[target] > 0 {
            counts[target] - 1
        } else {
            0
        }),
        !counts.contains_key(target) ==> unmarked(counts, target) == counts,
        marked(counts, target).contains_key(other) == counts.contains_key(other),
        unmarked(counts, target).contains_key(other) == counts.contains_key(other),
        counts.contains_key(other) ==> marked(counts, target)[other] == counts[other]
            && unmarked(counts, target)[other] == counts[other],
{
}

/// A falcon that lands undoes its mark: the counts are those from before it
/// marked its target, but for an indicator that it brought about, which
/// stays with no falcon on it.
pub proof fn lemma_landing_undoes_mark(counts: Map<u32, u32>, target: u32)
    requires
        counts.contains_key(target) ==> counts[target] < u32::MAX,
    ensures
        unmarked(marked(counts, target), target) == (if counts.contains_key(target) {
            counts
        } else {
            counts.insert(target, 0)
        }),
{
    if counts.contains_key(target) {
        assert(unmarked(marked(counts, target), target) =~= counts);
    } else {
        assert(unmarked(marked(counts, target), target) =~= counts.insert(target, 0));
    }
}

} // verus!
