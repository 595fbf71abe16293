//! The reloading of the two launchers of a missile tower.

use vstd::prelude::*;

verus! {

/// The launchers of a missile tower after one tick, and which of them fire.
#[derive(Clone, Copy, PartialEq, Eq, Structural, Debug)]
pub struct ReloadStep {
    pub left_reload_countdown: u32,
    pub right_reload_countdown: u32,
    pub fire_right: bool,
    pub fire_left: bool,
}

/// One launcher's tick: it counts down while reloading; once loaded, it fires
/// at a target in range if the other launcher is loaded too, and then
/// reloads for `reload_cost` ticks.
pub open spec fn launcher_tick(countdown: u32, other: u32, reload_cost: u32, target_in_range: bool) -> (
    u32,
    bool,
) {
    if countdown > 0 {
        ((countdown - 1) as u32, false)
    } else if other == 0 && target_in_range {
        (reload_cost, true)
    } else {
        (countdown, false)
    }
}

/// One tick of both launchers: the right one first, then the left one, which
/// sees the right one's new countdown.
pub open spec fn reload_spec(left: u32, right: u32, reload_cost: u32, target_in_range: bool) -> ReloadStep {
    let (right_after, fire_right) = launcher_tick(right, left, reload_cost, target_in_range);
    let (left_after, fire_left) = launcher_tick(left, right_after, reload_cost, target_in_range);
    ReloadStep {
        left_reload_countdown: left_after,
        right_reload_countdown: right_after,
        fire_right,
        fire_left,
    }
}

/// Reload and fire the launchers of a missile tower for one tick.
/// `target_in_range` says whether an enemy is in the tower's range.
pub fn reload_launchers(
    left_reload_countdown: u32,
    right_reload_countdown: u32,
    reload_cost: u32,
    target_in_range: bool,
) -> (step: ReloadStep)
    ensures
        step == reload_spec(
            left_reload_countdown,
            right_reload_countdown,
            reload_cost,
            target_in_range,
        ),
{
    let mut left = left_reload_countdown;
    let mut right = right_reload_countdown;
    let mut fire_right = false;
    let mut fire_left = false;

    if right > 0 {
        right = right - 1;
    } else if left <= 0 {
        if target_in_range {
            fire_right = true;
            right = reload_cost;
        }
    }

    if left > 0 {
        left = left - 1;
    } else if right <= 0 {
        if target_in_range {
            fire_left = true;
            left = reload_cost;
        }
    }

    ReloadStep {
        left_reload_countdown: left,
        right_reload_countdown: right,
        fire_right,
        fire_left,
    }
}

/// With a positive reload cost, the two launchers never fire on the same
/// tick, and a launcher that fires waits `reload_cost` ticks before it can
/// fire again.
pub proof fn lemma_launchers_alternate(
    left: u32,
    right: u32,
    reload_cost: u32,
    target_in_range: bool,
)
    requires
        reload_cost > 0,
    ensures
        !(reload_spec(left, right, reload_cost, target_in_range).fire_right && reload_spec(
            left,
            right,
            reload_cost,
            target_in_range,
        ).fire_left),
        reload_spec(left, right, reload_cost, target_in_range).fire_right ==> reload_spec(
            left,
            right,
            reload_cost,
            target_in_range,
        ).right_reload_countdown == reload_cost,
        reload_spec(left, right, reload_cost, target_in_range).fire_left ==> reload_spec(
            left,
            right,
            reload_cost,
            target_in_range,
        ).left_reload_countdown == reload_cost,
{
}

/// Each launcher counts its reload down by one every tick, whether or not a
/// target is in range, and fires only when loaded. The right launcher fires
/// only with both launchers loaded and a target in range; the left one only
/// when it is loaded, the right one is loaded after its tick, and a target is
/// in range. Nothing fires without a target.
pub proof fn lemma_countdowns_run_down(
    left: u32,
    right: u32,
    reload_cost: u32,
    target_in_range: bool,
)
    ensures
        ({
            let step = reload_spec(left, right, reload_cost, target_in_range);
            &&& right > 0 ==> step.right_reload_countdown == right - 1 && !step.fire_right
            &&& left > 0 ==> step.left_reload_countdown == left - 1 && !step.fire_left
            &&& step.fire_right <==> (right == 0 && left == 0 && target_in_range)
            &&& step.fire_left <==> (left == 0 && step.right_reload_countdown == 0
                && target_in_range)
            &&& step.fire_right ==> step.right_reload_countdown == reload_cost
            &&& step.fire_left ==> step.left_reload_countdown == reload_cost
            &&& right == 0 && !step.fire_right ==> step.right_reload_countdown == 0
            &&& left == 0 && !step.fire_left ==> step.left_reload_countdown == 0
        }),
{
}

} // verus!
