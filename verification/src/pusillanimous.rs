//! Pusillanimous enemies run away when threatened: they speed up for a while,
//! then slow down again, and only after a cooldown can they be scared anew.

use vstd::prelude::*;

use crate::components::{
    has_threat, pusillanimity_at, pusillanimity_entries, pusillanimity_len, remove_threat,
    set_pusillanimity_at, threatened_entities, EntityMap,
};
use crate::targeting::Threat;

verus! {

pub const SPEEDY_DURATION: u32 = 100;

pub const COOLDOWN: u32 = 300;

#[derive(Clone, Copy, PartialEq, Eq, Structural, Debug)]
pub struct Pusillanimous {
    pub duration: u32,
}

/// What one tick of pusillanimity does to an enemy.
#[derive(Clone, Copy, PartialEq, Eq, Structural, Debug)]
pub enum Reaction {
    /// Nothing changes for the enemy.
    Calm,
    /// The enemy speeds up (its speed is multiplied by 2.5).
    Flee,
    /// The enemy slows down again (its speed is divided by 2.5).
    Recover,
    /// The enemy forgets the threat that scared it.
    ForgetThreat,
}

/// The duration after one tick that starts at `duration`, and the reaction of
/// that tick; `threatened` says whether the enemy carries a threat.
pub open spec fn reaction_of(duration: u32, threatened: bool) -> (u32, Reaction) {
    if duration == 0 {
        if threatened {
            ((SPEEDY_DURATION + COOLDOWN - 1) as u32, Reaction::Flee)
        } else {
            (0, Reaction::Calm)
        }
    } else if duration == 1 {
        (0, Reaction::ForgetThreat)
    } else if duration == COOLDOWN {
        ((duration - 1) as u32, Reaction::Recover)
    } else {
        ((duration - 1) as u32, Reaction::Calm)
    }
}

impl Pusillanimous {
    /// Advance one tick. A calm enemy with a threat flees; the countdown then
    /// runs through the speedy phase and the cooldown, and at its end the
    /// threat is forgotten.
    pub fn react(&mut self, threatened: bool) -> (reaction: Reaction)
        ensures
            (final(self).duration, reaction) == reaction_of(old(self).duration, threatened),
    {
        match self.duration {
            0 => {
                if threatened {
                    self.duration = SPEEDY_DURATION + COOLDOWN - 1;
                    Reaction::Flee
                } else {
                    Reaction::Calm
                }
            },
            1 => {
                self.duration = 0;
                Reaction::ForgetThreat
            },
            COOLDOWN => {
                self.duration = self.duration - 1;
                Reaction::Recover
            },
            _ => {
                self.duration = self.duration - 1;
                Reaction::Calm
            },
        }
    }
}

/// One tick of pusillanimity: a scared enemy's countdown runs down by one
/// whatever the threats, it recovers its speed exactly when the countdown
/// reaches the cooldown and forgets its threat exactly when it ends; a calm
/// enemy flees exactly when it carries a threat, and then stays scared for
/// the speedy phase and the cooldown.
pub proof fn lemma_tick(duration: u32, threatened: bool)
    ensures
        ({
            let (next, reaction) = reaction_of(duration, threatened);
            &&& duration > 0 ==> next == duration - 1
            &&& duration > 0 ==> (reaction == Reaction::Recover <==> duration == COOLDOWN)
            &&& duration > 0 ==> (reaction == Reaction::ForgetThreat <==> duration == 1)
            &&& duration > 0 ==> reaction != Reaction::Flee
            &&& duration == 0 ==> (reaction == Reaction::Flee <==> threatened)
            &&& duration == 0 && threatened ==> next == SPEEDY_DURATION + COOLDOWN - 1
            &&& duration == 0 && !threatened ==> next == 0 && reaction == Reaction::Calm
        }),
{
}

/// The reactions of successive ticks starting at `duration`, the enemy
/// carrying a threat at tick `i` iff `threats[i]`.
pub open spec fn reactions(duration: u32, threats: Seq<bool>) -> Seq<Reaction>
    decreases threats.len(),
{
    if threats.len() == 0 {
        Seq::empty()
    } else {
        let (next, reaction) = reaction_of(duration, threats[0]);
        seq![reaction] + reactions(next, threats.drop_first())
    }
}

/// The reaction of the tick that starts with `duration` left, once the enemy
/// has fled.
pub open spec fn reaction_while_scared(duration: int) -> Reaction {
    if duration == 1 {
        Reaction::ForgetThreat
    } else if duration == COOLDOWN {
        Reaction::Recover
    } else {
        Reaction::Calm
    }
}

proof fn lemma_scared_run(duration: u32, threats: Seq<bool>)
    requires
        1 <= duration,
        threats.len() == duration,
    ensures
        reactions(duration, threats) == Seq::new(
            duration as nat,
            |i: int| reaction_while_scared(duration - i),
        ),
    decreases duration,
{
    let rest = threats.drop_first();
    let (next, reaction) = reaction_of(duration, threats[0]);
    assert(reaction == reaction_while_scared(duration as int));
    assert(next == duration - 1);
    assert(reactions(duration, threats) == seq![reaction] + reactions(next, rest));
    if duration > 1 {
        lemma_scared_run(next, rest);
    } else {
        assert(rest.len() == 0);
        assert(reactions(next, rest) =~= Seq::empty());
    }
    assert(reactions(duration, threats) =~= Seq::new(
        duration as nat,
        |i: int| reaction_while_scared(duration - i),
    ));
}

/// An enemy that flees stays fast for exactly `SPEEDY_DURATION` ticks, then
/// cools down, and forgets its threat `SPEEDY_DURATION + COOLDOWN - 1` ticks
/// after it fled; threats that come meanwhile change nothing.
pub proof fn lemma_flight_timeline(threats: Seq<bool>)
    requires
        threats.len() == SPEEDY_DURATION + COOLDOWN,
        threats[0],
    ensures
        reactions(0, threats)[0] == Reaction::Flee,
        reactions(0, threats)[SPEEDY_DURATION as int] == Reaction::Recover,
        reactions(0, threats)[(SPEEDY_DURATION + COOLDOWN - 1) as int] == Reaction::ForgetThreat,
        forall|i: int|
            0 < i < SPEEDY_DURATION + COOLDOWN && i != SPEEDY_DURATION && i != SPEEDY_DURATION
                + COOLDOWN - 1 ==> #[trigger] reactions(0, threats)[i] == Reaction::Calm,
{
    let rest = threats.drop_first();
    lemma_scared_run((SPEEDY_DURATION + COOLDOWN - 1) as u32, rest);
    assert(reactions(0, threats) == seq![Reaction::Flee] + reactions(
        (SPEEDY_DURATION + COOLDOWN - 1) as u32,
        rest,
    ));
}

/// The threatened entities after the first `n` entries of a pusillanimity
/// map have had their tick: an entity that forgets its threat loses it.
pub open spec fn threats_after(entries: Seq<(u32, u32)>, threatened: Set<u32>, n: int) -> Set<u32>
    decreases n,
{
    if n <= 0 {
        threatened
    } else {
        let before = threats_after(entries, threatened, n - 1);
        let (entity, duration) = entries[n - 1];
        let (_, reaction) = reaction_of(duration, before.contains(entity));
        if reaction == Reaction::ForgetThreat {
            before.remove(entity)
        } else {
            before
        }
    }
}

/// A tick of pusillanimity never gives an entity a threat, and takes one
/// away only from an entity whose countdown ends on that tick (it had 1 tick
/// left).
pub proof fn lemma_threats_only_forgotten(
    entries: Seq<(u32, u32)>,
    threatened: Set<u32>,
    n: int,
    entity: u32,
)
    requires
        0 <= n <= entries.len(),
    ensures
        threats_after(entries, threatened, n).contains(entity) ==> threatened.contains(entity),
        threatened.contains(entity) && (forall|i: int|
            0 <= i < n ==> #[trigger] entries[i] != (entity, 1u32)) ==> threats_after(
            entries,
            threatened,
            n,
        ).contains(entity),
    decreases n,
{
    if n > 0 {
        lemma_threats_only_forgotten(entries, threatened, n - 1, entity);
    }
}

/// The duration after the tick of entry `i`, and its reaction, the entries
/// before it having had their tick.
pub open spec fn tick_of_entry(entries: Seq<(u32, u32)>, threatened: Set<u32>, i: int) -> (
    u32,
    Reaction,
) {
    reaction_of(entries[i].1, threats_after(entries, threatened, i).contains(entries[i].0))
}

/// One tick of pusillanimity for every enemy, in the map's order: each reacts
/// to whether it carries a threat, and an enemy that forgets its threat loses
/// it. Returns each entity with its reaction; the caller changes the speed of
/// the walkers that flee or recover.
pub fn update_pusillanimity(
    pusillanimous: &mut EntityMap<u32, Pusillanimous>,
    threats: &mut EntityMap<u32, Threat>,
) -> (reactions: Vec<(u32, Reaction)>)
    ensures
        ({
            let entries = pusillanimity_entries(*old(pusillanimous));
            let threatened = threatened_entities(*old(threats));
            &&& pusillanimity_entries(*final(pusillanimous)) == Seq::new(
                entries.len(),
                |i: int| (entries[i].0, tick_of_entry(entries, threatened, i).0),
            )
            &&& threatened_entities(*final(threats)) == threats_after(
                entries,
                threatened,
                entries.len() as int,
            )
            &&& reactions@ == Seq::new(
                entries.len(),
                |i: int| (entries[i].0, tick_of_entry(entries, threatened, i).1),
            )
        }),
{
    let ghost entries = pusillanimity_entries(*pusillanimous);
    let ghost threatened = threatened_entities(*threats);
    let len: usize = pusillanimity_len(pusillanimous);
    let mut reactions: Vec<(u32, Reaction)> = Vec::new();
    let mut i: usize = 0;
    while i < len
        invariant
            len == entries.len(),
            i <= len,
            pusillanimity_entries(*pusillanimous) == Seq::new(
                entries.len(),
                |k: int|
                    if k < i {
                        (entries[k].0, tick_of_entry(entries, threatened, k).0)
                    } else {
                        entries[k]
                    },
            ),
            threatened_entities(*threats) == threats_after(entries, threatened, i as int),
            reactions@ == Seq::new(
                i as nat,
                |k: int| (entries[k].0, tick_of_entry(entries, threatened, k).1),
            ),
        decreases len - i,
    {
        match pusillanimity_at(pusillanimous, i) {
            Some((entity, component)) => {
                let mut component = component;
                let threatened_now = has_threat(threats, entity);
                let reaction = component.react(threatened_now);
                let ghost before_entries = pusillanimity_entries(*pusillanimous);
                set_pusillanimity_at(pusillanimous, i, component);
                if reaction == Reaction::ForgetThreat {
                    remove_threat(threats, entity);
                }
                reactions.push((entity, reaction));
                proof {
                    assert(pusillanimity_entries(*pusillanimous) =~= Seq::new(
                        entries.len(),
                        |k: int|
                            if k < i + 1 {
                                (entries[k].0, tick_of_entry(entries, threatened, k).0)
                            } else {
                                entries[k]
                            },
                    ));
                    assert(reactions@ =~= Seq::new(
                        (i + 1) as nat,
                        |k: int| (entries[k].0, tick_of_entry(entries, threatened, k).1),
                    ));
                }
            },
            None => {},
        }
        i = i + 1;
    }
    proof {
        assert(pusillanimity_entries(*pusillanimous) =~= Seq::new(
            entries.len(),
            |i: int| (entries[i].0, tick_of_entry(entries, threatened, i).0),
        ));
    }
    reactions
}

} // verus!
