//! Entity ids and the game's run state.

use vstd::prelude::*;

verus! {

/// Stores the next available entity id (old ids are not reused)
#[derive(Clone, Copy, PartialEq, Eq, Structural, Debug)]
pub struct EntityIds(pub u32);

impl EntityIds {
    pub fn next(&mut self) -> (id: u32)
        requires
            old(self).0 < u32::MAX,
        ensures
            id == old(self).0,
            final(self).0 == old(self).0 + 1,
    {
        let id = self.0;
        self.0 = self.0 + 1;
        id
    }
}

impl Default for EntityIds {
    fn default() -> (ids: Self)
        ensures
            ids.0 == 0,
    {
        EntityIds(0)
    }
}

/// Every id handed out before a call of `next` is below every id handed out
/// by it or later: ids are never handed out twice.
pub proof fn lemma_ids_not_reused(earlier: u32, before: EntityIds, id: u32, after: EntityIds)
    requires
        earlier < before.0,
        id == before.0,
        after.0 == before.0 + 1,
    ensures
        earlier < id,
        id < after.0,
{
}

#[derive(Clone, Copy, PartialEq, Eq, Structural, Debug)]
pub enum RunState {
    Paused,
    AutoPaused,
    Playing,
}

impl RunState {
    /// The number by which the game's front end knows the state.
    pub fn code(&self) -> (code: u8)
        ensures
            code == match *self {
                RunState::Paused => 0u8,
                RunState::AutoPaused => 1u8,
                RunState::Playing => 2u8,
            },
    {
        match self {
            RunState::Paused => 0,
            RunState::AutoPaused => 1,
            RunState::Playing => 2,
        }
    }
}

/// The state once construction has been queued: a game that paused itself
/// plays again.
pub open spec fn resumed(state: RunState) -> RunState {
    match state {
        RunState::AutoPaused => RunState::Playing,
        _ => state,
    }
}

/// The state once the build queue has run empty: a game in play pauses
/// itself.
pub open spec fn auto_paused(state: RunState) -> RunState {
    match state {
        RunState::Playing => RunState::AutoPaused,
        _ => state,
    }
}

impl RunState {
    /// Whether the world advances on an update.
    pub fn is_playing(&self) -> (playing: bool)
        ensures
            playing == (*self == RunState::Playing),
    {
        match self {
            RunState::Paused | RunState::AutoPaused => false,
            RunState::Playing => true,
        }
    }

    /// Construction has been queued: resume the game if it paused itself.
    pub fn resume_for_construction(self) -> (state: RunState)
        ensures
            state == resumed(self),
    {
        match self {
            RunState::AutoPaused => RunState::Playing,
            _ => self,
        }
    }

    /// Nothing is left to build: pause the game if it is in play.
    pub fn pause_when_idle(self) -> (state: RunState)
        ensures
            state == auto_paused(self),
    {
        match self {
            RunState::Playing => RunState::AutoPaused,
            _ => self,
        }
    }
}

/// The game never pauses or resumes itself over the player: a game that the
/// player paused stays paused, and no automatic change pauses it that way.
/// Resuming undoes an automatic pause.
pub proof fn lemma_player_pause_kept(state: RunState)
    ensures
        (resumed(state) == RunState::Paused) <==> (state == RunState::Paused),
        (auto_paused(state) == RunState::Paused) <==> (state == RunState::Paused),
        state == RunState::Playing ==> resumed(auto_paused(state)) == state,
        state == RunState::AutoPaused ==> auto_paused(resumed(state)) == state,
{
}

} // verus!
