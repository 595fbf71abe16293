//! Tower kinds and the stages of a tower's construction.

use vstd::prelude::*;
use vstd::string::StringExecFns;

use crate::components::{empty_positions, set_tower_at, tower_at, tower_positions, EntityMap};

verus! {

#[derive(Clone, Copy, PartialEq, Eq, Structural, Debug)]
pub enum TowerStatus {
    Queued,
    Building,
    Operational,
    Upgrading,
}

pub const SWALLOW_INDEX: usize = 0;

pub const FALCON_INDEX: usize = 4;

pub const TESLA_INDEX: usize = 1;

pub const GAUSS_INDEX: usize = 5;

pub const FIRE_INDEX: usize = 2;

pub const MISSILE_INDEX: usize = 6;

pub const TREE_INDEX: usize = 3;

pub const FACTORY_INDEX: usize = 7;

/// The name by which the front end knows a tower's status; no tower has the
/// empty name.
pub open spec fn status_name(status: Option<TowerStatus>) -> Seq<char> {
    match status {
        Some(TowerStatus::Building) => "building"@,
        Some(TowerStatus::Operational) => "operational"@,
        Some(TowerStatus::Queued) => "queued"@,
        Some(TowerStatus::Upgrading) => "upgrading"@,
        None => ""@,
    }
}

// 'queued' | 'building' | 'operational' | 'upgrading'
pub fn tower_status_name(status: Option<TowerStatus>) -> (name: String)
    ensures
        name@ == status_name(status),
{
    let name: &str = match status {
        Some(TowerStatus::Building) => "building",
        Some(TowerStatus::Operational) => "operational",
        Some(TowerStatus::Queued) => "queued",
        Some(TowerStatus::Upgrading) => "upgrading",
        None => "",
    };
    String::from_str(name)
}

/// The entity of the tower at visible position `row`, `col`, or 0 where there
/// is none (entity 0 is never handed out).
pub fn tower_entity_at(towers_by_pos: &EntityMap<(usize, usize), u32>, row: usize, col: usize) -> (entity: u32)
    ensures
        entity == (if tower_positions(*towers_by_pos).contains_key((row, col)) {
            tower_positions(*towers_by_pos)[(row, col)]
        } else {
            0
        }),
{
    match tower_at(towers_by_pos, (row, col)) {
        Some(entity) => entity,
        None => 0,
    }
}

/// The position map of towers given as (entity, row, col): each position
/// holds the entity of the last tower there.
pub open spec fn positions_of(towers: Seq<(u32, usize, usize)>) -> Map<(usize, usize), u32>
    decreases towers.len(),
{
    if towers.len() == 0 {
        Map::empty()
    } else {
        let (entity, row, col) = towers.last();
        positions_of(towers.drop_last()).insert((row, col), entity)
    }
}

/// A position is indexed exactly when some tower stands there, and it holds
/// the entity of the last tower listed there.
pub proof fn lemma_last_tower_wins(towers: Seq<(u32, usize, usize)>, i: int)
    requires
        0 <= i < towers.len(),
        forall|j: int| i < j < towers.len() ==> (#[trigger] towers[j]).1 != towers[i].1
            || towers[j].2 != towers[i].2,
    ensures
        positions_of(towers).contains_key((towers[i].1, towers[i].2)),
        positions_of(towers)[(towers[i].1, towers[i].2)] == towers[i].0,
    decreases towers.len(),
{
    if i < towers.len() - 1 {
        lemma_last_tower_wins(towers.drop_last(), i);
        assert(towers.last() == towers[towers.len() - 1]);
    }
}

/// No tower stands at a position that no listed tower has.
pub proof fn lemma_only_listed_positions(towers: Seq<(u32, usize, usize)>, pos: (usize, usize))
    requires
        forall|j: int| 0 <= j < towers.len() ==> ((#[trigger] towers[j]).1, towers[j].2) != pos,
    ensures
        !positions_of(towers).contains_key(pos),
    decreases towers.len(),
{
    if towers.len() > 0 {
        assert forall|j: int| 0 <= j < towers.drop_last().len() implies ((
        #[trigger] towers.drop_last()[j]).1, towers.drop_last()[j].2) != pos by {
            assert(towers.drop_last()[j] == towers[j]);
        }
        lemma_only_listed_positions(towers.drop_last(), pos);
        assert(towers.last() == towers[towers.len() - 1]);
    }
}

/// Index the towers, given as (entity, row, col) in the order of the tower
/// map, by their positions.
pub fn build_towers_by_pos(towers: &[(u32, usize, usize)]) -> (by_pos: EntityMap<(usize, usize), u32>)
    ensures
        tower_positions(by_pos) == positions_of(towers@),
{
    let mut by_pos = empty_positions();
    let mut i: usize = 0;
    while i < towers.len()
        invariant
            i <= towers@.len(),
            tower_positions(by_pos) == positions_of(towers@.take(i as int)),
        decreases towers@.len() - i,
    {
        let (entity, row, col) = towers[i];
        set_tower_at(&mut by_pos, (row, col), entity);
        assert(towers@.take(i + 1).drop_last() =~= towers@.take(i as int));
        i = i + 1;
    }
    assert(towers@.take(towers@.len() as int) =~= towers@);
    by_pos
}

} // verus!
