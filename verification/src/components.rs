//! The maps from entities to their components. Entities live in insertion
//! ordered hash maps (`indexmap::IndexMap` with the `fnv` hasher), so that
//! iteration order is deterministic. Verified code reaches them through the
//! trusted items below, each of which names what its map holds.

use vstd::prelude::*;

use fnv::{FnvBuildHasher, FnvHasher};
use indexmap::IndexMap;
use std::hash::BuildHasherDefault;

use crate::falcon::TargetIndicator;
use crate::pusillanimous::Pusillanimous;
use crate::targeting::Threat;

verus! {

/// An insertion-ordered map from entities (or positions) to components.
pub type EntityMap<K, V> = IndexMap<K, V, FnvBuildHasher>;

#[verifier::external_type_specification]
#[verifier::external_body]
#[verifier::reject_recursive_types(K)]
#[verifier::reject_recursive_types(V)]
#[verifier::reject_recursive_types(S)]
pub struct ExIndexMap<K, V, S>(IndexMap<K, V, S>);

#[verifier::external_type_specification]
#[verifier::external_body]
#[verifier::reject_recursive_types(H)]
pub struct ExBuildHasherDefault<H>(BuildHasherDefault<H>);

#[verifier::external_type_specification]
#[verifier::external_body]
pub struct ExFnvHasher(FnvHasher);

/// The entries of a pusillanimity map, in order: each entity with the
/// duration of its pusillanimity.
pub uninterp spec fn pusillanimity_entries(m: IndexMap<u32, Pusillanimous, FnvBuildHasher>) -> Seq<
    (u32, u32),
>;

/// The entities that a threat map holds.
pub uninterp spec fn threatened_entities(m: IndexMap<u32, Threat, FnvBuildHasher>) -> Set<u32>;

/// The tower entity at each position of a position map.
pub uninterp spec fn tower_positions(m: IndexMap<(usize, usize), u32, FnvBuildHasher>) -> Map<
    (usize, usize),
    u32,
>;

/// The number of falcons marking each entity of an indicator map.
pub uninterp spec fn indicator_counts(m: IndexMap<u32, TargetIndicator, FnvBuildHasher>) -> Map<
    u32,
    u32,
>;

/// `IndexMap::len`: the number of entries of the map.
#[verifier::external_body]
pub(crate) fn pusillanimity_len(m: &EntityMap<u32, Pusillanimous>) -> (len: usize)
    ensures
        len == pusillanimity_entries(*m).len(),
{
    m.len()
}

/// `IndexMap::get_index`: the entry at position `index`, if there is one,
/// copied out.
#[verifier::external_body]
pub(crate) fn pusillanimity_at(m: &EntityMap<u32, Pusillanimous>, index: usize) -> (entry: Option<
    (u32, Pusillanimous),
>)
    ensures
        index < pusillanimity_entries(*m).len() ==> entry == Some(
            (
                pusillanimity_entries(*m)[index as int].0,
                Pusillanimous { duration: pusillanimity_entries(*m)[index as int].1 },
            ),
        ),
        index >= pusillanimity_entries(*m).len() ==> entry is None,
{
    m.get_index(index).map(|(entity, pusillanimous)| (*entity, *pusillanimous))
}

/// `IndexMap::get_index_mut`: overwrite the component at position `index`,
/// if there is one; keys and order stay as they are.
#[verifier::external_body]
pub(crate) fn set_pusillanimity_at(
    m: &mut EntityMap<u32, Pusillanimous>,
    index: usize,
    pusillanimous: Pusillanimous,
)
    ensures
        index < pusillanimity_entries(*old(m)).len() ==> pusillanimity_entries(*final(m))
            == pusillanimity_entries(*old(m)).update(
            index as int,
            (pusillanimity_entries(*old(m))[index as int].0, pusillanimous.duration),
        ),
        index >= pusillanimity_entries(*old(m)).len() ==> pusillanimity_entries(*final(m))
            == pusillanimity_entries(*old(m)),
{
    if let Some((_, component)) = m.get_index_mut(index) {
        *component = pusillanimous;
    }
}

/// `IndexMap::contains_key`: whether the entity has a threat.
#[verifier::external_body]
pub(crate) fn has_threat(m: &EntityMap<u32, Threat>, entity: u32) -> (b: bool)
    ensures
        b == threatened_entities(*m).contains(entity),
{
    m.contains_key(&entity)
}

/// `IndexMap::remove`: remove the entity's threat, if it has one; every
/// other entity keeps its threat.
#[verifier::external_body]
pub(crate) fn remove_threat(m: &mut EntityMap<u32, Threat>, entity: u32) -> (removed: Option<
    Threat,
>)
    ensures
        removed is Some == threatened_entities(*old(m)).contains(entity),
        threatened_entities(*final(m)) == threatened_entities(*old(m)).remove(entity),
{
    m.remove(&entity)
}

/// `IndexMap::get`: the tower entity at a position, if there is one.
#[verifier::external_body]
pub(crate) fn tower_at(m: &EntityMap<(usize, usize), u32>, pos: (usize, usize)) -> (entity: Option<
    u32,
>)
    ensures
        entity == (if tower_positions(*m).contains_key(pos) {
            Some(tower_positions(*m)[pos])
        } else {
            None
        }),
{
    m.get(&pos).copied()
}

/// No tower at any position.
pub open spec fn no_towers() -> Map<(usize, usize), u32> {
    Map::empty()
}

/// `IndexMap::default`: an empty position map.
#[verifier::external_body]
pub(crate) fn empty_positions() -> (m: EntityMap<(usize, usize), u32>)
    ensures
        tower_positions(m) == no_towers(),
{
    EntityMap::default()
}

/// `IndexMap::insert`: put the tower entity at a position, in place of the
/// one there; every other position keeps its own.
#[verifier::external_body]
pub(crate) fn set_tower_at(m: &mut EntityMap<(usize, usize), u32>, pos: (usize, usize), entity: u32)
    ensures
        tower_positions(*final(m)) == tower_positions(*old(m)).insert(pos, entity),
{
    m.insert(pos, entity);
}

/// `IndexMap::get`: the entity's target indicator, if it has one, copied out.
#[verifier::external_body]
pub(crate) fn indicator_of(m: &EntityMap<u32, TargetIndicator>, entity: u32) -> (indicator: Option<
    TargetIndicator,
>)
    ensures
        indicator == (if indicator_counts(*m).contains_key(entity) {
            Some(TargetIndicator { falcons: indicator_counts(*m)[entity] })
        } else {
            None
        }),
{
    m.get(&entity).copied()
}

/// `IndexMap::insert`: give the entity this indicator, in place of the one it
/// had; every other entity keeps its own.
#[verifier::external_body]
pub(crate) fn set_indicator(
    m: &mut EntityMap<u32, TargetIndicator>,
    entity: u32,
    indicator: TargetIndicator,
)
    ensures
        indicator_counts(*final(m)) == indicator_counts(*old(m)).insert(entity, indicator.falcons),
{
    m.insert(entity, indicator);
}

} // verus!
