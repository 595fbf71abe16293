//! Calculate and store distances to exits and entrances along a map's path.
//! These distances are measured like a track and field oval in that walkers
//! move along lanes to reach their goal. This means we need to keep track of
//! how many turns walkers have been through.

use vstd::prelude::*;

use super::{
    covers_entrance_ring, end_entrances, end_entrances_upto, entrances_of, lemma_tile_index_bounds,
    side_entrances, side_entrances_upto, tile_index, Tile, MAP_HEIGHT, MAP_WIDTH, TRUE_MAP_HEIGHT,
    TRUE_MAP_WIDTH,
};

verus! {

/// The position that a non-corner path tile points toward; any other tile
/// stays where it is.
pub open spec fn destination(tile: Tile, row: int, col: int) -> (int, int) {
    match tile {
        Tile::North => (row - 1, col),
        Tile::South => (row + 1, col),
        Tile::East => (row, col + 1),
        Tile::West => (row, col - 1),
        _ => (row, col),
    }
}

/// Reading the tile at `row`, `col` stays inside the map, and so does the
/// position it points toward (it never goes below row or column 0).
pub open spec fn destination_readable(map: Seq<Tile>, row: int, col: int) -> bool {
    &&& tile_index(row, col) < map.len()
    &&& map[tile_index(row, col)] == Tile::North ==> row >= 1
    &&& map[tile_index(row, col)] == Tile::West ==> col >= 1
}

/// Return the tile that a path tile points toward (if it is not a corner tile).
/// If the tile is not a path tile, return the original position unchanged.
fn destination_tile(map: &[Tile], true_row: usize, true_col: usize) -> (dest: (usize, usize))
    requires
        destination_readable(map@, true_row as int, true_col as int),
    ensures
        (dest.0 as int, dest.1 as int) == destination(
            map@[tile_index(true_row as int, true_col as int)],
            true_row as int,
            true_col as int,
        ),
{
    assert(map@.len() == map.len());
    proof {
        lemma_tile_index_bounds(true_row as int, true_col as int);
    }
    match map[true_row * TRUE_MAP_WIDTH + true_col] {
        Tile::North => (true_row - 1, true_col),
        Tile::South => (true_row + 1, true_col),
        Tile::East => (true_row, true_col + 1),
        Tile::West => (true_row, true_col - 1),
        _ => (true_row, true_col),
    }
}

/// Whether `row`, `col` lies on the ring at `distance` from the outer edge
/// of the true map.
pub open spec fn at_dist_from_edge(distance: int, row: int, col: int) -> bool {
    ||| row == distance
    ||| col == distance
    ||| row == TRUE_MAP_HEIGHT - 1 - distance
    ||| col == TRUE_MAP_WIDTH - 1 - distance
}

/// Whether or not a tile is a certain distance from the outer edge of the true
/// map. The outer edge of the true map has distance 0. The outer edge of the
/// visible map has distance 2. Entrances and exits should have distance 1.
fn is_at_dist_from_edge(distance: usize, true_row: usize, true_col: usize) -> (b: bool)
    requires
        distance < TRUE_MAP_HEIGHT,
    ensures
        b == at_dist_from_edge(distance as int, true_row as int, true_col as int),
{
    true_row == distance || true_col == distance || true_row == TRUE_MAP_HEIGHT - 1 - distance
        || true_col == TRUE_MAP_WIDTH - 1 - distance
}

/// A non-corner path tile.
pub open spec fn is_straight(tile: Tile) -> bool {
    tile == Tile::North || tile == Tile::South || tile == Tile::East || tile == Tile::West
}

/// The tile at `row`, `col` lies just outside the visible map, is a non-corner
/// path tile and points into it.
pub open spec fn is_entrance_at(map: Seq<Tile>, row: int, col: int) -> bool {
    &&& at_dist_from_edge(1, row, col)
    &&& is_straight(map[tile_index(row, col)])
    &&& {
        let dest = destination(map[tile_index(row, col)], row, col);
        at_dist_from_edge(2, dest.0, dest.1)
    }
}

/// The tile at `row`, `col` lies just outside the visible map, is a non-corner
/// path tile and points away from it.
pub open spec fn is_exit_at(map: Seq<Tile>, row: int, col: int) -> bool {
    &&& at_dist_from_edge(1, row, col)
    &&& is_straight(map[tile_index(row, col)])
    &&& {
        let dest = destination(map[tile_index(row, col)], row, col);
        at_dist_from_edge(0, dest.0, dest.1)
    }
}

fn is_straight_tile(map: &[Tile], true_row: usize, true_col: usize) -> (b: bool)
    requires
        destination_readable(map@, true_row as int, true_col as int),
    ensures
        b == is_straight(map@[tile_index(true_row as int, true_col as int)]),
{
    assert(map@.len() == map.len());
    proof {
        lemma_tile_index_bounds(true_row as int, true_col as int);
    }
    match map[true_row * TRUE_MAP_WIDTH + true_col] {
        Tile::North | Tile::South | Tile::East | Tile::West => true,
        _ => false,
    }
}

/// A tile is an entrance tile if it is a non-corner path tile that points
/// towards the map and is right outside the outer edge of the visible map.
fn is_entrance(map: &[Tile], true_row: usize, true_col: usize) -> (b: bool)
    requires
        at_dist_from_edge(1, true_row as int, true_col as int) ==> destination_readable(
            map@,
            true_row as int,
            true_col as int,
        ),
    ensures
        b == is_entrance_at(map@, true_row as int, true_col as int),
{
    if !is_at_dist_from_edge(1, true_row, true_col) {
        // Return early so that we don't overflow off the edges of the map.
        return false;
    }
    if !is_straight_tile(map, true_row, true_col) {
        return false;
    }
    let (dest_row, dest_col) = destination_tile(map, true_row, true_col);
    is_at_dist_from_edge(2, dest_row, dest_col)
}

/// A tile is an exit tile if it is a non-corner path tile that points away
/// from the map and is right outside the outer edge of the visible map.
fn is_exit(map: &[Tile], true_row: usize, true_col: usize) -> (b: bool)
    requires
        at_dist_from_edge(1, true_row as int, true_col as int) ==> destination_readable(
            map@,
            true_row as int,
            true_col as int,
        ),
    ensures
        b == is_exit_at(map@, true_row as int, true_col as int),
{
    if !is_at_dist_from_edge(1, true_row, true_col) {
        // Return early so that we don't overflow off the edges of the map.
        return false;
    }
    if !is_straight_tile(map, true_row, true_col) {
        return false;
    }
    let (dest_row, dest_col) = destination_tile(map, true_row, true_col);
    is_at_dist_from_edge(0, dest_row, dest_col)
}

#[derive(Clone, Copy, PartialEq, Eq, Structural, Debug)]
pub struct Distance {
    /// How many tiles away we are from the entrace/exit.
    pub tiles: u16,
    /// How many quarter-turns we need to make on the way to the entrance/exit.
    /// Clockwise and counterclockwise turns cancel each other out. Sign follows
    /// math convention, so positive is counterclockwise. Well, counterclockwise
    /// if the y-axis goes down instead of up, so not quite conventional.
    pub rotation: i16,
}

pub type Distances = Vec<Option<Distance>>;

impl Default for Distance {
    fn default() -> (d: Self)
        ensures
            d == (Distance { tiles: 0, rotation: 0 }),
    {
        Distance { tiles: 0, rotation: 0 }
    }
}

/// The quarter-turns that a tile adds along the path from entrance to exit.
pub open spec fn rotation_of(tile: Tile) -> int {
    match tile {
        Tile::EastToNorth | Tile::NorthToWest | Tile::WestToSouth | Tile::SouthToEast => 1,
        Tile::NorthToEast | Tile::WestToNorth | Tile::SouthToWest | Tile::EastToSouth => -1,
        _ => 0,
    }
}

/// We count counterclockwise rotations as positive and clockwise rotations
/// as negative. Clockwise and counterclockwise are measured by the direction
/// of the path, from entrance to exit, not by the direction of movement
/// along the path. So east to north corners result in positive rotation for
/// walkers both with positive and with negative speed. We do this to be
/// consistent with how tiles work: add up the tile distance going toward
/// the entrance and going toward the exit, and you get a fixed value. Adding
/// up the rotation should act similarly. It should give the net rotation from
/// entrance to exit (with the edge case of double counting the current tile).
fn rotation_amount(tile: Tile) -> (r: i16)
    ensures
        r == rotation_of(tile),
{
    match tile {
        Tile::EastToNorth | Tile::NorthToWest | Tile::WestToSouth | Tile::SouthToEast => 1,
        Tile::NorthToEast | Tile::WestToNorth | Tile::SouthToWest | Tile::EastToSouth => -1,
        _ => 0,
    }
}

/// Which end of the path distances are measured to.
#[derive(Clone, Copy, PartialEq, Eq, Structural, Debug)]
pub enum Goal {
    Exit,
    Entrance,
}

/// One step along the path away from the goal: the position from which a
/// walker heading for the goal reaches the tile at `row`, `col`. Only path
/// tiles have such a position.
pub open spec fn step_from(goal: Goal, tile: Tile, row: int, col: int) -> Option<(int, int)> {
    match goal {
        Goal::Exit => match tile {
            Tile::North | Tile::NorthToEast | Tile::NorthToWest => Some((row + 1, col)),
            Tile::South | Tile::SouthToEast | Tile::SouthToWest => Some((row - 1, col)),
            Tile::East | Tile::EastToNorth | Tile::EastToSouth => Some((row, col - 1)),
            Tile::West | Tile::WestToNorth | Tile::WestToSouth => Some((row, col + 1)),
            _ => None,
        },
        Goal::Entrance => match tile {
            Tile::North | Tile::EastToNorth | Tile::WestToNorth => Some((row - 1, col)),
            Tile::South | Tile::EastToSouth | Tile::WestToSouth => Some((row + 1, col)),
            Tile::East | Tile::NorthToEast | Tile::SouthToEast => Some((row, col + 1)),
            Tile::West | Tile::NorthToWest | Tile::SouthToWest => Some((row, col - 1)),
            _ => None,
        },
    }
}

/// The position `p` is a position of the map.
pub open spec fn in_map(map: Seq<Tile>, p: (int, int)) -> bool {
    0 <= p.0 && 0 <= p.1 && tile_index(p.0, p.1) < map.len()
}

/// The tile at position `p`.
pub open spec fn tile_of(map: Seq<Tile>, p: (int, int)) -> Tile {
    map[tile_index(p.0, p.1)]
}

/// Position `p` of the true map is an exit (or an entrance) tile.
pub open spec fn is_goal(map: Seq<Tile>, goal: Goal, p: (int, int)) -> bool {
    &&& 0 <= p.0 < TRUE_MAP_HEIGHT
    &&& 0 <= p.1 < TRUE_MAP_WIDTH
    &&& match goal {
        Goal::Exit => is_exit_at(map, p.0, p.1),
        Goal::Entrance => is_entrance_at(map, p.0, p.1),
    }
}

/// The position reached after `k` steps away from the goal tile `start`, if
/// every step so far left from a path tile and stayed on the map.
pub open spec fn walk(map: Seq<Tile>, goal: Goal, start: (int, int), k: nat) -> Option<(int, int)>
    decreases k,
{
    if k == 0 {
        if in_map(map, start) {
            Some(start)
        } else {
            None
        }
    } else {
        match walk(map, goal, start, (k - 1) as nat) {
            Some(p) => match step_from(goal, tile_of(map, p), p.0, p.1) {
                Some(q) => if in_map(map, q) {
                    Some(q)
                } else {
                    None
                },
                None => None,
            },
            None => None,
        }
    }
}

/// Stepping away from the goal from position `p` stays on the map.
pub open spec fn step_stays(map: Seq<Tile>, goal: Goal, p: (int, int)) -> bool {
    match step_from(goal, tile_of(map, p), p.0, p.1) {
        Some(q) => in_map(map, q),
        None => true,
    }
}

/// Every tile of the first ring of padding, and the position it points
/// toward, can be read.
pub open spec fn ring_readable(map: Seq<Tile>) -> bool {
    forall|row: int, col: int|
        0 <= row < TRUE_MAP_HEIGHT && 0 <= col < TRUE_MAP_WIDTH && at_dist_from_edge(1, row, col)
            ==> destination_readable(map, row, col)
}

/// What the search for distances needs of a map: every tile of the first ring
/// of padding, and the position it points toward, can be read; no step away
/// from a goal tile leaves the map; and the map is small enough for the
/// counters of tiles and turns.
pub open spec fn searchable(map: Seq<Tile>, goal: Goal) -> bool {
    &&& ring_readable(map)
    &&& forall|start: (int, int), k: nat|
        #![trigger walk(map, goal, start, k)]
        is_goal(map, goal, start) ==> match walk(map, goal, start, k) {
            Some(p) => step_stays(map, goal, p),
            None => true,
        }
    &&& map.len() <= i16::MAX
}

/// The entry of tile `j`, found at position `place[j]`, was reached from the
/// tile `parent[j]` one step closer to the goal, turning as that tile turns.
pub open spec fn reached_from_parent(
    map: Seq<Tile>,
    goal: Goal,
    d: Seq<Option<Distance>>,
    place: Seq<(int, int)>,
    parent: Seq<int>,
    j: int,
) -> bool {
    let p = parent[j];
    &&& 0 <= p < d.len()
    &&& d[p] is Some
    &&& d[p].unwrap().tiles + 1 == d[j].unwrap().tiles
    &&& step_from(goal, map[p], place[p].0, place[p].1) == Some(place[j])
    &&& d[j].unwrap().rotation == d[p].unwrap().rotation + rotation_of(map[p])
}

/// The tile one step further from the goal than tile `j` has an entry, at
/// most one tile further than that of `j`.
pub open spec fn next_is_settled(
    map: Seq<Tile>,
    goal: Goal,
    d: Seq<Option<Distance>>,
    place: Seq<(int, int)>,
    j: int,
) -> bool {
    match step_from(goal, map[j], place[j].0, place[j].1) {
        Some(q) => {
            &&& in_map(map, q)
            &&& d[tile_index(q.0, q.1)] is Some
            &&& d[tile_index(q.0, q.1)].unwrap().tiles <= d[j].unwrap().tiles + 1
        },
        None => true,
    }
}

/// The entry of tile `j` is explained: it sits at position `place[j]`; a
/// goal tile has 0 tiles and 0 turns; any other entry was reached from its
/// parent; and the tile one step further from the goal has its entry too.
pub open spec fn entry_explained(
    map: Seq<Tile>,
    goal: Goal,
    d: Seq<Option<Distance>>,
    place: Seq<(int, int)>,
    parent: Seq<int>,
    j: int,
) -> bool {
    &&& in_map(map, place[j])
    &&& tile_index(place[j].0, place[j].1) == j
    &&& d[j].unwrap().tiles == 0 ==> is_goal(map, goal, place[j]) && d[j].unwrap().rotation == 0
    &&& d[j].unwrap().tiles > 0 ==> reached_from_parent(map, goal, d, place, parent, j)
    &&& next_is_settled(map, goal, d, place, j)
}

/// Every entry of `d` is explained by the positions `place` and the parents
/// `parent`.
pub open spec fn explained_by(
    map: Seq<Tile>,
    goal: Goal,
    d: Seq<Option<Distance>>,
    place: Seq<(int, int)>,
    parent: Seq<int>,
) -> bool {
    &&& place.len() == d.len()
    &&& parent.len() == d.len()
    &&& forall|j: int| 0 <= j < d.len() && #[trigger] d[j] is Some ==> entry_explained(map, goal, d, place, parent, j)
}

/// The distances of a breadth-first search from the goal tiles: one entry per
/// tile; every goal tile at 0 tiles and 0 turns; and every entry explained.
/// Then an entry's tile count is the length of the shortest walk from a goal
/// tile to it, and its rotation the turns along such a walk; tiles that no
/// walk reaches have no entry.
pub open spec fn distances_to(map: Seq<Tile>, goal: Goal, d: Seq<Option<Distance>>) -> bool {
    &&& d.len() == map.len()
    &&& forall|row: int, col: int|
        #![trigger is_goal(map, goal, (row, col))]
        is_goal(map, goal, (row, col)) ==> d[tile_index(row, col)] == Some(
            Distance { tiles: 0, rotation: 0 },
        )
    &&& exists|place: Seq<(int, int)>, parent: Seq<int>| #[trigger] explained_by(map, goal, d, place, parent)
}


/// A frontier position as a pair of integers.
spec fn pos(p: (usize, usize)) -> (int, int) {
    (p.0 as int, p.1 as int)
}

/// What the search keeps of the entry of tile `j`, whose tile count is at most
/// `max_tiles`: its position, the goal tile it was reached from (`origin[j]`)
/// by a walk as long as its tile count, and how it was reached.
spec fn entry_tracked(
    map: Seq<Tile>,
    goal: Goal,
    d: Seq<Option<Distance>>,
    place: Seq<(int, int)>,
    parent: Seq<int>,
    origin: Seq<(int, int)>,
    j: int,
    max_tiles: int,
) -> bool {
    let e = d[j].unwrap();
    &&& in_map(map, place[j])
    &&& tile_index(place[j].0, place[j].1) == j
    &&& e.tiles <= max_tiles
    &&& -(e.tiles as int) <= e.rotation <= e.tiles
    &&& is_goal(map, goal, origin[j])
    &&& walk(map, goal, origin[j], e.tiles as nat) == Some(place[j])
    &&& e.tiles == 0 ==> is_goal(map, goal, place[j]) && e.rotation == 0
    &&& e.tiles > 0 ==> reached_from_parent(map, goal, d, place, parent, j)
}

/// Position `m` of a frontier at `level` names a tile whose entry is at that
/// level, found at that position, and whose slot is `m`.
spec fn in_frontier(
    d: Seq<Option<Distance>>,
    place: Seq<(int, int)>,
    slot: Seq<int>,
    frontier: Seq<(usize, usize)>,
    m: int,
    level: int,
) -> bool {
    let j = tile_index(frontier[m].0 as int, frontier[m].1 as int);
    &&& 0 <= j < d.len()
    &&& d[j] is Some
    &&& d[j].unwrap().tiles == level
    &&& place[j] == pos(frontier[m])
    &&& slot[j] == m
}

proof fn lemma_walk_step(map: Seq<Tile>, goal: Goal, start: (int, int), k: nat, p: (int, int))
    requires
        walk(map, goal, start, k) == Some(p),
        step_from(goal, tile_of(map, p), p.0, p.1) is Some,
        in_map(map, step_from(goal, tile_of(map, p), p.0, p.1).unwrap()),
    ensures
        walk(map, goal, start, k + 1) == step_from(goal, tile_of(map, p), p.0, p.1),
{
    assert(walk(map, goal, start, k + 1) == match walk(map, goal, start, k) {
        Some(p) => match step_from(goal, tile_of(map, p), p.0, p.1) {
            Some(q) => if in_map(map, q) {
                Some(q)
            } else {
                None
            },
            None => None,
        },
        None => None,
    });
}

/// The step away from the goal from the tile at `true_row`, `true_col`, if
/// that tile is a path tile.
fn step_away(map: &[Tile], goal: Goal, true_row: usize, true_col: usize) -> (step: Option<
    (usize, usize),
>)
    requires
        in_map(map@, (true_row as int, true_col as int)),
        step_stays(map@, goal, (true_row as int, true_col as int)),
    ensures
        step is Some == step_from(
            goal,
            map@[tile_index(true_row as int, true_col as int)],
            true_row as int,
            true_col as int,
        ) is Some,
        step is Some ==> pos(step.unwrap()) == step_from(
            goal,
            map@[tile_index(true_row as int, true_col as int)],
            true_row as int,
            true_col as int,
        ).unwrap(),
{
    assert(map@.len() == map.len());
    match goal {
        Goal::Exit => match map[true_row * TRUE_MAP_WIDTH + true_col] {
            Tile::North | Tile::NorthToEast | Tile::NorthToWest => Some((true_row + 1, true_col)),
            Tile::South | Tile::SouthToEast | Tile::SouthToWest => Some((true_row - 1, true_col)),
            Tile::East | Tile::EastToNorth | Tile::EastToSouth => Some((true_row, true_col - 1)),
            Tile::West | Tile::WestToNorth | Tile::WestToSouth => Some((true_row, true_col + 1)),
            _ => None,
        },
        Goal::Entrance => match map[true_row * TRUE_MAP_WIDTH + true_col] {
            Tile::North | Tile::EastToNorth | Tile::WestToNorth => Some((true_row - 1, true_col)),
            Tile::South | Tile::EastToSouth | Tile::WestToSouth => Some((true_row + 1, true_col)),
            Tile::East | Tile::NorthToEast | Tile::SouthToEast => Some((true_row, true_col + 1)),
            Tile::West | Tile::NorthToWest | Tile::SouthToWest => Some((true_row, true_col - 1)),
            _ => None,
        },
    }
}

proof fn lemma_filled_bound(filled: Set<int>, d: Seq<Option<Distance>>)
    requires
        forall|j: int| #[trigger] filled.contains(j) <==> 0 <= j < d.len() && d[j] is Some,
    ensures
        filled.finite(),
        filled.len() <= d.len(),
{
    let all = vstd::set_lib::set_int_range(0, d.len() as int);
    vstd::set_lib::lemma_int_range(0, d.len() as int);
    assert(filled.subset_of(all));
    vstd::set_lib::lemma_len_subset(filled, all);
}

/// `filled` holds exactly the tiles that have an entry.
spec fn counted(filled: Set<int>, d: Seq<Option<Distance>>) -> bool {
    &&& filled.finite()
    &&& filled.len() <= d.len()
    &&& forall|j: int| #[trigger] filled.contains(j) <==> 0 <= j < d.len() && d[j] is Some
}

/// Every entry is tracked, with at most `max_tiles` tiles.
#[verifier::opaque]
spec fn all_tracked(
    map: Seq<Tile>,
    goal: Goal,
    d: Seq<Option<Distance>>,
    place: Seq<(int, int)>,
    parent: Seq<int>,
    origin: Seq<(int, int)>,
    max_tiles: int,
) -> bool {
    forall|j: int|
        0 <= j < d.len() && #[trigger] d[j] is Some ==> entry_tracked(
            map,
            goal,
            d,
            place,
            parent,
            origin,
            j,
            max_tiles,
        )
}

/// The entries below `level`, and those at `level` in the first `m` slots of
/// its frontier, have had their next tile settled.
#[verifier::opaque]
spec fn settled_upto(
    map: Seq<Tile>,
    goal: Goal,
    d: Seq<Option<Distance>>,
    place: Seq<(int, int)>,
    slot: Seq<int>,
    level: int,
    m: int,
) -> bool {
    forall|j: int|
        0 <= j < d.len() && #[trigger] d[j] is Some && (d[j].unwrap().tiles < level || (
        d[j].unwrap().tiles == level && 0 <= slot[j] < m)) ==> next_is_settled(map, goal, d, place, j)
}

/// `frontier` lists exactly the entries at `level`, each in its slot.
#[verifier::opaque]
spec fn listed(
    d: Seq<Option<Distance>>,
    place: Seq<(int, int)>,
    slot: Seq<int>,
    frontier: Seq<(usize, usize)>,
    level: int,
) -> bool {
    &&& forall|j: int|
        0 <= j < d.len() && #[trigger] d[j] is Some && d[j].unwrap().tiles == level ==> {
            &&& 0 <= slot[j] < frontier.len()
            &&& tile_index(frontier[slot[j]].0 as int, frontier[slot[j]].1 as int) == j
        }
    &&& forall|mm: int| 0 <= mm < frontier.len() ==> #[trigger] in_frontier(d, place, slot, frontier, mm, level)
}

/// Every goal tile has an entry of 0 tiles and 0 turns.
#[verifier::opaque]
spec fn goals_at_zero(map: Seq<Tile>, goal: Goal, d: Seq<Option<Distance>>) -> bool {
    forall|row: int, col: int|
        #![trigger is_goal(map, goal, (row, col))]
        is_goal(map, goal, (row, col)) ==> {
            &&& 0 <= tile_index(row, col) < d.len()
            &&& d[tile_index(row, col)] == Some(Distance { tiles: 0, rotation: 0 })
        }
}

/// No entry is above `level`, so none is at `level + 1` and an empty
/// frontier lists them all.
proof fn lemma_empty_listed(
    map: Seq<Tile>,
    goal: Goal,
    d: Seq<Option<Distance>>,
    place: Seq<(int, int)>,
    parent: Seq<int>,
    origin: Seq<(int, int)>,
    slot: Seq<int>,
    frontier: Seq<(usize, usize)>,
    level: int,
)
    requires
        all_tracked(map, goal, d, place, parent, origin, level),
        frontier.len() == 0,
    ensures
        listed(d, place, slot, frontier, level + 1),
{
    reveal(all_tracked);
    reveal(listed);
    assert forall|j: int| 0 <= j < d.len() && #[trigger] d[j] is Some implies d[j].unwrap().tiles
        != level + 1 by {
        assert(entry_tracked(map, goal, d, place, parent, origin, j, level));
    }
}

proof fn lemma_tracked_weaken(
    map: Seq<Tile>,
    goal: Goal,
    d: Seq<Option<Distance>>,
    place: Seq<(int, int)>,
    parent: Seq<int>,
    origin: Seq<(int, int)>,
    level: int,
)
    requires
        all_tracked(map, goal, d, place, parent, origin, level),
    ensures
        all_tracked(map, goal, d, place, parent, origin, level + 1),
{
    reveal(all_tracked);
}

/// What the search knows of the tile in slot `m` of the frontier.
proof fn lemma_frontier_entry(
    map: Seq<Tile>,
    goal: Goal,
    d: Seq<Option<Distance>>,
    place: Seq<(int, int)>,
    parent: Seq<int>,
    origin: Seq<(int, int)>,
    slot: Seq<int>,
    frontier: Seq<(usize, usize)>,
    level: int,
    m: int,
)
    requires
        searchable(map, goal),
        d.len() == map.len(),
        all_tracked(map, goal, d, place, parent, origin, level + 1),
        listed(d, place, slot, frontier, level),
        0 <= m < frontier.len(),
    ensures
        ({
            let j = tile_index(frontier[m].0 as int, frontier[m].1 as int);
            &&& 0 <= j < d.len()
            &&& d[j] is Some
            &&& d[j].unwrap().tiles == level
            &&& place[j] == pos(frontier[m])
            &&& slot[j] == m
            &&& entry_tracked(map, goal, d, place, parent, origin, j, level + 1)
            &&& step_stays(map, goal, place[j])
        }),
{
    reveal(all_tracked);
    reveal(listed);
    let j = tile_index(frontier[m].0 as int, frontier[m].1 as int);
    assert(in_frontier(d, place, slot, frontier, m, level));
    assert(entry_tracked(map, goal, d, place, parent, origin, j, level + 1));
    let start = origin[j];
    let k = d[j].unwrap().tiles as nat;
    assert(match walk(map, goal, start, k) {
        Some(p) => step_stays(map, goal, p),
        None => true,
    });
}

/// Once the tile in slot `m` has its next tile settled, the first `m + 1`
/// slots are settled.
proof fn lemma_settle_slot(
    map: Seq<Tile>,
    goal: Goal,
    d: Seq<Option<Distance>>,
    place: Seq<(int, int)>,
    slot: Seq<int>,
    frontier: Seq<(usize, usize)>,
    level: int,
    m: int,
    j: int,
)
    requires
        settled_upto(map, goal, d, place, slot, level, m),
        listed(d, place, slot, frontier, level),
        slot.len() == d.len(),
        0 <= m < frontier.len(),
        j == tile_index(frontier[m].0 as int, frontier[m].1 as int),
        0 <= j < d.len(),
        d[j] is Some,
        d[j].unwrap().tiles == level,
        slot[j] == m,
        next_is_settled(map, goal, d, place, j),
    ensures
        settled_upto(map, goal, d, place, slot, level, m + 1),
{
    reveal(settled_upto);
    reveal(listed);
    assert forall|jj: int|
        0 <= jj < d.len() && #[trigger] d[jj] is Some && (d[jj].unwrap().tiles < level || (
        d[jj].unwrap().tiles == level && 0 <= slot[jj] < m + 1)) implies next_is_settled(
        map,
        goal,
        d,
        place,
        jj,
    ) by {
        if d[jj].unwrap().tiles == level && slot[jj] == m {
            assert(jj == j);
        }
    }
}

/// Filling the empty entry `k` from the entry `j` at `level` keeps what the
/// search knows.
proof fn lemma_fill(
    map: Seq<Tile>,
    goal: Goal,
    old_d: Seq<Option<Distance>>,
    d: Seq<Option<Distance>>,
    old_place: Seq<(int, int)>,
    place: Seq<(int, int)>,
    old_parent: Seq<int>,
    parent: Seq<int>,
    old_origin: Seq<(int, int)>,
    origin: Seq<(int, int)>,
    old_slot: Seq<int>,
    slot: Seq<int>,
    frontier: Seq<(usize, usize)>,
    old_new: Seq<(usize, usize)>,
    new_frontier: Seq<(usize, usize)>,
    level: int,
    m: int,
    j: int,
    k: int,
    q: (int, int),
)
    requires
        old_d.len() == map.len(),
        old_place.len() == map.len(),
        old_parent.len() == map.len(),
        old_origin.len() == map.len(),
        old_slot.len() == map.len(),
        0 <= level,
        all_tracked(map, goal, old_d, old_place, old_parent, old_origin, level + 1),
        settled_upto(map, goal, old_d, old_place, old_slot, level, m),
        listed(old_d, old_place, old_slot, frontier, level),
        listed(old_d, old_place, old_slot, old_new, level + 1),
        goals_at_zero(map, goal, old_d),
        0 <= j < map.len(),
        old_d[j] is Some,
        old_d[j].unwrap().tiles == level,
        entry_tracked(map, goal, old_d, old_place, old_parent, old_origin, j, level + 1),
        step_from(goal, map[j], old_place[j].0, old_place[j].1) == Some(q),
        in_map(map, q),
        k == tile_index(q.0, q.1),
        old_d[k] is None,
        walk(map, goal, old_origin[j], (level + 1) as nat) == Some(q),
        d == old_d.update(
            k,
            Some(
                Distance {
                    tiles: (old_d[j].unwrap().tiles + 1) as u16,
                    rotation: (old_d[j].unwrap().rotation + rotation_of(map[j])) as i16,
                },
            ),
        ),
        place == old_place.update(k, q),
        parent == old_parent.update(k, j),
        origin == old_origin.update(k, old_origin[j]),
        slot == old_slot.update(k, old_new.len() as int),
        new_frontier.len() == old_new.len() + 1,
        new_frontier.subrange(0, old_new.len() as int) == old_new,
        pos(new_frontier[old_new.len() as int]) == q,
        old_d[j].unwrap().tiles + 1 <= u16::MAX,
        old_d[j].unwrap().rotation + rotation_of(map[j]) <= i16::MAX,
        i16::MIN <= old_d[j].unwrap().rotation + rotation_of(map[j]),
    ensures
        all_tracked(map, goal, d, place, parent, origin, level + 1),
        settled_upto(map, goal, d, place, slot, level, m),
        listed(d, place, slot, frontier, level),
        listed(d, place, slot, new_frontier, level + 1),
        goals_at_zero(map, goal, d),
        next_is_settled(map, goal, d, place, j),
{
    lemma_fill_tracked(map, goal, old_d, d, old_place, place, old_parent, parent, old_origin, origin, old_slot, slot, frontier, old_new, new_frontier, level, m, j, k, q);
    lemma_fill_settled(map, goal, old_d, d, old_place, place, old_parent, parent, old_origin, origin, old_slot, slot, frontier, old_new, new_frontier, level, m, j, k, q);
    lemma_fill_listed(map, goal, old_d, d, old_place, place, old_parent, parent, old_origin, origin, old_slot, slot, frontier, old_new, new_frontier, level, m, j, k, q);
    lemma_fill_goals(map, goal, old_d, d, old_place, place, old_parent, parent, old_origin, origin, old_slot, slot, frontier, old_new, new_frontier, level, m, j, k, q);
}

/// Filling keeps every entry tracked.
proof fn lemma_fill_tracked(
    map: Seq<Tile>,
    goal: Goal,
    old_d: Seq<Option<Distance>>,
    d: Seq<Option<Distance>>,
    old_place: Seq<(int, int)>,
    place: Seq<(int, int)>,
    old_parent: Seq<int>,
    parent: Seq<int>,
    old_origin: Seq<(int, int)>,
    origin: Seq<(int, int)>,
    old_slot: Seq<int>,
    slot: Seq<int>,
    frontier: Seq<(usize, usize)>,
    old_new: Seq<(usize, usize)>,
    new_frontier: Seq<(usize, usize)>,
    level: int,
    m: int,
    j: int,
    k: int,
    q: (int, int),
)
    requires
        old_d.len() == map.len(),
        old_place.len() == map.len(),
        old_parent.len() == map.len(),
        old_origin.len() == map.len(),
        old_slot.len() == map.len(),
        0 <= level,
        all_tracked(map, goal, old_d, old_place, old_parent, old_origin, level + 1),
        settled_upto(map, goal, old_d, old_place, old_slot, level, m),
        listed(old_d, old_place, old_slot, frontier, level),
        listed(old_d, old_place, old_slot, old_new, level + 1),
        goals_at_zero(map, goal, old_d),
        0 <= j < map.len(),
        old_d[j] is Some,
        old_d[j].unwrap().tiles == level,
        entry_tracked(map, goal, old_d, old_place, old_parent, old_origin, j, level + 1),
        step_from(goal, map[j], old_place[j].0, old_place[j].1) == Some(q),
        in_map(map, q),
        k == tile_index(q.0, q.1),
        old_d[k] is None,
        walk(map, goal, old_origin[j], (level + 1) as nat) == Some(q),
        d == old_d.update(
            k,
            Some(
                Distance {
                    tiles: (old_d[j].unwrap().tiles + 1) as u16,
                    rotation: (old_d[j].unwrap().rotation + rotation_of(map[j])) as i16,
                },
            ),
        ),
        place == old_place.update(k, q),
        parent == old_parent.update(k, j),
        origin == old_origin.update(k, old_origin[j]),
        slot == old_slot.update(k, old_new.len() as int),
        new_frontier.len() == old_new.len() + 1,
        new_frontier.subrange(0, old_new.len() as int) == old_new,
        pos(new_frontier[old_new.len() as int]) == q,
        old_d[j].unwrap().tiles + 1 <= u16::MAX,
        old_d[j].unwrap().rotation + rotation_of(map[j]) <= i16::MAX,
        i16::MIN <= old_d[j].unwrap().rotation + rotation_of(map[j]),
    ensures
        all_tracked(map, goal, d, place, parent, origin, level + 1),
{
    reveal(all_tracked);
    assert forall|jj: int|
        0 <= jj < d.len() && #[trigger] d[jj] is Some implies entry_tracked(
        map,
        goal,
        d,
        place,
        parent,
        origin,
        jj,
        level + 1,
    ) by {
        if jj != k {
            assert(old_d[jj] is Some);
            assert(entry_tracked(map, goal, old_d, old_place, old_parent, old_origin, jj, level + 1));
            lemma_fill_keeps_entry(
                map,
                goal,
                old_d,
                d,
                old_place,
                place,
                old_parent,
                parent,
                old_origin,
                origin,
                level,
                j,
                k,
                q,
                jj,
            );
        } else {
            lemma_fill_new_entry(
                map,
                goal,
                old_d,
                d,
                old_place,
                place,
                old_parent,
                parent,
                old_origin,
                origin,
                level,
                j,
                k,
                q,
            );
        }
    }
}

/// The update of a fill as the search makes it.
spec fn fill_update(
    map: Seq<Tile>,
    old_d: Seq<Option<Distance>>,
    d: Seq<Option<Distance>>,
    old_place: Seq<(int, int)>,
    place: Seq<(int, int)>,
    old_parent: Seq<int>,
    parent: Seq<int>,
    old_origin: Seq<(int, int)>,
    origin: Seq<(int, int)>,
    j: int,
    k: int,
    q: (int, int),
) -> bool {
    &&& d == old_d.update(
        k,
        Some(
            Distance {
                tiles: (old_d[j].unwrap().tiles + 1) as u16,
                rotation: (old_d[j].unwrap().rotation + rotation_of(map[j])) as i16,
            },
        ),
    )
    &&& place == old_place.update(k, q)
    &&& parent == old_parent.update(k, j)
    &&& origin == old_origin.update(k, old_origin[j])
}

/// Filling entry `k` keeps every other entry tracked.
proof fn lemma_fill_keeps_entry(
    map: Seq<Tile>,
    goal: Goal,
    old_d: Seq<Option<Distance>>,
    d: Seq<Option<Distance>>,
    old_place: Seq<(int, int)>,
    place: Seq<(int, int)>,
    old_parent: Seq<int>,
    parent: Seq<int>,
    old_origin: Seq<(int, int)>,
    origin: Seq<(int, int)>,
    level: int,
    j: int,
    k: int,
    q: (int, int),
    jj: int,
)
    requires
        old_d.len() == map.len(),
        old_place.len() == map.len(),
        old_parent.len() == map.len(),
        old_origin.len() == map.len(),
        0 <= k < map.len(),
        0 <= jj < map.len(),
        jj != k,
        old_d[k] is None,
        old_d[jj] is Some,
        entry_tracked(map, goal, old_d, old_place, old_parent, old_origin, jj, level + 1),
        fill_update(map, old_d, d, old_place, place, old_parent, parent, old_origin, origin, j, k, q),
    ensures
        entry_tracked(map, goal, d, place, parent, origin, jj, level + 1),
{
    if old_d[jj].unwrap().tiles > 0 {
        assert(reached_from_parent(map, goal, old_d, old_place, old_parent, jj));
        assert(old_d[old_parent[jj]] is Some);
    }
}

/// Filling entry `k` from the entry `j` at `level` tracks the new entry.
proof fn lemma_fill_new_entry(
    map: Seq<Tile>,
    goal: Goal,
    old_d: Seq<Option<Distance>>,
    d: Seq<Option<Distance>>,
    old_place: Seq<(int, int)>,
    place: Seq<(int, int)>,
    old_parent: Seq<int>,
    parent: Seq<int>,
    old_origin: Seq<(int, int)>,
    origin: Seq<(int, int)>,
    level: int,
    j: int,
    k: int,
    q: (int, int),
)
    requires
        old_d.len() == map.len(),
        old_place.len() == map.len(),
        old_parent.len() == map.len(),
        old_origin.len() == map.len(),
        0 <= level,
        0 <= j < map.len(),
        old_d[j] is Some,
        old_d[j].unwrap().tiles == level,
        entry_tracked(map, goal, old_d, old_place, old_parent, old_origin, j, level + 1),
        step_from(goal, map[j], old_place[j].0, old_place[j].1) == Some(q),
        in_map(map, q),
        k == tile_index(q.0, q.1),
        old_d[k] is None,
        walk(map, goal, old_origin[j], (level + 1) as nat) == Some(q),
        fill_update(map, old_d, d, old_place, place, old_parent, parent, old_origin, origin, j, k, q),
        old_d[j].unwrap().tiles + 1 <= u16::MAX,
        old_d[j].unwrap().rotation + rotation_of(map[j]) <= i16::MAX,
        i16::MIN <= old_d[j].unwrap().rotation + rotation_of(map[j]),
    ensures
        entry_tracked(map, goal, d, place, parent, origin, k, level + 1),
{
    assert(reached_from_parent(map, goal, d, place, parent, k));
}

/// Filling keeps the settled entries settled, and settles the next tile of
/// entry `j`.
proof fn lemma_fill_settled(
    map: Seq<Tile>,
    goal: Goal,
    old_d: Seq<Option<Distance>>,
    d: Seq<Option<Distance>>,
    old_place: Seq<(int, int)>,
    place: Seq<(int, int)>,
    old_parent: Seq<int>,
    parent: Seq<int>,
    old_origin: Seq<(int, int)>,
    origin: Seq<(int, int)>,
    old_slot: Seq<int>,
    slot: Seq<int>,
    frontier: Seq<(usize, usize)>,
    old_new: Seq<(usize, usize)>,
    new_frontier: Seq<(usize, usize)>,
    level: int,
    m: int,
    j: int,
    k: int,
    q: (int, int),
)
    requires
        old_d.len() == map.len(),
        old_place.len() == map.len(),
        old_parent.len() == map.len(),
        old_origin.len() == map.len(),
        old_slot.len() == map.len(),
        0 <= level,
        all_tracked(map, goal, old_d, old_place, old_parent, old_origin, level + 1),
        settled_upto(map, goal, old_d, old_place, old_slot, level, m),
        listed(old_d, old_place, old_slot, frontier, level),
        listed(old_d, old_place, old_slot, old_new, level + 1),
        goals_at_zero(map, goal, old_d),
        0 <= j < map.len(),
        old_d[j] is Some,
        old_d[j].unwrap().tiles == level,
        entry_tracked(map, goal, old_d, old_place, old_parent, old_origin, j, level + 1),
        step_from(goal, map[j], old_place[j].0, old_place[j].1) == Some(q),
        in_map(map, q),
        k == tile_index(q.0, q.1),
        old_d[k] is None,
        walk(map, goal, old_origin[j], (level + 1) as nat) == Some(q),
        d == old_d.update(
            k,
            Some(
                Distance {
                    tiles: (old_d[j].unwrap().tiles + 1) as u16,
                    rotation: (old_d[j].unwrap().rotation + rotation_of(map[j])) as i16,
                },
            ),
        ),
        place == old_place.update(k, q),
        parent == old_parent.update(k, j),
        origin == old_origin.update(k, old_origin[j]),
        slot == old_slot.update(k, old_new.len() as int),
        new_frontier.len() == old_new.len() + 1,
        new_frontier.subrange(0, old_new.len() as int) == old_new,
        pos(new_frontier[old_new.len() as int]) == q,
        old_d[j].unwrap().tiles + 1 <= u16::MAX,
        old_d[j].unwrap().rotation + rotation_of(map[j]) <= i16::MAX,
        i16::MIN <= old_d[j].unwrap().rotation + rotation_of(map[j]),
    ensures
        settled_upto(map, goal, d, place, slot, level, m),
        next_is_settled(map, goal, d, place, j),
{
    reveal(settled_upto);
    assert forall|jj: int|
        0 <= jj < d.len() && #[trigger] d[jj] is Some && (d[jj].unwrap().tiles < level || (
        d[jj].unwrap().tiles == level && 0 <= slot[jj] < m)) implies next_is_settled(
        map,
        goal,
        d,
        place,
        jj,
    ) by {
        assert(old_d[jj] is Some);
        assert(next_is_settled(map, goal, old_d, old_place, jj));
    }
}

/// Filling keeps both frontiers listing their levels: the new entry joins
/// the next one.
proof fn lemma_fill_listed(
    map: Seq<Tile>,
    goal: Goal,
    old_d: Seq<Option<Distance>>,
    d: Seq<Option<Distance>>,
    old_place: Seq<(int, int)>,
    place: Seq<(int, int)>,
    old_parent: Seq<int>,
    parent: Seq<int>,
    old_origin: Seq<(int, int)>,
    origin: Seq<(int, int)>,
    old_slot: Seq<int>,
    slot: Seq<int>,
    frontier: Seq<(usize, usize)>,
    old_new: Seq<(usize, usize)>,
    new_frontier: Seq<(usize, usize)>,
    level: int,
    m: int,
    j: int,
    k: int,
    q: (int, int),
)
    requires
        old_d.len() == map.len(),
        old_place.len() == map.len(),
        old_parent.len() == map.len(),
        old_origin.len() == map.len(),
        old_slot.len() == map.len(),
        0 <= level,
        all_tracked(map, goal, old_d, old_place, old_parent, old_origin, level + 1),
        settled_upto(map, goal, old_d, old_place, old_slot, level, m),
        listed(old_d, old_place, old_slot, frontier, level),
        listed(old_d, old_place, old_slot, old_new, level + 1),
        goals_at_zero(map, goal, old_d),
        0 <= j < map.len(),
        old_d[j] is Some,
        old_d[j].unwrap().tiles == level,
        entry_tracked(map, goal, old_d, old_place, old_parent, old_origin, j, level + 1),
        step_from(goal, map[j], old_place[j].0, old_place[j].1) == Some(q),
        in_map(map, q),
        k == tile_index(q.0, q.1),
        old_d[k] is None,
        walk(map, goal, old_origin[j], (level + 1) as nat) == Some(q),
        d == old_d.update(
            k,
            Some(
                Distance {
                    tiles: (old_d[j].unwrap().tiles + 1) as u16,
                    rotation: (old_d[j].unwrap().rotation + rotation_of(map[j])) as i16,
                },
            ),
        ),
        place == old_place.update(k, q),
        parent == old_parent.update(k, j),
        origin == old_origin.update(k, old_origin[j]),
        slot == old_slot.update(k, old_new.len() as int),
        new_frontier.len() == old_new.len() + 1,
        new_frontier.subrange(0, old_new.len() as int) == old_new,
        pos(new_frontier[old_new.len() as int]) == q,
        old_d[j].unwrap().tiles + 1 <= u16::MAX,
        old_d[j].unwrap().rotation + rotation_of(map[j]) <= i16::MAX,
        i16::MIN <= old_d[j].unwrap().rotation + rotation_of(map[j]),
    ensures
        listed(d, place, slot, frontier, level),
        listed(d, place, slot, new_frontier, level + 1),
{
    reveal(listed);
    assert forall|mm: int| 0 <= mm < frontier.len() implies #[trigger] in_frontier(
        d,
        place,
        slot,
        frontier,
        mm,
        level,
    ) by {
        assert(in_frontier(old_d, old_place, old_slot, frontier, mm, level));
    }
    assert forall|mm: int| 0 <= mm < new_frontier.len() implies #[trigger] in_frontier(
        d,
        place,
        slot,
        new_frontier,
        mm,
        level + 1,
    ) by {
        if mm < old_new.len() {
            assert(new_frontier[mm] == old_new[mm]);
            assert(in_frontier(old_d, old_place, old_slot, old_new, mm, level + 1));
        }
    }
    assert forall|jj: int|
        0 <= jj < d.len() && #[trigger] d[jj] is Some && d[jj].unwrap().tiles == level implies {
        &&& 0 <= slot[jj] < frontier.len()
        &&& tile_index(frontier[slot[jj]].0 as int, frontier[slot[jj]].1 as int) == jj
    } by {
        assert(old_d[jj] is Some);
    }
    assert forall|jj: int|
        0 <= jj < d.len() && #[trigger] d[jj] is Some && d[jj].unwrap().tiles == level + 1 implies {
        &&& 0 <= slot[jj] < new_frontier.len()
        &&& tile_index(new_frontier[slot[jj]].0 as int, new_frontier[slot[jj]].1 as int) == jj
    } by {
        if jj != k {
            assert(old_d[jj] is Some);
            assert(new_frontier[slot[jj]] == old_new[slot[jj]]);
        }
    }
}

/// Filling leaves the goal entries as they were.
proof fn lemma_fill_goals(
    map: Seq<Tile>,
    goal: Goal,
    old_d: Seq<Option<Distance>>,
    d: Seq<Option<Distance>>,
    old_place: Seq<(int, int)>,
    place: Seq<(int, int)>,
    old_parent: Seq<int>,
    parent: Seq<int>,
    old_origin: Seq<(int, int)>,
    origin: Seq<(int, int)>,
    old_slot: Seq<int>,
    slot: Seq<int>,
    frontier: Seq<(usize, usize)>,
    old_new: Seq<(usize, usize)>,
    new_frontier: Seq<(usize, usize)>,
    level: int,
    m: int,
    j: int,
    k: int,
    q: (int, int),
)
    requires
        old_d.len() == map.len(),
        old_place.len() == map.len(),
        old_parent.len() == map.len(),
        old_origin.len() == map.len(),
        old_slot.len() == map.len(),
        0 <= level,
        all_tracked(map, goal, old_d, old_place, old_parent, old_origin, level + 1),
        settled_upto(map, goal, old_d, old_place, old_slot, level, m),
        listed(old_d, old_place, old_slot, frontier, level),
        listed(old_d, old_place, old_slot, old_new, level + 1),
        goals_at_zero(map, goal, old_d),
        0 <= j < map.len(),
        old_d[j] is Some,
        old_d[j].unwrap().tiles == level,
        entry_tracked(map, goal, old_d, old_place, old_parent, old_origin, j, level + 1),
        step_from(goal, map[j], old_place[j].0, old_place[j].1) == Some(q),
        in_map(map, q),
        k == tile_index(q.0, q.1),
        old_d[k] is None,
        walk(map, goal, old_origin[j], (level + 1) as nat) == Some(q),
        d == old_d.update(
            k,
            Some(
                Distance {
                    tiles: (old_d[j].unwrap().tiles + 1) as u16,
                    rotation: (old_d[j].unwrap().rotation + rotation_of(map[j])) as i16,
                },
            ),
        ),
        place == old_place.update(k, q),
        parent == old_parent.update(k, j),
        origin == old_origin.update(k, old_origin[j]),
        slot == old_slot.update(k, old_new.len() as int),
        new_frontier.len() == old_new.len() + 1,
        new_frontier.subrange(0, old_new.len() as int) == old_new,
        pos(new_frontier[old_new.len() as int]) == q,
        old_d[j].unwrap().tiles + 1 <= u16::MAX,
        old_d[j].unwrap().rotation + rotation_of(map[j]) <= i16::MAX,
        i16::MIN <= old_d[j].unwrap().rotation + rotation_of(map[j]),
    ensures
        goals_at_zero(map, goal, d),
{
    reveal(goals_at_zero);
    assert forall|row: int, col: int| #[trigger] is_goal(map, goal, (row, col)) implies {
        &&& 0 <= tile_index(row, col) < d.len()
        &&& d[tile_index(row, col)] == Some(Distance { tiles: 0, rotation: 0 })
    } by {
        assert(old_d[tile_index(row, col)] == Some(Distance { tiles: 0, rotation: 0 }));
    }
}

/// After the last slot of the frontier, every entry up to `level` is settled.
proof fn lemma_next_level(
    map: Seq<Tile>,
    goal: Goal,
    d: Seq<Option<Distance>>,
    place: Seq<(int, int)>,
    slot: Seq<int>,
    frontier: Seq<(usize, usize)>,
    level: int,
)
    requires
        settled_upto(map, goal, d, place, slot, level, frontier.len() as int),
        listed(d, place, slot, frontier, level),
        slot.len() == d.len(),
    ensures
        settled_upto(map, goal, d, place, slot, level + 1, 0),
{
    reveal(settled_upto);
    reveal(listed);
    assert forall|j: int|
        0 <= j < d.len() && #[trigger] d[j] is Some && (d[j].unwrap().tiles < level + 1 || (
        d[j].unwrap().tiles == level + 1 && 0 <= slot[j] < 0)) implies next_is_settled(
        map,
        goal,
        d,
        place,
        j,
    ) by {
        if d[j].unwrap().tiles == level {
            assert(0 <= slot[j] < frontier.len());
        }
        assert(d[j].unwrap().tiles < level || (d[j].unwrap().tiles == level && 0 <= slot[j]
            < frontier.len()));
    }
}

/// With an empty frontier, every entry is explained.
proof fn lemma_search_done(
    map: Seq<Tile>,
    goal: Goal,
    d: Seq<Option<Distance>>,
    place: Seq<(int, int)>,
    parent: Seq<int>,
    origin: Seq<(int, int)>,
    slot: Seq<int>,
    frontier: Seq<(usize, usize)>,
    level: int,
)
    requires
        d.len() == map.len(),
        place.len() == map.len(),
        parent.len() == map.len(),
        all_tracked(map, goal, d, place, parent, origin, level),
        settled_upto(map, goal, d, place, slot, level, 0),
        listed(d, place, slot, frontier, level),
        frontier.len() == 0,
        goals_at_zero(map, goal, d),
    ensures
        distances_to(map, goal, d),
{
    reveal(all_tracked);
    reveal(settled_upto);
    reveal(listed);
    reveal(goals_at_zero);
    assert forall|j: int| 0 <= j < d.len() && #[trigger] d[j] is Some implies entry_explained(
        map,
        goal,
        d,
        place,
        parent,
        j,
    ) by {
        assert(entry_tracked(map, goal, d, place, parent, origin, j, level));
    }
    assert(explained_by(map, goal, d, place, parent));
}

/// Breadth-first search from the goal tiles, stepping away from the goal
/// along the path.
fn distances_toward(map: &[Tile], goal: Goal) -> (distances: Distances)
    requires
        searchable(map@, goal),
    ensures
        distances_to(map@, goal, distances@),
{
    let n: usize = map.len();
    let mut distances: Distances = Vec::new();
    let mut i: usize = 0;
    while i < n
        invariant
            i <= n,
            n == map@.len(),
            distances@.len() == i,
            forall|j: int| 0 <= j < i ==> #[trigger] distances@[j] is None,
        decreases n - i,
    {
        distances.push(None);
        i = i + 1;
    }

    let ghost mut place: Seq<(int, int)> = Seq::new(n as nat, |j: int| (0int, 0int));
    let ghost mut parent: Seq<int> = Seq::new(n as nat, |j: int| 0int);
    let ghost mut origin: Seq<(int, int)> = Seq::new(n as nat, |j: int| (0int, 0int));
    let ghost mut slot: Seq<int> = Seq::new(n as nat, |j: int| 0int);
    let ghost mut filled: Set<int> = Set::empty();

    // BFS

    let mut frontier: Vec<(usize, usize)> = Vec::new();

    let mut true_row: usize = 0;
    while true_row < TRUE_MAP_HEIGHT
        invariant
            true_row <= TRUE_MAP_HEIGHT,
            n == map@.len(),
            searchable(map@, goal),
            distances@.len() == n,
            place.len() == n,
            parent.len() == n,
            origin.len() == n,
            slot.len() == n,
            filled.finite(),
            filled.len() == frontier@.len(),
            forall|j: int| #[trigger] filled.contains(j) <==> 0 <= j < n && distances@[j] is Some,
            forall|j: int|
                0 <= j < n && #[trigger] distances@[j] is Some ==> {
                    &&& j < tile_index(true_row as int, 0)
                    &&& distances@[j] == Some(Distance { tiles: 0, rotation: 0 })
                    &&& entry_tracked(map@, goal, distances@, place, parent, origin, j, 0)
                    &&& 0 <= slot[j] < frontier@.len()
                    &&& tile_index(frontier@[slot[j]].0 as int, frontier@[slot[j]].1 as int) == j
                },
            forall|j: int| tile_index(true_row as int, 0) <= j < n ==> #[trigger] distances@[j] is None,
            forall|m: int|
                0 <= m < frontier@.len() ==> #[trigger] in_frontier(
                    distances@,
                    place,
                    slot,
                    frontier@,
                    m,
                    0,
                ),
            forall|row: int, col: int|
                #![trigger is_goal(map@, goal, (row, col))]
                is_goal(map@, goal, (row, col)) && row < true_row ==> distances@[tile_index(
                    row,
                    col,
                )] == Some(Distance { tiles: 0, rotation: 0 }),
        decreases TRUE_MAP_HEIGHT - true_row,
    {
        let mut true_col: usize = 0;
        while true_col < TRUE_MAP_WIDTH
            invariant
                true_row < TRUE_MAP_HEIGHT,
                true_col <= TRUE_MAP_WIDTH,
                n == map@.len(),
                searchable(map@, goal),
                distances@.len() == n,
                place.len() == n,
                parent.len() == n,
                origin.len() == n,
                slot.len() == n,
                filled.finite(),
                filled.len() == frontier@.len(),
                forall|j: int| #[trigger] filled.contains(j) <==> 0 <= j < n && distances@[j] is Some,
                forall|j: int|
                    0 <= j < n && #[trigger] distances@[j] is Some ==> {
                        &&& j < tile_index(true_row as int, true_col as int)
                        &&& distances@[j] == Some(Distance { tiles: 0, rotation: 0 })
                        &&& entry_tracked(map@, goal, distances@, place, parent, origin, j, 0)
                        &&& 0 <= slot[j] < frontier@.len()
                        &&& tile_index(frontier@[slot[j]].0 as int, frontier@[slot[j]].1 as int)
                            == j
                    },
                forall|j: int|
                    tile_index(true_row as int, true_col as int) <= j < n
                        ==> #[trigger] distances@[j] is None,
                forall|m: int|
                    0 <= m < frontier@.len() ==> #[trigger] in_frontier(
                        distances@,
                        place,
                        slot,
                        frontier@,
                        m,
                        0,
                    ),
                forall|row: int, col: int|
                    #![trigger is_goal(map@, goal, (row, col))]
                    is_goal(map@, goal, (row, col)) && (row < true_row || (row == true_row && col
                        < true_col)) ==> distances@[tile_index(row, col)] == Some(
                        Distance { tiles: 0, rotation: 0 },
                    ),
            decreases TRUE_MAP_WIDTH - true_col,
        {
            let here_is_goal = match goal {
                Goal::Exit => is_exit(map, true_row, true_col),
                Goal::Entrance => is_entrance(map, true_row, true_col),
            };
            if here_is_goal {
                let j: usize = true_row * TRUE_MAP_WIDTH + true_col;
                let ghost here: (int, int) = (true_row as int, true_col as int);
                assert(is_goal(map@, goal, here));
                assert(destination_readable(map@, true_row as int, true_col as int));
                let ghost old_d = distances@;
                let ghost old_frontier = frontier@;
                let ghost old_place = place;
                let ghost old_slot = slot;
                distances.set(j, Some(Default::default()));
                frontier.push((true_row, true_col));
                proof {
                    place = place.update(j as int, here);
                    origin = origin.update(j as int, here);
                    slot = slot.update(j as int, old_frontier.len() as int);
                    filled = filled.insert(j as int);
                    assert(walk(map@, goal, here, 0) == Some(here));
                    assert forall|jj: int|
                        0 <= jj < n && #[trigger] distances@[jj] is Some implies {
                            &&& jj < tile_index(true_row as int, true_col + 1)
                            &&& distances@[jj] == Some(Distance { tiles: 0, rotation: 0 })
                            &&& entry_tracked(map@, goal, distances@, place, parent, origin, jj, 0)
                            &&& 0 <= slot[jj] < frontier@.len()
                            &&& tile_index(frontier@[slot[jj]].0 as int, frontier@[slot[jj]].1 as int)
                                == jj
                        } by {
                        if jj != j {
                            assert(old_d[jj] is Some);
                        }
                    }
                    assert forall|m: int| 0 <= m < frontier@.len() implies #[trigger] in_frontier(
                        distances@,
                        place,
                        slot,
                        frontier@,
                        m,
                        0,
                    ) by {
                        if m < old_frontier.len() {
                            assert(in_frontier(old_d, old_place, old_slot, old_frontier, m, 0));
                        }
                    }
                }
            }
            true_col = true_col + 1;
        }
        true_row = true_row + 1;
    }

    let ghost mut level: int = 0;
    proof {
        lemma_filled_bound(filled, distances@);
        reveal(all_tracked);
        reveal(settled_upto);
        reveal(listed);
        reveal(goals_at_zero);
    }
    while frontier.len() > 0
        invariant
            n == map@.len(),
            searchable(map@, goal),
            distances@.len() == n,
            place.len() == n,
            parent.len() == n,
            origin.len() == n,
            slot.len() == n,
            counted(filled, distances@),
            0 <= level,
            frontier@.len() > 0 ==> level + 1 <= filled.len(),
            all_tracked(map@, goal, distances@, place, parent, origin, level),
            settled_upto(map@, goal, distances@, place, slot, level, 0),
            listed(distances@, place, slot, frontier@, level),
            goals_at_zero(map@, goal, distances@),
        decreases n - filled.len() + (if frontier@.len() > 0 {
            1int
        } else {
            0int
        }),
    {
        let mut new_frontier: Vec<(usize, usize)> = Vec::new();
        let ghost filled_before = filled.len();
        proof {
            lemma_empty_listed(
                map@,
                goal,
                distances@,
                place,
                parent,
                origin,
                slot,
                new_frontier@,
                level,
            );
            lemma_tracked_weaken(map@, goal, distances@, place, parent, origin, level);
        }
        let mut m: usize = 0;
        while m < frontier.len()
            invariant
                n == map@.len(),
                searchable(map@, goal),
                distances@.len() == n,
                place.len() == n,
                parent.len() == n,
                origin.len() == n,
                slot.len() == n,
                counted(filled, distances@),
                0 <= level,
                m <= frontier@.len(),
                level + 1 <= filled_before,
                filled.len() == filled_before + new_frontier@.len(),
                all_tracked(map@, goal, distances@, place, parent, origin, level + 1),
                settled_upto(map@, goal, distances@, place, slot, level, m as int),
                listed(distances@, place, slot, frontier@, level),
                listed(distances@, place, slot, new_frontier@, level + 1),
                goals_at_zero(map@, goal, distances@),
            decreases frontier@.len() - m,
        {
            let (true_row, true_col) = frontier[m];
            proof {
                lemma_frontier_entry(
                    map@,
                    goal,
                    distances@,
                    place,
                    parent,
                    origin,
                    slot,
                    frontier@,
                    level,
                    m as int,
                );
                lemma_tile_index_bounds(true_row as int, true_col as int);
            }
            let j: usize = true_row * TRUE_MAP_WIDTH + true_col;
            let distance = match distances[j] {
                Some(d) => d,
                None => Default::default(),
            };
            let step = step_away(map, goal, true_row, true_col);
            match step {
                Some((next_row, next_col)) => {
                    let rotation = rotation_amount(map[j]);
                    proof {
                        lemma_tile_index_bounds(next_row as int, next_col as int);
                    }
                    let k: usize = next_row * TRUE_MAP_WIDTH + next_col;
                    if distances[k].is_none() {
                        let ghost old_d = distances@;
                        let ghost old_place = place;
                        let ghost old_parent = parent;
                        let ghost old_origin = origin;
                        let ghost old_slot = slot;
                        let ghost old_new = new_frontier@;
                        let ghost q = (next_row as int, next_col as int);
                        proof {
                            assert(!filled.contains(k as int));
                            lemma_walk_step(
                                map@,
                                goal,
                                origin[j as int],
                                distance.tiles as nat,
                                place[j as int],
                            );
                        }
                        distances.set(
                            k,
                            Some(
                                Distance {
                                    tiles: distance.tiles + 1,
                                    rotation: distance.rotation + rotation,
                                },
                            ),
                        );
                        new_frontier.push((next_row, next_col));
                        proof {
                            place = place.update(k as int, q);
                            parent = parent.update(k as int, j as int);
                            origin = origin.update(k as int, old_origin[j as int]);
                            slot = slot.update(k as int, old_new.len() as int);
                            filled = filled.insert(k as int);
                            lemma_filled_bound(filled, distances@);
                            assert(new_frontier@.subrange(0, old_new.len() as int) =~= old_new);
                            lemma_fill(
                                map@,
                                goal,
                                old_d,
                                distances@,
                                old_place,
                                place,
                                old_parent,
                                parent,
                                old_origin,
                                origin,
                                old_slot,
                                slot,
                                frontier@,
                                old_new,
                                new_frontier@,
                                level,
                                m as int,
                                j as int,
                                k as int,
                                q,
                            );
                        }
                    } else {
                        proof {
                            reveal(all_tracked);
                            assert(entry_tracked(
                                map@,
                                goal,
                                distances@,
                                place,
                                parent,
                                origin,
                                k as int,
                                level + 1,
                            ));
                        }
                    }
                },
                None => {},
            }
            proof {
                lemma_settle_slot(
                    map@,
                    goal,
                    distances@,
                    place,
                    slot,
                    frontier@,
                    level,
                    m as int,
                    j as int,
                );
            }
            m = m + 1;
        }
        proof {
            lemma_next_level(map@, goal, distances@, place, slot, frontier@, level);
        }
        frontier = new_frontier;
        proof {
            level = level + 1;
        }
    }

    proof {
        lemma_search_done(map@, goal, distances@, place, parent, origin, slot, frontier@, level);
    }
    distances
}

/// Associate each path tile with the distance to the exit.
/// Used for targeting enemies moving toward the exit.
pub fn generate_dist_from_exit(map: &[Tile]) -> (distances: Distances)
    requires
        searchable(map@, Goal::Exit),
    ensures
        distances_to(map@, Goal::Exit, distances@),
{
    distances_toward(map, Goal::Exit)
}

/// Associate each path tile with the distance to the entrance.
/// Used for targeting enemies moving backwards toward the entrance.
pub fn generate_dist_from_entrance(map: &[Tile]) -> (distances: Distances)
    requires
        searchable(map@, Goal::Entrance),
    ensures
        distances_to(map@, Goal::Entrance, distances@),
{
    distances_toward(map, Goal::Entrance)
}

/// The position one step away from the goal from `row`, `col`, if the tile
/// there is a path tile: `Some(None)` where that step leaves the first row or
/// column.
fn next_position(map: &[Tile], goal: Goal, row: usize, col: usize) -> (next: Option<
    Option<(usize, usize)>,
>)
    requires
        in_map(map@, (row as int, col as int)),
        map@.len() <= i16::MAX,
    ensures
        match step_from(goal, tile_of(map@, (row as int, col as int)), row as int, col as int) {
            Some(q) => match next {
                Some(Some(n)) => q.0 >= 0 && q.1 >= 0 && pos(n) == q,
                Some(None) => q.0 < 0 || q.1 < 0,
                None => false,
            },
            None => next is None,
        },
{
    assert(map@.len() == map.len());
    proof {
        lemma_tile_index_bounds(row as int, col as int);
    }
    let tile = map[row * TRUE_MAP_WIDTH + col];
    let (north, south, east, west): (bool, bool, bool, bool) = match goal {
        Goal::Exit => match tile {
            Tile::North | Tile::NorthToEast | Tile::NorthToWest => (false, true, false, false),
            Tile::South | Tile::SouthToEast | Tile::SouthToWest => (true, false, false, false),
            Tile::East | Tile::EastToNorth | Tile::EastToSouth => (false, false, false, true),
            Tile::West | Tile::WestToNorth | Tile::WestToSouth => (false, false, true, false),
            _ => (false, false, false, false),
        },
        Goal::Entrance => match tile {
            Tile::North | Tile::EastToNorth | Tile::WestToNorth => (true, false, false, false),
            Tile::South | Tile::EastToSouth | Tile::WestToSouth => (false, true, false, false),
            Tile::East | Tile::NorthToEast | Tile::SouthToEast => (false, false, true, false),
            Tile::West | Tile::NorthToWest | Tile::SouthToWest => (false, false, false, true),
            _ => (false, false, false, false),
        },
    };
    if north {
        if row == 0 {
            Some(None)
        } else {
            Some(Some((row - 1, col)))
        }
    } else if south {
        Some(Some((row + 1, col)))
    } else if east {
        Some(Some((row, col + 1)))
    } else if west {
        if col == 0 {
            Some(None)
        } else {
            Some(Some((row, col - 1)))
        }
    } else {
        None
    }
}

/// Once a walk stops, it stays stopped.
proof fn lemma_walk_stopped(map: Seq<Tile>, goal: Goal, start: (int, int), t: nat, k: nat)
    requires
        walk(map, goal, start, t) is None,
        t <= k,
    ensures
        walk(map, goal, start, k) is None,
    decreases k - t,
{
    if t < k {
        lemma_walk_stopped(map, goal, start, t, (k - 1) as nat);
    }
}

/// Walks that meet go on together: from the same position, the same steps
/// follow.
proof fn lemma_walk_shift(map: Seq<Tile>, goal: Goal, start: (int, int), a: nat, b: nat, i: nat)
    requires
        walk(map, goal, start, a) == walk(map, goal, start, b),
    ensures
        walk(map, goal, start, a + i) == walk(map, goal, start, b + i),
    decreases i,
{
    if i > 0 {
        lemma_walk_shift(map, goal, start, a, b, (i - 1) as nat);
        assert(walk(map, goal, start, a + i) == match walk(map, goal, start, (a + i - 1) as nat) {
            Some(p) => match step_from(goal, tile_of(map, p), p.0, p.1) {
                Some(q) => if in_map(map, q) {
                    Some(q)
                } else {
                    None
                },
                None => None,
            },
            None => None,
        });
        assert(walk(map, goal, start, b + i) == match walk(map, goal, start, (b + i - 1) as nat) {
            Some(p) => match step_from(goal, tile_of(map, p), p.0, p.1) {
                Some(q) => if in_map(map, q) {
                    Some(q)
                } else {
                    None
                },
                None => None,
            },
            None => None,
        });
    }
}

/// A walk whose step `c + 1` returns to step `t0` only ever revisits its
/// first `c + 1` positions.
proof fn lemma_walk_cycle(map: Seq<Tile>, goal: Goal, start: (int, int), t0: nat, c: nat, k: nat) -> (t: nat)
    requires
        t0 <= c,
        walk(map, goal, start, c + 1) == walk(map, goal, start, t0),
    ensures
        t <= c,
        walk(map, goal, start, k) == walk(map, goal, start, t),
    decreases k,
{
    if k <= c {
        k
    } else {
        let i = (k - c - 1) as nat;
        lemma_walk_shift(map, goal, start, t0, c + 1, i);
        lemma_walk_cycle(map, goal, start, t0, c, t0 + i)
    }
}

/// The code of a position of a map of `n` tiles, one integer per position.
spec fn position_code(p: (int, int), n: int) -> int {
    p.0 * n + p.1
}

/// Distinct positions on a map of `n` tiles are at most `n * n`.
proof fn lemma_positions_bound(seen: Seq<(usize, usize)>, map: Seq<Tile>)
    requires
        forall|i: int| 0 <= i < seen.len() ==> in_map(map, #[trigger] pos(seen[i])),
        forall|i: int, j: int| 0 <= i < j < seen.len() ==> seen[i] != seen[j],
    ensures
        seen.len() <= map.len() * map.len(),
{
    let n = map.len() as int;
    let codes = seen.map_values(|p: (usize, usize)| position_code(pos(p), n));
    assert forall|i: int| 0 <= i < seen.len() implies 0 <= #[trigger] codes[i] < n * n by {
        let p = seen[i];
        assert(in_map(map, pos(p)));
        assert(p.0 * 26 + p.1 < n);
        assert(0 <= p.0 * n + p.1 < n * n) by (nonlinear_arith)
            requires
                p.0 * 26 + p.1 < n,
                0 <= p.0,
                0 <= p.1,
        ;
    }
    assert forall|i: int, j: int| 0 <= i < codes.len() && 0 <= j < codes.len() && i != j implies codes[i] != codes[j] by {
        let (a, b) = if i < j { (i, j) } else { (j, i) };
        let p = seen[a];
        let r = seen[b];
        assert(in_map(map, pos(p)) && in_map(map, pos(r)));
        assert(p.0 * 26 + p.1 < n && r.0 * 26 + r.1 < n);
        if p.0 * n + p.1 == r.0 * n + r.1 {
            assert(p.0 == r.0 && p.1 == r.1) by (nonlinear_arith)
                requires
                    p.0 * 26 + p.1 < n,
                    r.0 * 26 + r.1 < n,
                    0 <= p.0,
                    0 <= p.1,
                    0 <= r.0,
                    0 <= r.1,
                    p.0 * n + p.1 == r.0 * n + r.1,
            ;
            assert(seen[a] != seen[b]);
        }
    }
    codes.unique_seq_to_set();
    vstd::set_lib::lemma_int_range(0, n * n);
    assert(codes.to_set().subset_of(vstd::set_lib::set_int_range(0, n * n)));
    vstd::set_lib::lemma_len_subset(codes.to_set(), vstd::set_lib::set_int_range(0, n * n));
}

/// Every position of every walk from `start` steps, away from the goal, to a
/// position on the map (or is no path tile).
pub open spec fn walks_stay(map: Seq<Tile>, goal: Goal, start: (int, int)) -> bool {
    forall|k: nat|
        #![trigger walk(map, goal, start, k)]
        match walk(map, goal, start, k) {
            Some(p) => step_stays(map, goal, p),
            None => true,
        }
}

/// Follow the walk from `row`, `col` until it stops, leaves the map or comes
/// back to a position it has passed.
fn walk_stays_on_map(map: &[Tile], goal: Goal, row: usize, col: usize) -> (b: bool)
    requires
        in_map(map@, (row as int, col as int)),
        map@.len() <= i16::MAX,
    ensures
        b == walks_stay(map@, goal, (row as int, col as int)),
{
    let ghost start = (row as int, col as int);
    let ghost n = map@.len() as int;
    assert(map@.len() == map.len());
    let mut seen: Vec<(usize, usize)> = Vec::new();
    seen.push((row, col));
    proof {
        assert(walk(map@, goal, start, 0) == Some(start));
        assert(n * 1 <= n * n) by (nonlinear_arith)
            requires
                n >= 1,
        ;
    }
    loop
        invariant
            map@.len() == map.len(),
            map@.len() <= i16::MAX,
            n == map@.len(),
            start == (row as int, col as int),
            1 <= seen@.len() <= n * n,
            forall|i: int|
                0 <= i < seen@.len() ==> walk(map@, goal, start, i as nat) == Some(
                    pos(#[trigger] seen@[i]),
                ),
            forall|i: int| 0 <= i < seen@.len() ==> in_map(map@, pos(#[trigger] seen@[i])),
            forall|i: int|
                0 <= i < seen@.len() - 1 ==> step_stays(map@, goal, pos(#[trigger] seen@[i])),
            forall|i: int, j: int| 0 <= i < j < seen@.len() ==> seen@[i] != seen@[j],
        decreases n * n - seen@.len(),
    {
        let last: usize = seen.len() - 1;
        let (r, c) = seen[last];
        let ghost t = last as nat;
        assert(walk(map@, goal, start, t) == Some(pos(seen@[last as int])));
        assert(in_map(map@, pos(seen@[last as int])));
        match next_position(map, goal, r, c) {
            None => {
                proof {
                    assert(step_stays(map@, goal, pos(seen@[last as int])));
                    assert(walk(map@, goal, start, t + 1) is None);
                    assert forall|k: nat| match #[trigger] walk(map@, goal, start, k) {
                        Some(p) => step_stays(map@, goal, p),
                        None => true,
                    } by {
                        if k > t {
                            lemma_walk_stopped(map@, goal, start, t + 1, k);
                        } else {
                            assert(walk(map@, goal, start, k) == Some(pos(seen@[k as int])));
                        }
                    }
                }
                return true;
            },
            Some(None) => {
                proof {
                    assert(!step_stays(map@, goal, pos(seen@[last as int])));
                    assert(match walk(map@, goal, start, t) {
                        Some(p) => step_stays(map@, goal, p),
                        None => true,
                    } == false);
                }
                return false;
            },
            Some(Some((next_row, next_col))) => {
                if next_col >= map.len() {
                    proof {
                        assert(!step_stays(map@, goal, pos(seen@[last as int])));
                        assert(match walk(map@, goal, start, t) {
                            Some(p) => step_stays(map@, goal, p),
                            None => true,
                        } == false);
                    }
                    return false;
                }
                assert(next_row * TRUE_MAP_WIDTH + next_col < 2 * 32768 * TRUE_MAP_WIDTH) by (
                nonlinear_arith)
                    requires
                        next_row <= r + 1,
                        r * TRUE_MAP_WIDTH + c < 32768,
                        next_col < 32768,
                ;
                if next_row * TRUE_MAP_WIDTH + next_col >= map.len() {
                    proof {
                        assert(!step_stays(map@, goal, pos(seen@[last as int])));
                        assert(match walk(map@, goal, start, t) {
                            Some(p) => step_stays(map@, goal, p),
                            None => true,
                        } == false);
                    }
                    return false;
                }
                let ghost q = (next_row as int, next_col as int);
                proof {
                    assert(in_map(map@, q));
                    assert(step_stays(map@, goal, pos(seen@[last as int])));
                    assert(walk(map@, goal, start, t + 1) == Some(q));
                }
                let mut found: bool = false;
                let mut m: usize = 0;
                while m < seen.len() && !found
                    invariant
                        m <= seen@.len(),
                        forall|i: int| 0 <= i < m ==> seen@[i] != (next_row, next_col),
                        found ==> m < seen@.len() && seen@[m as int] == (next_row, next_col),
                    decreases seen@.len() - m + (if found { 0int } else { 1int }),
                {
                    let (seen_row, seen_col) = seen[m];
                    if seen_row == next_row && seen_col == next_col {
                        found = true;
                    } else {
                        m = m + 1;
                    }
                }
                if found {
                    proof {
                        let t0 = m as nat;
                        assert(walk(map@, goal, start, t0) == Some(pos(seen@[m as int])));
                        assert forall|k: nat| match #[trigger] walk(map@, goal, start, k) {
                            Some(p) => step_stays(map@, goal, p),
                            None => true,
                        } by {
                            let tt = lemma_walk_cycle(map@, goal, start, t0, t, k);
                            assert(walk(map@, goal, start, tt) == Some(pos(seen@[tt as int])));
                        }
                    }
                    return true;
                }
                seen.push((next_row, next_col));
                proof {
                    assert(pos(seen@[seen@.len() - 1]) == q);
                    lemma_positions_bound(seen@, map@);
                }
            },
        }
    }
}

/// Whether the map meets what the search for distances toward `goal` needs:
/// the first ring of padding can be read, no walk from a goal tile steps off
/// the map, and the map is small enough for the counters.
pub fn can_search(map: &[Tile], goal: Goal) -> (b: bool)
    ensures
        b == searchable(map@, goal),
{
    assert(map@.len() == map.len());
    if map.len() > 32767 {
        return false;
    }
    // The first ring of padding.
    let mut row: usize = 0;
    while row < TRUE_MAP_HEIGHT
        invariant
            row <= TRUE_MAP_HEIGHT,
            map@.len() <= i16::MAX,
            forall|r: int, c: int|
                0 <= r < row && 0 <= c < TRUE_MAP_WIDTH && at_dist_from_edge(1, r, c)
                    ==> destination_readable(map@, r, c),
        decreases TRUE_MAP_HEIGHT - row,
    {
        let mut col: usize = 0;
        while col < TRUE_MAP_WIDTH
            invariant
                row < TRUE_MAP_HEIGHT,
                col <= TRUE_MAP_WIDTH,
                map@.len() <= i16::MAX,
                forall|r: int, c: int|
                    0 <= r < row && 0 <= c < TRUE_MAP_WIDTH && at_dist_from_edge(1, r, c)
                        ==> destination_readable(map@, r, c),
                forall|c: int|
                    0 <= c < col && at_dist_from_edge(1, row as int, c) ==> destination_readable(
                        map@,
                        row as int,
                        c,
                    ),
            decreases TRUE_MAP_WIDTH - col,
        {
            if is_at_dist_from_edge(1, row, col) {
                assert(row * TRUE_MAP_WIDTH + col < TRUE_MAP_HEIGHT * TRUE_MAP_WIDTH) by (
                nonlinear_arith)
                    requires
                        row < TRUE_MAP_HEIGHT,
                        col < TRUE_MAP_WIDTH,
                ;
                let index: usize = row * TRUE_MAP_WIDTH + col;
                if index >= map.len() {
                    return false;
                }
                let tile = map[index];
                if (tile == Tile::North && row == 0) || (tile == Tile::West && col == 0) {
                    return false;
                }
            }
            col = col + 1;
        }
        row = row + 1;
    }
    // Every walk from a goal tile.
    let mut row: usize = 0;
    while row < TRUE_MAP_HEIGHT
        invariant
            row <= TRUE_MAP_HEIGHT,
            map@.len() <= i16::MAX,
            ring_readable(map@),
            forall|r: int, c: int|
                #![trigger is_goal(map@, goal, (r, c))]
                0 <= r < row && is_goal(map@, goal, (r, c)) ==> walks_stay(map@, goal, (r, c)),
        decreases TRUE_MAP_HEIGHT - row,
    {
        let mut col: usize = 0;
        while col < TRUE_MAP_WIDTH
            invariant
                row < TRUE_MAP_HEIGHT,
                col <= TRUE_MAP_WIDTH,
                map@.len() <= i16::MAX,
                ring_readable(map@),
                forall|r: int, c: int|
                    #![trigger is_goal(map@, goal, (r, c))]
                    0 <= r < row && is_goal(map@, goal, (r, c)) ==> walks_stay(map@, goal, (r, c)),
                forall|c: int|
                    #![trigger is_goal(map@, goal, (row as int, c))]
                    0 <= c < col && is_goal(map@, goal, (row as int, c)) ==> walks_stay(
                        map@,
                        goal,
                        (row as int, c),
                    ),
            decreases TRUE_MAP_WIDTH - col,
        {
            let is_goal_tile: bool = match goal {
                Goal::Exit => is_exit(map, row, col),
                Goal::Entrance => is_entrance(map, row, col),
            };
            assert(is_goal_tile == is_goal(map@, goal, (row as int, col as int)));
            if is_goal_tile {
                assert(destination_readable(map@, row as int, col as int));
                if !walk_stays_on_map(map, goal, row, col) {
                    return false;
                }
            }
            col = col + 1;
        }
        row = row + 1;
    }
    proof {
        assert forall|start: (int, int), k: nat| is_goal(map@, goal, start) implies match #[trigger] walk(
            map@,
            goal,
            start,
            k,
        ) {
            Some(p) => step_stays(map@, goal, p),
            None => true,
        } by {
            assert(is_goal(map@, goal, (start.0, start.1)));
            assert(walks_stay(map@, goal, start));
        }
    }
    true
}

/// No step away from the goal, from a position within the columns of the
/// true map, lands on the map outside those columns.
pub open spec fn steps_keep_columns(map: Seq<Tile>, goal: Goal) -> bool {
    forall|p: (int, int)|
        #![trigger step_from(goal, tile_of(map, p), p.0, p.1)]
        in_map(map, p) && p.1 < TRUE_MAP_WIDTH ==> match step_from(
            goal,
            tile_of(map, p),
            p.0,
            p.1,
        ) {
            Some(q) => in_map(map, q) ==> q.1 < TRUE_MAP_WIDTH,
            None => true,
        }
}

proof fn lemma_places_in_columns(
    map: Seq<Tile>,
    goal: Goal,
    d: Seq<Option<Distance>>,
    place: Seq<(int, int)>,
    parent: Seq<int>,
    j: int,
)
    requires
        explained_by(map, goal, d, place, parent),
        steps_keep_columns(map, goal),
        0 <= j < d.len(),
        d[j] is Some,
    ensures
        place[j].1 < TRUE_MAP_WIDTH,
    decreases d[j].unwrap().tiles,
{
    assert(entry_explained(map, goal, d, place, parent, j));
    if d[j].unwrap().tiles > 0 {
        let p = parent[j];
        lemma_places_in_columns(map, goal, d, place, parent, p);
        assert(entry_explained(map, goal, d, place, parent, p));
        assert(step_from(goal, tile_of(map, place[p]), place[p].0, place[p].1) == Some(place[j]));
    }
}

proof fn lemma_walk_in_columns(map: Seq<Tile>, goal: Goal, start: (int, int), k: nat)
    requires
        is_goal(map, goal, start),
        steps_keep_columns(map, goal),
        walk(map, goal, start, k) is Some,
    ensures
        walk(map, goal, start, k).unwrap().1 < TRUE_MAP_WIDTH,
    decreases k,
{
    if k > 0 {
        lemma_walk_in_columns(map, goal, start, (k - 1) as nat);
        let p = walk(map, goal, start, (k - 1) as nat).unwrap();
        assert(step_from(goal, tile_of(map, p), p.0, p.1) is Some);
    }
}

/// An entry's tile count is never more than the length of a walk from a goal
/// tile to its tile: the search finds shortest walks. (Stated for maps whose
/// steps keep to the columns of the true map, where each position has its
/// own tile.)
pub proof fn lemma_shortest_walk(
    map: Seq<Tile>,
    goal: Goal,
    d: Seq<Option<Distance>>,
    start: (int, int),
    k: nat,
)
    requires
        distances_to(map, goal, d),
        steps_keep_columns(map, goal),
        is_goal(map, goal, start),
        walk(map, goal, start, k) is Some,
    ensures
        ({
            let p = walk(map, goal, start, k).unwrap();
            &&& d[tile_index(p.0, p.1)] is Some
            &&& d[tile_index(p.0, p.1)].unwrap().tiles <= k
        }),
    decreases k,
{
    let (place, parent) = choose|place: Seq<(int, int)>, parent: Seq<int>|
        explained_by(map, goal, d, place, parent);
    if k == 0 {
        assert(is_goal(map, goal, (start.0, start.1)));
    } else {
        lemma_shortest_walk(map, goal, d, start, (k - 1) as nat);
        lemma_walk_in_columns(map, goal, start, (k - 1) as nat);
        let prev = walk(map, goal, start, (k - 1) as nat).unwrap();
        let i = tile_index(prev.0, prev.1);
        assert(entry_explained(map, goal, d, place, parent, i));
        lemma_places_in_columns(map, goal, d, place, parent, i);
        assert(place[i] == prev) by {
            assert(tile_index(place[i].0, place[i].1) == tile_index(prev.0, prev.1));
            assert(place[i].0 * TRUE_MAP_WIDTH + place[i].1 == prev.0 * TRUE_MAP_WIDTH + prev.1);
            assert(place[i].0 == prev.0) by (nonlinear_arith)
                requires
                    place[i].0 * TRUE_MAP_WIDTH + place[i].1 == prev.0 * TRUE_MAP_WIDTH + prev.1,
                    0 <= place[i].1 < TRUE_MAP_WIDTH,
                    0 <= prev.1 < TRUE_MAP_WIDTH,
                    TRUE_MAP_WIDTH == 26,
            ;
        }
        assert(next_is_settled(map, goal, d, place, i));
    }
}

/// Every entry is reached by a walk from a goal tile exactly as long as its
/// tile count.
pub proof fn lemma_entry_walk(map: Seq<Tile>, goal: Goal, d: Seq<Option<Distance>>, j: int)
    requires
        distances_to(map, goal, d),
        0 <= j < d.len(),
        d[j] is Some,
    ensures
        exists|start: (int, int)|
            {
                &&& is_goal(map, goal, start)
                &&& #[trigger] walk(map, goal, start, d[j].unwrap().tiles as nat) is Some
                &&& tile_index(
                    walk(map, goal, start, d[j].unwrap().tiles as nat).unwrap().0,
                    walk(map, goal, start, d[j].unwrap().tiles as nat).unwrap().1,
                ) == j
            },
{
    let (place, parent) = choose|place: Seq<(int, int)>, parent: Seq<int>|
        explained_by(map, goal, d, place, parent);
    let start = lemma_entry_walk_from(map, goal, d, place, parent, j);
    assert(walk(map, goal, start, d[j].unwrap().tiles as nat) == Some(place[j]));
}

proof fn lemma_entry_walk_from(
    map: Seq<Tile>,
    goal: Goal,
    d: Seq<Option<Distance>>,
    place: Seq<(int, int)>,
    parent: Seq<int>,
    j: int,
) -> (start: (int, int))
    requires
        explained_by(map, goal, d, place, parent),
        0 <= j < d.len(),
        d[j] is Some,
    ensures
        is_goal(map, goal, start),
        walk(map, goal, start, d[j].unwrap().tiles as nat) == Some(place[j]),
        tile_index(place[j].0, place[j].1) == j,
    decreases d[j].unwrap().tiles,
{
    assert(entry_explained(map, goal, d, place, parent, j));
    if d[j].unwrap().tiles == 0 {
        place[j]
    } else {
        let p = parent[j];
        let start = lemma_entry_walk_from(map, goal, d, place, parent, p);
        assert(entry_explained(map, goal, d, place, parent, p));
        lemma_walk_step(map, goal, start, d[p].unwrap().tiles as nat, place[p]);
        start
    }
}

/// `path` runs along the map from its first tile to its last: its positions
/// lie on the map within its columns, and each of its tiles leads to the
/// next one toward the exit and to the one before toward the entrance.
pub open spec fn lane(map: Seq<Tile>, path: Seq<(int, int)>) -> bool {
    &&& path.len() > 0
    &&& forall|i: int|
        0 <= i < path.len() ==> in_map(map, #[trigger] path[i]) && path[i].1 < TRUE_MAP_WIDTH
    &&& forall|i: int|
        0 <= i < path.len() - 1 ==> step_from(
            Goal::Entrance,
            #[trigger] tile_of(map, path[i]),
            path[i].0,
            path[i].1,
        ) == Some(path[i + 1])
    &&& forall|i: int|
        0 < i < path.len() ==> step_from(
            Goal::Exit,
            #[trigger] tile_of(map, path[i]),
            path[i].0,
            path[i].1,
        ) == Some(path[i - 1])
}

/// The path of the map is made of the lanes `lanes`, all as long as one
/// another and apart from one another: each runs from an entrance, its
/// first tile, to an exit, its last, and there are no other entrances or
/// exits.
pub open spec fn lanes_of(map: Seq<Tile>, lanes: Seq<Seq<(int, int)>>) -> bool {
    &&& lanes.len() > 0
    &&& forall|l: int| 0 <= l < lanes.len() ==> lane(map, #[trigger] lanes[l])
    &&& forall|l: int| 0 <= l < lanes.len() ==> (#[trigger] lanes[l]).len() == lanes[0].len()
    &&& forall|l: int, i: int, m: int, k: int|
        0 <= l < lanes.len() && 0 <= m < lanes.len() && 0 <= i < lanes[l].len() && 0 <= k
            < lanes[m].len() && #[trigger] lanes[l][i] == #[trigger] lanes[m][k] ==> l == m
            && i == k
    &&& forall|p: (int, int)|
        #[trigger] is_goal(map, Goal::Entrance, p) <==> exists|l: int|
            0 <= l < lanes.len() && p == (#[trigger] lanes[l])[0]
    &&& forall|p: (int, int)|
        #[trigger] is_goal(map, Goal::Exit, p) <==> exists|l: int|
            0 <= l < lanes.len() && p == (#[trigger] lanes[l]).last()
}

/// The index of the `i`-th position of a path.
pub open spec fn path_index(path: Seq<(int, int)>, i: int) -> int {
    tile_index(path[i].0, path[i].1)
}

proof fn lemma_index_injective(a: (int, int), b: (int, int))
    requires
        0 <= a.0,
        0 <= b.0,
        0 <= a.1 < TRUE_MAP_WIDTH,
        0 <= b.1 < TRUE_MAP_WIDTH,
        tile_index(a.0, a.1) == tile_index(b.0, b.1),
    ensures
        a == b,
{
    assert(a.0 == b.0 && a.1 == b.1) by (nonlinear_arith)
        requires
            0 <= a.0,
            0 <= b.0,
            0 <= a.1 < 26,
            0 <= b.1 < 26,
            a.0 * 26 + a.1 == b.0 * 26 + b.1,
    ;
}

/// The goal tile of a lane: its first tile toward the entrance, its last
/// toward the exit.
pub open spec fn lane_goal(path: Seq<(int, int)>, goal: Goal) -> (int, int) {
    if goal == Goal::Entrance {
        path[0]
    } else {
        path.last()
    }
}

/// The position along a lane of `n` tiles that lies `t` steps from `goal`.
pub open spec fn steps_from_goal(n: int, goal: Goal, t: int) -> int {
    if goal == Goal::Entrance {
        t
    } else {
        n - 1 - t
    }
}

proof fn lemma_lane_walk(map: Seq<Tile>, path: Seq<(int, int)>, goal: Goal, t: nat)
    requires
        lane(map, path),
        t < path.len(),
    ensures
        walk(map, goal, lane_goal(path, goal), t) == Some(
            path[steps_from_goal(path.len() as int, goal, t as int)],
        ),
    decreases t,
{
    let n = path.len() as int;
    if t > 0 {
        lemma_lane_walk(map, path, goal, (t - 1) as nat);
        if goal == Goal::Entrance {
            assert(step_from(Goal::Entrance, tile_of(map, path[t - 1]), path[t - 1].0, path[t - 1].1)
                == Some(path[t as int]));
            assert(in_map(map, path[t as int]));
        } else {
            assert(step_from(Goal::Exit, tile_of(map, path[n - t]), path[n - t].0, path[n - t].1)
                == Some(path[n - 1 - t]));
            assert(in_map(map, path[n - 1 - t]));
        }
    } else {
        assert(in_map(map, path[0]));
        assert(in_map(map, path[n - 1]));
    }
}

/// A walk of `t` steps (fewer than the lanes are long) from a goal tile
/// lands on the lane of that goal tile, `t` steps from it.
proof fn lemma_goal_walk(
    map: Seq<Tile>,
    lanes: Seq<Seq<(int, int)>>,
    goal: Goal,
    start: (int, int),
    t: nat,
) -> (m: int)
    requires
        lanes_of(map, lanes),
        is_goal(map, goal, start),
        t < lanes[0].len(),
    ensures
        0 <= m < lanes.len(),
        start == lane_goal(lanes[m], goal),
        walk(map, goal, start, t) == Some(
            lanes[m][steps_from_goal(lanes[0].len() as int, goal, t as int)],
        ),
{
    let m = if goal == Goal::Entrance {
        choose|l: int| 0 <= l < lanes.len() && start == (#[trigger] lanes[l])[0]
    } else {
        choose|l: int| 0 <= l < lanes.len() && start == (#[trigger] lanes[l]).last()
    };
    assert(lane(map, lanes[m]));
    assert(lanes[m].len() == lanes[0].len());
    lemma_lane_walk(map, lanes[m], goal, t);
    m
}

/// On parallel lanes, the distance toward a goal of the `i`-th tile of a
/// lane is the number of tiles between it and that lane's goal tile.
proof fn lemma_lane_distance(
    map: Seq<Tile>,
    lanes: Seq<Seq<(int, int)>>,
    goal: Goal,
    d: Seq<Option<Distance>>,
    l: int,
    i: int,
)
    requires
        lanes_of(map, lanes),
        distances_to(map, goal, d),
        steps_keep_columns(map, goal),
        0 <= l < lanes.len(),
        0 <= i < lanes[l].len(),
    ensures
        d[path_index(lanes[l], i)] is Some,
        d[path_index(lanes[l], i)].unwrap().tiles == steps_from_goal(
            lanes[0].len() as int,
            goal,
            i,
        ),
{
    let n = lanes[0].len() as int;
    let path = lanes[l];
    assert(lane(map, path));
    assert(path.len() == n);
    let start = lane_goal(path, goal);
    let steps: nat = steps_from_goal(n, goal, i) as nat;
    assert(exists|k: int| 0 <= k < lanes.len() && start == (#[trigger] lanes[k])[0]
        || 0 <= k < lanes.len() && start == lanes[k].last()) by {
        assert(0 <= l < lanes.len() && start == lanes[l][0] || 0 <= l < lanes.len() && start
            == lanes[l].last());
    }
    if goal == Goal::Entrance {
        assert(0 <= l < lanes.len() && start == lanes[l][0]);
    } else {
        assert(0 <= l < lanes.len() && start == lanes[l].last());
    }
    assert(is_goal(map, goal, start));
    lemma_lane_walk(map, path, goal, steps);
    assert(walk(map, goal, start, steps) == Some(path[i]));
    lemma_shortest_walk(map, goal, d, start, steps);
    let j = path_index(path, i);
    let t = d[j].unwrap().tiles;
    assert(in_map(map, path[i]));
    lemma_entry_walk(map, goal, d, j);
    let other = choose|other: (int, int)|
        {
            &&& is_goal(map, goal, other)
            &&& #[trigger] walk(map, goal, other, t as nat) is Some
            &&& tile_index(
                walk(map, goal, other, t as nat).unwrap().0,
                walk(map, goal, other, t as nat).unwrap().1,
            ) == j
        };
    let m = lemma_goal_walk(map, lanes, goal, other, t as nat);
    let k = steps_from_goal(n, goal, t as int);
    assert(lane(map, lanes[m]));
    assert(lanes[m].len() == n);
    assert(in_map(map, lanes[m][k]));
    lemma_index_injective(lanes[m][k], path[i]);
    assert(lanes[m][k] == lanes[l][i]);
}

/// The turns of the tiles `path[lo]` up to, not including, `path[hi]`.
pub open spec fn lane_turns(map: Seq<Tile>, path: Seq<(int, int)>, lo: int, hi: int) -> int
    decreases hi - lo,
{
    if lo >= hi {
        0
    } else {
        rotation_of(tile_of(map, path[lo])) + lane_turns(map, path, lo + 1, hi)
    }
}

proof fn lemma_turns_split(map: Seq<Tile>, path: Seq<(int, int)>, lo: int, mid: int, hi: int)
    requires
        lo <= mid <= hi,
    ensures
        lane_turns(map, path, lo, hi) == lane_turns(map, path, lo, mid) + lane_turns(
            map,
            path,
            mid,
            hi,
        ),
    decreases mid - lo,
{
    if lo < mid {
        lemma_turns_split(map, path, lo + 1, mid, hi);
    }
}

/// On parallel lanes, the turns toward a goal of the `i`-th tile of a lane
/// are those of the tiles between it and the goal: toward the exit, those of
/// the tiles after it; toward the entrance, those of the tiles before it.
proof fn lemma_lane_rotation(
    map: Seq<Tile>,
    lanes: Seq<Seq<(int, int)>>,
    goal: Goal,
    d: Seq<Option<Distance>>,
    l: int,
    i: int,
)
    requires
        lanes_of(map, lanes),
        distances_to(map, goal, d),
        steps_keep_columns(map, goal),
        0 <= l < lanes.len(),
        0 <= i < lanes[l].len(),
    ensures
        d[path_index(lanes[l], i)] is Some,
        d[path_index(lanes[l], i)].unwrap().rotation == (if goal == Goal::Entrance {
            lane_turns(map, lanes[l], 0, i)
        } else {
            lane_turns(map, lanes[l], i + 1, lanes[l].len() as int)
        }),
    decreases steps_from_goal(lanes[l].len() as int, goal, i),
{
    let path = lanes[l];
    let n = path.len() as int;
    assert(lane(map, path));
    assert(n == lanes[0].len());
    let j = path_index(path, i);
    lemma_lane_distance(map, lanes, goal, d, l, i);
    let (place, parent) = choose|place: Seq<(int, int)>, parent: Seq<int>|
        explained_by(map, goal, d, place, parent);
    assert(entry_explained(map, goal, d, place, parent, j));
    let tiles = d[j].unwrap().tiles;
    if tiles > 0 {
        assert(reached_from_parent(map, goal, d, place, parent, j));
        let p = parent[j];
        let next = if goal == Goal::Entrance {
            i - 1
        } else {
            i + 1
        };
        // The parent is the tile one step closer to the goal, on the same lane.
        lemma_places_in_columns(map, goal, d, place, parent, j);
        lemma_places_in_columns(map, goal, d, place, parent, p);
        assert(entry_explained(map, goal, d, place, parent, p));
        assert(in_map(map, path[i]));
        lemma_index_injective(place[j], path[i]);
        lemma_entry_walk(map, goal, d, p);
        let start = choose|start: (int, int)|
            {
                &&& is_goal(map, goal, start)
                &&& #[trigger] walk(map, goal, start, d[p].unwrap().tiles as nat) is Some
                &&& tile_index(
                    walk(map, goal, start, d[p].unwrap().tiles as nat).unwrap().0,
                    walk(map, goal, start, d[p].unwrap().tiles as nat).unwrap().1,
                ) == p
            };
        let m = lemma_goal_walk(map, lanes, goal, start, d[p].unwrap().tiles as nat);
        assert(lane(map, lanes[m]));
        assert(lanes[m].len() == n);
        assert(in_map(map, lanes[m][next]));
        lemma_index_injective(place[p], lanes[m][next]);
        // Its step away from the goal leads to the `i`-th tile of its own lane.
        assert(step_from(goal, tile_of(map, lanes[m][next]), lanes[m][next].0, lanes[m][next].1)
            == Some(lanes[m][i]));
        assert(lanes[m][i] == lanes[l][i]);
        assert(m == l);
        assert(p == path_index(path, next));
        lemma_lane_rotation(map, lanes, goal, d, l, next);
        if goal == Goal::Entrance {
            lemma_turns_split(map, path, 0, i - 1, i);
            assert(lane_turns(map, path, i, i) == 0);
            assert(lane_turns(map, path, i - 1, i) == rotation_of(tile_of(map, path[i - 1])));
        } else {
            assert(lane_turns(map, path, i + 1, n) == rotation_of(tile_of(map, path[i + 1]))
                + lane_turns(map, path, i + 2, n));
        }
    }
}

/// On a map whose path is made of parallel lanes of one length, the tile
/// distances toward the entrance and toward the exit of any tile of the path
/// add up to the same value, the number of steps from an entrance to its
/// exit. The turns add up likewise: those toward the entrance, the tile's own
/// turn and those toward the exit make the turns of the tile's whole lane.
pub proof fn lemma_total_distance(
    map: Seq<Tile>,
    lanes: Seq<Seq<(int, int)>>,
    from_entrance: Seq<Option<Distance>>,
    from_exit: Seq<Option<Distance>>,
    l: int,
    i: int,
)
    requires
        lanes_of(map, lanes),
        distances_to(map, Goal::Entrance, from_entrance),
        distances_to(map, Goal::Exit, from_exit),
        steps_keep_columns(map, Goal::Entrance),
        steps_keep_columns(map, Goal::Exit),
        0 <= l < lanes.len(),
        0 <= i < lanes[l].len(),
    ensures
        from_entrance[path_index(lanes[l], i)] is Some,
        from_exit[path_index(lanes[l], i)] is Some,
        from_entrance[path_index(lanes[l], i)].unwrap().tiles + from_exit[path_index(
            lanes[l],
            i,
        )].unwrap().tiles == lanes[0].len() - 1,
        from_entrance[path_index(lanes[l], i)].unwrap().rotation + rotation_of(
            tile_of(map, lanes[l][i]),
        ) + from_exit[path_index(lanes[l], i)].unwrap().rotation == lane_turns(
            map,
            lanes[l],
            0,
            lanes[l].len() as int,
        ),
{
    lemma_lane_distance(map, lanes, Goal::Entrance, from_entrance, l, i);
    lemma_lane_distance(map, lanes, Goal::Exit, from_exit, l, i);
    lemma_lane_rotation(map, lanes, Goal::Entrance, from_entrance, l, i);
    lemma_lane_rotation(map, lanes, Goal::Exit, from_exit, l, i);
    lemma_turns_split(map, lanes[l], 0, i, lanes[l].len() as int);
}

proof fn lemma_side_entrances_are_goals(map: Seq<Tile>, n: int)
    requires
        covers_entrance_ring(map),
        0 <= n <= MAP_HEIGHT,
    ensures
        forall|i: int|
            0 <= i < side_entrances_upto(map, n).len() ==> is_entrance_at(
                map,
                (#[trigger] side_entrances_upto(map, n)[i]).0 as int,
                side_entrances_upto(map, n)[i].1 as int,
            ),
    decreases n,
{
    if n > 0 {
        lemma_side_entrances_are_goals(map, n - 1);
        let before = side_entrances_upto(map, n - 1);
        let row = side_entrances(map, n - 1);
        assert(side_entrances_upto(map, n) == before + row);
        assert forall|i: int| 0 <= i < row.len() implies is_entrance_at(
            map,
            (#[trigger] row[i]).0 as int,
            row[i].1 as int,
        ) by {}
        assert forall|i: int| 0 <= i < side_entrances_upto(map, n).len() implies is_entrance_at(
            map,
            (#[trigger] side_entrances_upto(map, n)[i]).0 as int,
            side_entrances_upto(map, n)[i].1 as int,
        ) by {
            if i >= before.len() {
                assert(side_entrances_upto(map, n)[i] == row[i - before.len()]);
            } else {
                assert(side_entrances_upto(map, n)[i] == before[i]);
            }
        }
    }
}

proof fn lemma_end_entrances_are_goals(map: Seq<Tile>, n: int)
    requires
        covers_entrance_ring(map),
        0 <= n <= MAP_WIDTH,
    ensures
        forall|i: int|
            0 <= i < end_entrances_upto(map, n).len() ==> is_entrance_at(
                map,
                (#[trigger] end_entrances_upto(map, n)[i]).0 as int,
                end_entrances_upto(map, n)[i].1 as int,
            ),
    decreases n,
{
    if n > 0 {
        lemma_end_entrances_are_goals(map, n - 1);
        let before = end_entrances_upto(map, n - 1);
        let col = end_entrances(map, n - 1);
        assert(end_entrances_upto(map, n) == before + col);
        assert forall|i: int| 0 <= i < col.len() implies is_entrance_at(
            map,
            (#[trigger] col[i]).0 as int,
            col[i].1 as int,
        ) by {}
        assert forall|i: int| 0 <= i < end_entrances_upto(map, n).len() implies is_entrance_at(
            map,
            (#[trigger] end_entrances_upto(map, n)[i]).0 as int,
            end_entrances_upto(map, n)[i].1 as int,
        ) by {
            if i >= before.len() {
                assert(end_entrances_upto(map, n)[i] == col[i - before.len()]);
            } else {
                assert(end_entrances_upto(map, n)[i] == before[i]);
            }
        }
    }
}

/// Every entrance that `entrances` lists is an entrance tile of the distance
/// search: a straight path tile on the ring just outside the visible map that
/// points into it.
pub proof fn lemma_listed_entrances_are_goals(map: Seq<Tile>, i: int)
    requires
        covers_entrance_ring(map),
        0 <= i < entrances_of(map).len(),
    ensures
        is_goal(map, Goal::Entrance, (entrances_of(map)[i].0 as int, entrances_of(map)[i].1 as int)),
{
    lemma_side_entrances_are_goals(map, MAP_HEIGHT as int);
    lemma_end_entrances_are_goals(map, MAP_WIDTH as int);
    let sides = side_entrances_upto(map, MAP_HEIGHT as int);
    let ends = end_entrances_upto(map, MAP_WIDTH as int);
    let e = entrances_of(map)[i];
    if i < sides.len() {
        assert(e == sides[i]);
        lemma_side_bounds(map, MAP_HEIGHT as int, i);
    } else {
        assert(e == ends[i - sides.len()]);
        lemma_end_bounds(map, MAP_WIDTH as int, i - sides.len());
    }
}

proof fn lemma_side_bounds(map: Seq<Tile>, n: int, i: int)
    requires
        0 <= n <= MAP_HEIGHT,
        0 <= i < side_entrances_upto(map, n).len(),
    ensures
        2 <= side_entrances_upto(map, n)[i].0 < 2 + n,
        side_entrances_upto(map, n)[i].1 == 1 || side_entrances_upto(map, n)[i].1 == MAP_WIDTH + 2,
    decreases n,
{
    if n > 0 {
        let before = side_entrances_upto(map, n - 1);
        assert(side_entrances_upto(map, n) == before + side_entrances(map, n - 1));
        if i < before.len() {
            lemma_side_bounds(map, n - 1, i);
        }
    }
}

proof fn lemma_end_bounds(map: Seq<Tile>, n: int, i: int)
    requires
        0 <= n <= MAP_WIDTH,
        0 <= i < end_entrances_upto(map, n).len(),
    ensures
        2 <= end_entrances_upto(map, n)[i].1 < 2 + n,
        end_entrances_upto(map, n)[i].0 == 1 || end_entrances_upto(map, n)[i].0 == MAP_HEIGHT + 2,
    decreases n,
{
    if n > 0 {
        let before = end_entrances_upto(map, n - 1);
        assert(end_entrances_upto(map, n) == before + end_entrances(map, n - 1));
        if i < before.len() {
            lemma_end_bounds(map, n - 1, i);
        }
    }
}

proof fn lemma_side_listed(map: Seq<Tile>, n: int, r: int)
    requires
        0 <= n <= MAP_HEIGHT,
        2 <= r < 2 + n,
    ensures
        map[tile_index(r, 1)] == Tile::East ==> side_entrances_upto(map, n).contains(
            (r as usize, 1usize),
        ),
        map[tile_index(r, MAP_WIDTH + 2)] == Tile::West ==> side_entrances_upto(map, n).contains(
            (r as usize, (MAP_WIDTH + 2) as usize),
        ),
    decreases n,
{
    let before = side_entrances_upto(map, n - 1);
    let row = side_entrances(map, n - 1);
    let all = side_entrances_upto(map, n);
    assert(all == before + row);
    if r < 2 + n - 1 {
        lemma_side_listed(map, n - 1, r);
        if map[tile_index(r, 1)] == Tile::East {
            let i = choose|i: int| 0 <= i < before.len() && before[i] == (r as usize, 1usize);
            assert(all[i] == before[i]);
        }
        if map[tile_index(r, MAP_WIDTH + 2)] == Tile::West {
            let i = choose|i: int|
                0 <= i < before.len() && before[i] == (r as usize, (MAP_WIDTH + 2) as usize);
            assert(all[i] == before[i]);
        }
    } else {
        if map[tile_index(r, 1)] == Tile::East {
            assert(all[before.len() as int] == row[0]);
        }
        if map[tile_index(r, MAP_WIDTH + 2)] == Tile::West {
            assert(all[all.len() - 1] == row[row.len() - 1]);
        }
    }
}

proof fn lemma_end_listed(map: Seq<Tile>, n: int, c: int)
    requires
        0 <= n <= MAP_WIDTH,
        2 <= c < 2 + n,
    ensures
        map[tile_index(1, c)] == Tile::South ==> end_entrances_upto(map, n).contains(
            (1usize, c as usize),
        ),
        map[tile_index(MAP_HEIGHT + 2, c)] == Tile::North ==> end_entrances_upto(map, n).contains(
            ((MAP_HEIGHT + 2) as usize, c as usize),
        ),
    decreases n,
{
    let before = end_entrances_upto(map, n - 1);
    let col = end_entrances(map, n - 1);
    let all = end_entrances_upto(map, n);
    assert(all == before + col);
    if c < 2 + n - 1 {
        lemma_end_listed(map, n - 1, c);
        if map[tile_index(1, c)] == Tile::South {
            let i = choose|i: int| 0 <= i < before.len() && before[i] == (1usize, c as usize);
            assert(all[i] == before[i]);
        }
        if map[tile_index(MAP_HEIGHT + 2, c)] == Tile::North {
            let i = choose|i: int|
                0 <= i < before.len() && before[i] == ((MAP_HEIGHT + 2) as usize, c as usize);
            assert(all[i] == before[i]);
        }
    } else {
        if map[tile_index(1, c)] == Tile::South {
            assert(all[before.len() as int] == col[0]);
        }
        if map[tile_index(MAP_HEIGHT + 2, c)] == Tile::North {
            assert(all[all.len() - 1] == col[col.len() - 1]);
        }
    }
}

/// `entrances` lists every straight path tile on the ring just outside the
/// visible map that points into it, beside or above the visible map: eastward
/// tiles west of each visible row and westward ones east of it, southward
/// tiles north of each visible column and northward ones south of it.
pub proof fn lemma_entrances_all_listed(map: Seq<Tile>, r: int, c: int)
    requires
        covers_entrance_ring(map),
        2 <= r < 2 + MAP_HEIGHT,
        2 <= c < 2 + MAP_WIDTH,
    ensures
        map[tile_index(r, 1)] == Tile::East ==> entrances_of(map).contains((r as usize, 1usize)),
        map[tile_index(r, MAP_WIDTH + 2)] == Tile::West ==> entrances_of(map).contains(
            (r as usize, (MAP_WIDTH + 2) as usize),
        ),
        map[tile_index(1, c)] == Tile::South ==> entrances_of(map).contains((1usize, c as usize)),
        map[tile_index(MAP_HEIGHT + 2, c)] == Tile::North ==> entrances_of(map).contains(
            ((MAP_HEIGHT + 2) as usize, c as usize),
        ),
{
    lemma_side_listed(map, MAP_HEIGHT as int, r);
    lemma_end_listed(map, MAP_WIDTH as int, c);
    let sides = side_entrances_upto(map, MAP_HEIGHT as int);
    let ends = end_entrances_upto(map, MAP_WIDTH as int);
    let all = entrances_of(map);
    assert(all == sides + ends);
    if map[tile_index(r, 1)] == Tile::East {
        let i = choose|i: int| 0 <= i < sides.len() && sides[i] == (r as usize, 1usize);
        assert(all[i] == sides[i]);
    }
    if map[tile_index(r, MAP_WIDTH + 2)] == Tile::West {
        let i = choose|i: int|
            0 <= i < sides.len() && sides[i] == (r as usize, (MAP_WIDTH + 2) as usize);
        assert(all[i] == sides[i]);
    }
    if map[tile_index(1, c)] == Tile::South {
        let i = choose|i: int| 0 <= i < ends.len() && ends[i] == (1usize, c as usize);
        assert(all[sides.len() + i] == ends[i]);
    }
    if map[tile_index(MAP_HEIGHT + 2, c)] == Tile::North {
        let i = choose|i: int|
            0 <= i < ends.len() && ends[i] == ((MAP_HEIGHT + 2) as usize, c as usize);
        assert(all[sides.len() + i] == ends[i]);
    }
}

/// Entrances and exits are straight path tiles on the ring just outside the
/// visible map: an entrance points onto the visible map's edge, an exit off
/// the map onto its outer ring.
pub proof fn lemma_goal_tiles(map: Seq<Tile>, p: (int, int))
    ensures
        is_goal(map, Goal::Entrance, p) || is_goal(map, Goal::Exit, p) ==> {
            let tile = map[tile_index(p.0, p.1)];
            &&& tile == Tile::North || tile == Tile::South || tile == Tile::East || tile == Tile::West
            &&& p.0 == 1 || p.1 == 1 || p.0 == TRUE_MAP_HEIGHT - 2 || p.1 == TRUE_MAP_WIDTH - 2
        },
        is_goal(map, Goal::Entrance, p) ==> {
            let next = destination(map[tile_index(p.0, p.1)], p.0, p.1);
            next.0 == 2 || next.1 == 2 || next.0 == TRUE_MAP_HEIGHT - 3 || next.1 == TRUE_MAP_WIDTH - 3
        },
        is_goal(map, Goal::Exit, p) ==> {
            let next = destination(map[tile_index(p.0, p.1)], p.0, p.1);
            next.0 == 0 || next.1 == 0 || next.0 == TRUE_MAP_HEIGHT - 1 || next.1 == TRUE_MAP_WIDTH - 1
        },
{
}

} // verus!
