//! The headings that a walker takes along the path: the one it walks in as it
//! enters a path tile and the one it leaves in, going toward the exit.

use vstd::prelude::*;

use crate::map::distances::{destination, rotation_of, step_from, Goal};
use crate::map::Tile;

verus! {

/// A cardinal direction on the map; north is toward row 0 and west toward
/// column 0.
#[derive(Clone, Copy, PartialEq, Eq, Structural, Debug)]
pub enum Heading {
    North,
    South,
    East,
    West,
}

/// The position one step from `row`, `col` in `heading`.
pub open spec fn ahead(heading: Heading, row: int, col: int) -> (int, int) {
    match heading {
        Heading::North => (row - 1, col),
        Heading::South => (row + 1, col),
        Heading::East => (row, col + 1),
        Heading::West => (row, col - 1),
    }
}

/// The position one step from `row`, `col` against `heading`.
pub open spec fn behind(heading: Heading, row: int, col: int) -> (int, int) {
    match heading {
        Heading::North => (row + 1, col),
        Heading::South => (row - 1, col),
        Heading::East => (row, col - 1),
        Heading::West => (row, col + 1),
    }
}

/// On the path tile `tile`, a walker going toward the exit comes in heading
/// `entry` from the position behind it and leaves heading `exit` to the
/// position ahead, wherever the tile lies.
pub open spec fn walks_through(tile: Tile, entry: Heading, exit: Heading) -> bool {
    forall|row: int, col: int|
        #![trigger step_from(Goal::Exit, tile, row, col)]
        #![trigger step_from(Goal::Entrance, tile, row, col)]
        step_from(Goal::Exit, tile, row, col) == Some(behind(entry, row, col)) && step_from(
            Goal::Entrance,
            tile,
            row,
            col,
        ) == Some(ahead(exit, row, col))
}

/// The heading in which a walker going toward the exit enters `tile` and the
/// one in which it leaves, or `None` where `tile` is no path tile. A straight
/// tile is entered and left in its own heading; a corner named
/// `FirstToSecond` is entered heading `First` and left heading `Second`.
pub fn path_headings(tile: Tile) -> (headings: Option<(Heading, Heading)>)
    ensures
        headings is None <==> step_from(Goal::Exit, tile, 0, 0) is None,
        headings matches Some((entry, exit)) ==> walks_through(tile, entry, exit),
{
    match tile {
        Tile::North => Some((Heading::North, Heading::North)),
        Tile::South => Some((Heading::South, Heading::South)),
        Tile::East => Some((Heading::East, Heading::East)),
        Tile::West => Some((Heading::West, Heading::West)),
        Tile::NorthToEast => Some((Heading::North, Heading::East)),
        Tile::NorthToWest => Some((Heading::North, Heading::West)),
        Tile::SouthToEast => Some((Heading::South, Heading::East)),
        Tile::SouthToWest => Some((Heading::South, Heading::West)),
        Tile::EastToNorth => Some((Heading::East, Heading::North)),
        Tile::EastToSouth => Some((Heading::East, Heading::South)),
        Tile::WestToNorth => Some((Heading::West, Heading::North)),
        Tile::WestToSouth => Some((Heading::West, Heading::South)),
        Tile::OutOfBounds | Tile::Empty => None,
    }
}

/// The heading a quarter turn to the left of `heading`, with the rows
/// growing southward: east turns to north, north to west, west to south and
/// south to east.
pub open spec fn left_of(heading: Heading) -> Heading {
    match heading {
        Heading::East => Heading::North,
        Heading::North => Heading::West,
        Heading::West => Heading::South,
        Heading::South => Heading::East,
    }
}

/// A path tile's turn counts +1 when the path turns left on it (counter
/// clockwise, rows growing southward), -1 when it turns right, and 0 when it
/// runs straight, as the headings in which a walker enters and leaves it
/// show.
pub proof fn lemma_turn_direction(tile: Tile, entry: Heading, exit: Heading)
    requires
        walks_through(tile, entry, exit),
    ensures
        rotation_of(tile) == (if exit == left_of(entry) {
            1
        } else if entry == left_of(exit) {
            -1
        } else {
            0
        }),
        exit == entry ==> rotation_of(tile) == 0,
{
    assert(step_from(Goal::Exit, tile, 0, 0) == Some(behind(entry, 0, 0)));
    assert(step_from(Goal::Entrance, tile, 0, 0) == Some(ahead(exit, 0, 0)));
    match tile {
        Tile::North | Tile::South | Tile::East | Tile::West => {
            assert(entry == exit);
        },
        _ => {},
    }
}

/// A straight path tile points toward the position ahead of it in its own
/// heading; a corner, or a tile off the path, points at itself.
pub proof fn lemma_destination_ahead(tile: Tile, entry: Heading, exit: Heading, row: int, col: int)
    requires
        walks_through(tile, entry, exit),
    ensures
        entry == exit ==> destination(tile, row, col) == ahead(exit, row, col),
        entry != exit ==> destination(tile, row, col) == (row, col),
{
    assert(step_from(Goal::Exit, tile, 0, 0) == Some(behind(entry, 0, 0)));
    assert(step_from(Goal::Entrance, tile, 0, 0) == Some(ahead(exit, 0, 0)));
}

} // verus!
