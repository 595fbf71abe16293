//! The tile map: its textual form, its parsed form, and the queries that the
//! rest of the game makes on it.

pub mod distances;

use vstd::prelude::*;
use vstd::string::StringSliceAdditionalSpecFns;
use vstd::string::StrSliceExecFns;

verus! {

pub const MAP_WIDTH: usize = 22;

pub const MAP_HEIGHT: usize = 18;

// A 2-tile ring of padding surrounds the visible map. The edges can then hold
// special terrain, and lookups near the visible edge stay inside the array.
pub const TRUE_MAP_WIDTH: usize = MAP_WIDTH + 4;

pub const TRUE_MAP_HEIGHT: usize = MAP_HEIGHT + 4;

/// Constants that several numerical types need, each in its own type.
pub trait Constants {
    const TILE_SIZE: Self;
}

impl Constants for usize {
    const TILE_SIZE: Self = 32;
}

// Textual representation of a map.
// # represents out of bounds impassable tiles
// [space] represents non-path tiles where you can place towers
// > represents a path heading east
// < represents a path heading west
// n represents a path heading north
// v represents a path heading south
// x represents a turn in the path
pub const MAP_0: [&'static str; TRUE_MAP_HEIGHT] = [
    "##########################",
    "##########################",
    "##                      ##",
    "#>>>x x>>>x    x>>>x x>>>#",
    "#>>xv nx>xv    nx>xv nx>>#",
    "## vx>xn vv    nn vx>xn ##",
    "## x>>>x vv    nn x>>>x ##",
    "##       vv    nn       ##",
    "## x<<<x vv    nn x<<<x ##",
    "## vx<xn vv    nn vx<xn ##",
    "## vv nx<xv    nx<xv nn ##",
    "## vv x<<<x    x<<<x nn ##",
    "## vv                nn ##",
    "## vv                nn ##",
    "## vv  x>>>x  x>>>x  nn ##",
    "## vv  nx>xv  nx>xv  nn ##",
    "## vv  nn vx>>xn vv  nn ##",
    "## vx>>xn x>>>>x vx>>xn ##",
    "## x>>>>x        x>>>>x ##",
    "##                      ##",
    "##########################",
    "##########################",
];

pub const _MAP_1: [&'static str; TRUE_MAP_HEIGHT] = [
    "##########################",
    "############vv############",
    "##          vv          ##",
    "##          vv          ##",
    "##          vv          ##",
    "##          vv          ##",
    "##        x<xx>x        ##",
    "##       xx    xx       ##",
    "##      xx      xx      ##",
    "##      v        v      ##",
    "#<<<<<<<x        x>>>>>>>#",
    "#<<<<<<<x        x>>>>>>>#",
    "##      n        n      ##",
    "##      xx      xx      ##",
    "##       xx    xx       ##",
    "##        x<xx>x        ##",
    "##          nn          ##",
    "##          nn          ##",
    "##          nn          ##",
    "##          nn          ##",
    "############nn############",
    "##########################",
];

pub const _MAP_2: [&'static str; TRUE_MAP_HEIGHT] = [
    "##########################",
    "##########################",
    "##                      ##",
    "##      x>>>>x  x>>>>x  ##",
    "#>>>>x  nx>>xv  nx>>xv  ##",
    "#>>>xv  nn  vv  nn  vv  ##",
    "##  vv  nn  vx>>xn  vv  ##",
    "##  vx>>xn  x>>>>x  vv  ##",
    "##  x>>>>x          vv  ##",
    "##                  vv  ##",
    "##  x<<<<<<<<<<<<<<<xv  ##",
    "##  vx<<<<<<<<<<<<<<<x  ##",
    "##  vv                  ##",
    "##  vv          x>>>>x  ##",
    "##  vv  x>>>>x  nx>>xv  ##",
    "##  vv  nx>>xv  nn  vv  ##",
    "##  vv  nn  vv  nn  vx>>>#",
    "##  vx>>xn  vx>>xn  x>>>>#",
    "##  x>>>>x  x>>>>x      ##",
    "##                      ##",
    "##########################",
    "##########################",
];

pub const _MAP_3: [&'static str; TRUE_MAP_HEIGHT] = [
    "##########################",
    "##########################",
    "##                      ##",
    "##                      ##",
    "##                      ##",
    "##                      ##",
    "##                      ##",
    "#<<<<<<<<<<<<<<<<<<<<<<<<#",
    "#<<<<<<<<<<<<<<<<<<<<<<<<#",
    "#<<<<<<<<<<<<<<<<<<<<<<<<#",
    "##                      ##",
    "##                      ##",
    "#>>>>>>>>>>>>>>>>>>>>>>>>#",
    "#>>>>>>>>>>>>>>>>>>>>>>>>#",
    "#>>>>>>>>>>>>>>>>>>>>>>>>#",
    "##                      ##",
    "##                      ##",
    "##                      ##",
    "##                      ##",
    "##                      ##",
    "##########################",
    "##########################",
];

#[derive(Clone, Copy, PartialEq, Eq, Structural, Debug)]
pub enum Tile {
    OutOfBounds,
    Empty,
    North,
    South,
    East,
    West,
    // DirectionToDirection means facing one direction and turning to
    // face another direction. It does not mean coming from one direction and
    // heading toward another.
    NorthToEast,
    NorthToWest,
    SouthToEast,
    SouthToWest,
    EastToNorth,
    EastToSouth,
    WestToNorth,
    WestToSouth,
}

/// The character that the byte at index `i` of `s` stands for on its own.
pub open spec fn byte_char(s: &str, i: int) -> char {
    s.spec_bytes()[i] as char
}

/// The turn that a corner tile (`x`) at `row`, `col` makes, read from its
/// neighbours in the textual map.
pub open spec fn corner_tile(rows: Seq<&str>, row: int, col: int) -> Tile {
    if byte_char(rows[row - 1], col) == 'v' {
        if byte_char(rows[row], col - 1) == '<' {
            Tile::SouthToWest
        } else {
            Tile::SouthToEast
        }
    } else if byte_char(rows[row + 1], col) == 'n' {
        if byte_char(rows[row], col - 1) == '<' {
            Tile::NorthToWest
        } else {
            Tile::NorthToEast
        }
    } else if byte_char(rows[row], col - 1) == '>' {
        if byte_char(rows[row - 1], col) == 'n' {
            Tile::EastToNorth
        } else {
            Tile::EastToSouth
        }
    } else {
        if byte_char(rows[row - 1], col) == 'n' {
            Tile::WestToNorth
        } else {
            Tile::WestToSouth
        }
    }
}

/// The tile that character `ch`, found at `row`, `col`, stands for.
pub open spec fn char_tile(rows: Seq<&str>, row: int, col: int, ch: char) -> Tile {
    if ch == ' ' {
        Tile::Empty
    } else if ch == 'n' {
        Tile::North
    } else if ch == 'v' {
        Tile::South
    } else if ch == '>' {
        Tile::East
    } else if ch == '<' {
        Tile::West
    } else if ch == 'x' {
        corner_tile(rows, row, col)
    } else {
        Tile::OutOfBounds
    }
}

/// The tiles of one row of the textual map, one per character.
pub open spec fn parse_row(rows: Seq<&str>, row: int) -> Seq<Tile> {
    rows[row]@.map(|col: int, ch: char| char_tile(rows, row, col, ch))
}

/// The tiles of the first `n` rows of the textual map, row after row.
pub open spec fn parse_rows(rows: Seq<&str>, n: int) -> Seq<Tile>
    decreases n,
{
    if n <= 0 {
        Seq::empty()
    } else {
        parse_rows(rows, n - 1) + parse_row(rows, n - 1)
    }
}

/// Every lookup that deciding the turn of the corner at `row`, `col` makes
/// stays inside the textual map.
pub open spec fn corner_readable(rows: Seq<&str>, row: int, col: int) -> bool {
    &&& 1 <= row
    &&& 1 <= col
    &&& col < rows[row - 1].spec_bytes().len()
    &&& byte_char(rows[row - 1], col) != 'v' ==> {
        &&& row + 1 < rows.len()
        &&& col < rows[row + 1].spec_bytes().len()
    }
}

/// Every corner of the textual map can be decided without leaving the map.
pub open spec fn corners_readable(rows: Seq<&str>) -> bool {
    forall|row: int, col: int|
        0 <= row < rows.len() && 0 <= col < rows[row]@.len() && rows[row]@[col] == 'x'
            ==> corner_readable(rows, row, col)
}

proof fn lemma_encoding_is_no_shorter(chars: Seq<char>)
    ensures
        chars.len() <= vstd::utf8::encode_utf8(chars).len(),
    decreases chars.len(),
{
    if chars.len() > 0 {
        lemma_encoding_is_no_shorter(chars.drop_first());
    }
}

fn byte_char_at(map_str: &[&str], row: usize, col: usize) -> (c: char)
    requires
        row < map_str@.len(),
        col < map_str@[row as int].spec_bytes().len(),
    ensures
        c == byte_char(map_str@[row as int], col as int),
{
    map_str[row].as_bytes()[col] as char
}

fn corner_at(map_str: &[&str], row: usize, col: usize) -> (tile: Tile)
    requires
        row < map_str@.len(),
        col < map_str@[row as int]@.len(),
        corner_readable(map_str@, row as int, col as int),
    ensures
        tile == corner_tile(map_str@, row as int, col as int),
{
    proof {
        lemma_encoding_is_no_shorter(map_str@[row as int]@);
    }
    assert(map_str@.len() == map_str.len());
    let above = byte_char_at(map_str, row - 1, col);
    if above == 'v' {
        if byte_char_at(map_str, row, col - 1) == '<' {
            Tile::SouthToWest
        } else {
            Tile::SouthToEast
        }
    } else if {
        assert(byte_char(map_str@[row - 1], col as int) != 'v');
        byte_char_at(map_str, row + 1, col) == 'n'
    } {
        if byte_char_at(map_str, row, col - 1) == '<' {
            Tile::NorthToWest
        } else {
            Tile::NorthToEast
        }
    } else if byte_char_at(map_str, row, col - 1) == '>' {
        if byte_char_at(map_str, row - 1, col) == 'n' {
            Tile::EastToNorth
        } else {
            Tile::EastToSouth
        }
    } else {
        if byte_char_at(map_str, row - 1, col) == 'n' {
            Tile::WestToNorth
        } else {
            Tile::WestToSouth
        }
    }
}

fn corner_is_readable(map_str: &[&str], row: usize, col: usize) -> (b: bool)
    requires
        row < map_str@.len(),
    ensures
        b == corner_readable(map_str@, row as int, col as int),
{
    assert(map_str@.len() == map_str.len());
    if row < 1 || col < 1 {
        return false;
    }
    if col >= map_str[row - 1].as_bytes().len() {
        return false;
    }
    if byte_char_at(map_str, row - 1, col) != 'v' {
        row + 1 < map_str.len() && col < map_str[row + 1].as_bytes().len()
    } else {
        true
    }
}

/// Whether every corner of the textual map can be decided without leaving
/// the map, as `parse` needs.
pub fn corners_are_readable(map_str: &[&str]) -> (b: bool)
    ensures
        b == corners_readable(map_str@),
{
    let mut row: usize = 0;
    while row < map_str.len()
        invariant
            row <= map_str@.len(),
            forall|r: int, c: int|
                0 <= r < row && 0 <= c < map_str@[r]@.len() && map_str@[r]@[c] == 'x'
                    ==> corner_readable(map_str@, r, c),
        decreases map_str@.len() - row,
    {
        let row_str: &str = map_str[row];
        // The character count bounds the column counter below.
        let row_len: usize = row_str.unicode_len();
        let mut col: usize = 0;
        for ch in it: row_str.chars()
            invariant
                row < map_str@.len(),
                row_str == map_str@[row as int],
                row_len == row_str@.len(),
                it.seq() == row_str@,
                col == it.index(),
                forall|r: int, c: int|
                    0 <= r < row && 0 <= c < map_str@[r]@.len() && map_str@[r]@[c] == 'x'
                        ==> corner_readable(map_str@, r, c),
                forall|c: int|
                    0 <= c < col && map_str@[row as int]@[c] == 'x' ==> corner_readable(
                        map_str@,
                        row as int,
                        c,
                    ),
        {
            if ch == 'x' && !corner_is_readable(map_str, row, col) {
                return false;
            }
            col = col + 1;
        }
        row = row + 1;
    }
    true
}

/// Turn the textual representation of the map into a more convenient
/// representation for the computer. Specifically, this function figures out
/// which way corners turn.
pub fn parse(map_str: &[&str]) -> (parsed_map: Vec<Tile>)
    requires
        corners_readable(map_str@),
    ensures
        parsed_map@ == parse_rows(map_str@, map_str@.len() as int),
{
    let mut parsed_map: Vec<Tile> = Vec::with_capacity(TRUE_MAP_WIDTH * TRUE_MAP_HEIGHT);

    let mut row: usize = 0;
    while row < map_str.len()
        invariant
            row <= map_str@.len(),
            corners_readable(map_str@),
            parsed_map@ == parse_rows(map_str@, row as int),
        decreases map_str@.len() - row,
    {
        let row_str: &str = map_str[row];
        // The character count bounds the column counter below.
        let row_len: usize = row_str.unicode_len();
        let ghost before = parsed_map@;
        let mut col: usize = 0;
        for ch in it: row_str.chars()
            invariant
                row < map_str@.len(),
                row_str == map_str@[row as int],
                row_len == row_str@.len(),
                corners_readable(map_str@),
                before == parse_rows(map_str@, row as int),
                it.seq() == row_str@,
                col == it.index(),
                parsed_map@ == before + parse_row(map_str@, row as int).take(col as int),
        {
            let tile = if ch == ' ' {
                Tile::Empty
            } else if ch == 'n' {
                Tile::North
            } else if ch == 'v' {
                Tile::South
            } else if ch == '>' {
                Tile::East
            } else if ch == '<' {
                Tile::West
            } else if ch == 'x' {
                corner_at(map_str, row, col)
            } else {
                Tile::OutOfBounds
            };
            parsed_map.push(tile);
            proof {
                assert(parse_row(map_str@, row as int).take(col + 1) =~= parse_row(
                    map_str@,
                    row as int,
                ).take(col as int).push(tile));
            }
            col = col + 1;
        }
        proof {
            assert(parse_row(map_str@, row as int).take(col as int) =~= parse_row(
                map_str@,
                row as int,
            ));
        }
        row = row + 1;
    }
    parsed_map
}


/// The index of the true-map position `row`, `col` in a parsed map.
pub open spec fn tile_index(row: int, col: int) -> int {
    row * TRUE_MAP_WIDTH + col
}

/// A textual map of `TRUE_MAP_HEIGHT` rows of `TRUE_MAP_WIDTH` characters
/// parses to one tile per position, found at the position's tile index.
pub proof fn lemma_parsed_tile_index(rows: Seq<&str>, row: int, col: int)
    requires
        rows.len() == TRUE_MAP_HEIGHT,
        forall|r: int| 0 <= r < rows.len() ==> #[trigger] rows[r]@.len() == TRUE_MAP_WIDTH,
        0 <= row < TRUE_MAP_HEIGHT,
        0 <= col < TRUE_MAP_WIDTH,
    ensures
        parse_rows(rows, TRUE_MAP_HEIGHT as int).len() == TRUE_MAP_WIDTH * TRUE_MAP_HEIGHT,
        parse_rows(rows, TRUE_MAP_HEIGHT as int)[tile_index(row, col)] == char_tile(
            rows,
            row,
            col,
            rows[row]@[col],
        ),
{
    lemma_parsed_rows(rows, TRUE_MAP_HEIGHT as int, row, col);
}

proof fn lemma_parsed_rows(rows: Seq<&str>, n: int, row: int, col: int)
    requires
        0 <= n <= rows.len(),
        forall|r: int| 0 <= r < rows.len() ==> #[trigger] rows[r]@.len() == TRUE_MAP_WIDTH,
        0 <= col < TRUE_MAP_WIDTH,
    ensures
        parse_rows(rows, n).len() == n * TRUE_MAP_WIDTH,
        0 <= row < n ==> parse_rows(rows, n)[tile_index(row, col)] == char_tile(
            rows,
            row,
            col,
            rows[row]@[col],
        ),
    decreases n,
{
    if n > 0 {
        lemma_parsed_rows(rows, n - 1, row, col);
        assert(parse_row(rows, n - 1).len() == TRUE_MAP_WIDTH);
        assert((n - 1) * TRUE_MAP_WIDTH + TRUE_MAP_WIDTH == n * TRUE_MAP_WIDTH) by (nonlinear_arith);
        if 0 <= row < n - 1 {
            assert(tile_index(row, col) < (n - 1) * TRUE_MAP_WIDTH) by (nonlinear_arith)
                requires
                    0 <= row < n - 1,
                    0 <= col < TRUE_MAP_WIDTH,
            ;
        }
    }
}

/// How a corner of a textual map parses, decided by its neighbours. A corner
/// below a southward path (`v`) is entered heading south, and turns west
/// exactly when the tile to its west is a westward path (`<`); any other
/// west neighbour (a corner, `>`, empty ground) sends it east. Otherwise a
/// corner above a northward path (`n`) is entered heading north and turns west
/// or east by the same rule. Otherwise a corner whose west neighbour is an
/// eastward path (`>`) is entered heading east, and any other one heading
/// west; either turns north exactly when the tile above it is a northward
/// path, and south otherwise.
pub proof fn lemma_corner_turns(rows: Seq<&str>, row: int, col: int)
    requires
        rows.len() == TRUE_MAP_HEIGHT,
        forall|r: int| 0 <= r < rows.len() ==> #[trigger] rows[r]@.len() == TRUE_MAP_WIDTH,
        0 <= row < TRUE_MAP_HEIGHT,
        0 <= col < TRUE_MAP_WIDTH,
        rows[row]@[col] == 'x',
    ensures
        ({
            let tile = parse_rows(rows, TRUE_MAP_HEIGHT as int)[tile_index(row, col)];
            let above = byte_char(rows[row - 1], col);
            let below = byte_char(rows[row + 1], col);
            let west = byte_char(rows[row], col - 1);
            &&& above == 'v' ==> (tile == Tile::SouthToWest <==> west == '<') && (tile
                == Tile::SouthToWest || tile == Tile::SouthToEast)
            &&& above != 'v' && below == 'n' ==> (tile == Tile::NorthToWest <==> west == '<') && (
            tile == Tile::NorthToWest || tile == Tile::NorthToEast)
            &&& above != 'v' && below != 'n' && west == '>' ==> (tile == Tile::EastToNorth <==> above
                == 'n') && (tile == Tile::EastToNorth || tile == Tile::EastToSouth)
            &&& above != 'v' && below != 'n' && west != '>' ==> (tile == Tile::WestToNorth <==> above
                == 'n') && (tile == Tile::WestToNorth || tile == Tile::WestToSouth)
        }),
{
    lemma_parsed_tile_index(rows, row, col);
}

/// What each character of a textual map parses to, corners aside: ' ' is
/// empty ground, 'n', 'v', '>' and '<' are straight paths heading north,
/// south, east and west, and any other character is out of bounds.
pub proof fn lemma_parsed_chars(rows: Seq<&str>, row: int, col: int)
    requires
        rows.len() == TRUE_MAP_HEIGHT,
        forall|r: int| 0 <= r < rows.len() ==> #[trigger] rows[r]@.len() == TRUE_MAP_WIDTH,
        0 <= row < TRUE_MAP_HEIGHT,
        0 <= col < TRUE_MAP_WIDTH,
    ensures
        ({
            let tile = parse_rows(rows, TRUE_MAP_HEIGHT as int)[tile_index(row, col)];
            let ch = rows[row]@[col];
            &&& ch == ' ' ==> tile == Tile::Empty
            &&& ch == 'n' ==> tile == Tile::North
            &&& ch == 'v' ==> tile == Tile::South
            &&& ch == '>' ==> tile == Tile::East
            &&& ch == '<' ==> tile == Tile::West
            &&& ch != ' ' && ch != 'n' && ch != 'v' && ch != '>' && ch != '<' && ch != 'x'
                ==> tile == Tile::OutOfBounds
            &&& ch == 'x' ==> tile != Tile::Empty && tile != Tile::OutOfBounds && tile
                != Tile::North && tile != Tile::South && tile != Tile::East && tile
                != Tile::West
        }),
{
    lemma_parsed_tile_index(rows, row, col);
}

/// A non-negative row and column are each at most their tile index.
pub(crate) proof fn lemma_tile_index_bounds(row: int, col: int)
    requires
        0 <= row,
        0 <= col,
    ensures
        row <= tile_index(row, col),
        col <= tile_index(row, col),
{
    assert(row <= row * TRUE_MAP_WIDTH) by (nonlinear_arith)
        requires
            0 <= row,
            TRUE_MAP_WIDTH == 26,
    ;
}

/// The entrances found on the west and east edges of visible row `row`.
pub open spec fn side_entrances(map: Seq<Tile>, row: int) -> Seq<(usize, usize)> {
    let true_row = 2 + row;
    let west = if map[tile_index(true_row, 1)] == Tile::East {
        seq![(true_row as usize, 1usize)]
    } else {
        Seq::empty()
    };
    let east = if map[tile_index(true_row, MAP_WIDTH + 2)] == Tile::West {
        seq![(true_row as usize, (MAP_WIDTH + 2) as usize)]
    } else {
        Seq::empty()
    };
    west + east
}

/// The entrances found on the north and south edges of visible column `col`.
pub open spec fn end_entrances(map: Seq<Tile>, col: int) -> Seq<(usize, usize)> {
    let true_col = 2 + col;
    let north = if map[tile_index(1, true_col)] == Tile::South {
        seq![(1usize, true_col as usize)]
    } else {
        Seq::empty()
    };
    let south = if map[tile_index(MAP_HEIGHT + 2, true_col)] == Tile::North {
        seq![((MAP_HEIGHT + 2) as usize, true_col as usize)]
    } else {
        Seq::empty()
    };
    north + south
}

pub open spec fn side_entrances_upto(map: Seq<Tile>, n: int) -> Seq<(usize, usize)>
    decreases n,
{
    if n <= 0 {
        Seq::empty()
    } else {
        side_entrances_upto(map, n - 1) + side_entrances(map, n - 1)
    }
}

pub open spec fn end_entrances_upto(map: Seq<Tile>, n: int) -> Seq<(usize, usize)>
    decreases n,
{
    if n <= 0 {
        Seq::empty()
    } else {
        end_entrances_upto(map, n - 1) + end_entrances(map, n - 1)
    }
}

/// All entrances of a map: first those on the west and east edges, row by
/// row, then those on the north and south edges, column by column.
pub open spec fn entrances_of(map: Seq<Tile>) -> Seq<(usize, usize)> {
    side_entrances_upto(map, MAP_HEIGHT as int) + end_entrances_upto(map, MAP_WIDTH as int)
}

/// The number of tiles that the queries on the visible map and its first
/// ring of padding read: every index up to the south-east corner of that ring.
pub open spec fn covers_visible_ring(map: Seq<Tile>) -> bool {
    tile_index(MAP_HEIGHT + 1, MAP_WIDTH + 1) < map.len()
}

/// The map has every tile of the ring just outside the visible area, up to
/// its south-east corner.
pub open spec fn covers_entrance_ring(map: Seq<Tile>) -> bool {
    tile_index(MAP_HEIGHT + 2, MAP_WIDTH + 2) < map.len()
}

/// A tile counts as an entrance tile if it is just out of the visible area and
/// points inward.
pub fn entrances(map: &[Tile]) -> (entrances: Vec<(usize, usize)>)
    requires
        covers_entrance_ring(map@),
    ensures
        entrances@ == entrances_of(map@),
{
    let mut entrances: Vec<(usize, usize)> = Vec::new();

    let mut row: usize = 0;
    while row < MAP_HEIGHT
        invariant
            row <= MAP_HEIGHT,
            covers_entrance_ring(map@),
            entrances@ == side_entrances_upto(map@, row as int),
        decreases MAP_HEIGHT - row,
    {
        let ghost before = entrances@;
        let true_row: usize = 2 + row;
        let true_col: usize = 1;

        if map[true_row * TRUE_MAP_WIDTH + true_col] == Tile::East {
            entrances.push((true_row, true_col));
        }
        let ghost middle = entrances@;

        let true_col: usize = MAP_WIDTH + 2;

        if map[true_row * TRUE_MAP_WIDTH + true_col] == Tile::West {
            entrances.push((true_row, true_col));
        }
        proof {
            assert(entrances@ =~= before + side_entrances(map@, row as int));
        }
        row = row + 1;
    }

    let mut col: usize = 0;
    while col < MAP_WIDTH
        invariant
            col <= MAP_WIDTH,
            covers_entrance_ring(map@),
            entrances@ == side_entrances_upto(map@, MAP_HEIGHT as int) + end_entrances_upto(
                map@,
                col as int,
            ),
        decreases MAP_WIDTH - col,
    {
        let ghost before = entrances@;
        let true_row: usize = 1;
        let true_col: usize = 2 + col;

        if map[true_row * TRUE_MAP_WIDTH + true_col] == Tile::South {
            entrances.push((true_row, true_col));
        }

        let true_row: usize = MAP_HEIGHT + 2;

        if map[true_row * TRUE_MAP_WIDTH + true_col] == Tile::North {
            entrances.push((true_row, true_col));
        }
        proof {
            assert(entrances@ =~= before + end_entrances(map@, col as int));
            assert(side_entrances_upto(map@, MAP_HEIGHT as int) + end_entrances_upto(
                map@,
                col + 1,
            ) =~= before + end_entrances(map@, col as int));
        }
        col = col + 1;
    }

    entrances
}

/// The tile at index `i`, if the map has one there.
pub open spec fn tile_at(map: Seq<Tile>, i: int) -> Option<Tile> {
    if 0 <= i < map.len() {
        Some(map[i])
    } else {
        None
    }
}

/// Whether a border separates the tiles at indices `a` and `b`.
pub open spec fn border_between(map: Seq<Tile>, a: int, b: int) -> bool {
    let tile_a = tile_at(map, a);
    let tile_b = tile_at(map, b);
    ||| tile_a == Some(Tile::OutOfBounds)
    ||| tile_b == Some(Tile::OutOfBounds)
    ||| (tile_a == Some(Tile::Empty)) != (tile_b == Some(Tile::Empty))
}

/// Borders do not depend on the order of the two tiles. Two path tiles, or
/// two empty tiles, have none between them; a path tile and empty ground
/// have one, and so does any tile beside the out of bounds.
pub proof fn lemma_border_cases(map: Seq<Tile>, a: int, b: int)
    requires
        0 <= a < map.len(),
        0 <= b < map.len(),
    ensures
        border_between(map, a, b) == border_between(map, b, a),
        map[a] == Tile::OutOfBounds ==> border_between(map, a, b),
        map[a] == Tile::Empty && map[b] == Tile::Empty ==> !border_between(map, a, b),
        map[a] != Tile::Empty && map[a] != Tile::OutOfBounds && map[b] != Tile::Empty && map[b]
            != Tile::OutOfBounds ==> !border_between(map, a, b),
        map[a] == Tile::Empty && map[b] != Tile::Empty ==> border_between(map, a, b),
{
}

fn is_tile(tile: Option<&Tile>, kind: Tile) -> (b: bool)
    ensures
        b == (tile == Some(&kind)),
{
    match tile {
        Some(t) => *t == kind,
        None => false,
    }
}

/// Whether a tower can stand on the visible position `row`, `col`: only
/// empty terrain takes one.
pub fn buildable(map: &[Tile], row: usize, col: usize) -> (b: bool)
    requires
        tile_index(row + 2, col + 2) <= usize::MAX,
    ensures
        b == (tile_at(map@, tile_index(row + 2, col + 2)) == Some(Tile::Empty)),
{
    let true_row = row + 2;
    let true_col = col + 2;
    is_tile(map.get(true_row * TRUE_MAP_WIDTH + true_col), Tile::Empty)
}

/// Whether two adjacent tiles are separated by a border, like between the path
/// and an empty tile or between an empty tile and the edge of the visible map.
/// In the future, we may want to allow for borders between path tiles, for
/// example at tight u-turns. But for now we can ignore that complexity.
///
/// But still, we avoid using the simpler tile_a, tile_b as parameters because
/// future implementations might need to know the positions of tile a and b.
pub fn has_border(
    map: &[Tile],
    true_row_a: usize,
    true_col_a: usize,
    true_row_b: usize,
    true_col_b: usize,
) -> (b: bool)
    requires
        tile_index(true_row_a as int, true_col_a as int) <= usize::MAX,
        tile_index(true_row_b as int, true_col_b as int) <= usize::MAX,
    ensures
        b == border_between(
            map@,
            tile_index(true_row_a as int, true_col_a as int),
            tile_index(true_row_b as int, true_col_b as int),
        ),
{
    let tile_a = map.get(true_row_a * TRUE_MAP_WIDTH + true_col_a);
    let tile_b = map.get(true_row_b * TRUE_MAP_WIDTH + true_col_b);

    (is_tile(tile_a, Tile::OutOfBounds)) || (is_tile(tile_b, Tile::OutOfBounds)) || ((is_tile(
        tile_a,
        Tile::Empty,
    )) ^ (is_tile(tile_b, Tile::Empty)))
}

/// A call that draws part of the map. Rows and columns are visible ones.
#[derive(Clone, Copy, PartialEq, Eq, Structural, Debug)]
pub enum MapRenderCall {
    /// Draw the path tile at `row`, `col`.
    PathTile { row: usize, col: usize },
    /// Draw the border on the north side (`horizontal`) or the west side of
    /// the tile at `row`, `col`.
    PathBorder { row: usize, col: usize, horizontal: bool },
}

/// The path tile calls for visible row `row`, up to visible column `n`.
pub open spec fn path_tile_calls(map: Seq<Tile>, row: int, n: int) -> Seq<MapRenderCall>
    decreases n,
{
    if n <= 0 {
        Seq::empty()
    } else {
        let col = n - 1;
        let call = if map[tile_index(row + 2, col + 2)] == Tile::Empty {
            Seq::empty()
        } else {
            seq![MapRenderCall::PathTile { row: row as usize, col: col as usize }]
        };
        path_tile_calls(map, row, n - 1) + call
    }
}

/// The border calls for visible row `row`, for the visible columns from
/// `first_col` up to `n`; the border lies north of each tile (`horizontal`)
/// or west of it.
pub open spec fn border_calls(
    map: Seq<Tile>,
    row: int,
    first_col: int,
    n: int,
    horizontal: bool,
) -> Seq<MapRenderCall>
    decreases n - first_col,
{
    if n <= first_col {
        Seq::empty()
    } else {
        let col = n - 1;
        let (row_b, col_b) = (row + 2, col + 2);
        let (row_a, col_a) = if horizontal {
            (row_b - 1, col_b)
        } else {
            (row_b, col_b - 1)
        };
        let call = if border_between(map, tile_index(row_a, col_a), tile_index(row_b, col_b)) {
            seq![MapRenderCall::PathBorder { row: row as usize, col: col as usize, horizontal }]
        } else {
            Seq::empty()
        };
        border_calls(map, row, first_col, n - 1, horizontal) + call
    }
}

/// Path tile calls for the visible rows below `n`.
pub open spec fn path_tile_rows(map: Seq<Tile>, n: int) -> Seq<MapRenderCall>
    decreases n,
{
    if n <= 0 {
        Seq::empty()
    } else {
        path_tile_rows(map, n - 1) + path_tile_calls(map, n - 1, MAP_WIDTH as int)
    }
}

/// Border calls for the visible rows from `first` up to `n`, for the visible
/// columns from `first_col` on.
pub open spec fn border_rows(
    map: Seq<Tile>,
    first: int,
    n: int,
    first_col: int,
    horizontal: bool,
) -> Seq<MapRenderCall>
    decreases n - first,
{
    if n <= first {
        Seq::empty()
    } else {
        border_rows(map, first, n - 1, first_col, horizontal) + border_calls(
            map,
            n - 1,
            first_col,
            MAP_WIDTH as int,
            horizontal,
        )
    }
}

/// Everything that rendering a map draws, in order: the path tiles, the
/// borders on the north sides of tiles, then those on the west sides.
pub open spec fn map_render_calls(map: Seq<Tile>) -> Seq<MapRenderCall> {
    path_tile_rows(map, MAP_HEIGHT as int) + border_rows(map, 1, MAP_HEIGHT as int, 0, true)
        + border_rows(map, 0, MAP_HEIGHT as int, 1, false)
}

proof fn lemma_concat_contains<A>(a: Seq<A>, b: Seq<A>, x: A)
    ensures
        (a + b).contains(x) <==> a.contains(x) || b.contains(x),
{
    if a.contains(x) {
        let i = choose|i: int| 0 <= i < a.len() && a[i] == x;
        assert((a + b)[i] == x);
    }
    if b.contains(x) {
        let i = choose|i: int| 0 <= i < b.len() && b[i] == x;
        assert((a + b)[a.len() + i] == x);
    }
    if (a + b).contains(x) {
        let i = choose|i: int| 0 <= i < (a + b).len() && (a + b)[i] == x;
        if i < a.len() {
            assert(a[i] == x);
        } else {
            assert(b[i - a.len()] == x);
        }
    }
}

/// A path tile call of visible row `row`, among its first `n` columns, is
/// drawn exactly for the tiles there that are not empty.
proof fn lemma_path_tile_calls_contain(map: Seq<Tile>, row: int, n: int, call: MapRenderCall)
    requires
        0 <= row < MAP_HEIGHT,
        0 <= n <= MAP_WIDTH,
    ensures
        path_tile_calls(map, row, n).contains(call) <==> (call matches MapRenderCall::PathTile {
            row: r,
            col: c,
        } && r == row && c < n && map[tile_index(row + 2, c + 2)] != Tile::Empty),
    decreases n,
{
    if n > 0 {
        let col = n - 1;
        let one = if map[tile_index(row + 2, col + 2)] == Tile::Empty {
            Seq::<MapRenderCall>::empty()
        } else {
            seq![MapRenderCall::PathTile { row: row as usize, col: col as usize }]
        };
        assert(path_tile_calls(map, row, n) == path_tile_calls(map, row, n - 1) + one);
        lemma_path_tile_calls_contain(map, row, n - 1, call);
        lemma_concat_contains(path_tile_calls(map, row, n - 1), one, call);
        if one.len() > 0 {
            assert(one.contains(call) <==> call == one[0]);
        }
    } else {
        assert(path_tile_calls(map, row, n) =~= Seq::empty());
    }
}

proof fn lemma_path_tile_rows_contain(map: Seq<Tile>, n: int, call: MapRenderCall)
    requires
        0 <= n <= MAP_HEIGHT,
    ensures
        path_tile_rows(map, n).contains(call) <==> (call matches MapRenderCall::PathTile {
            row: r,
            col: c,
        } && r < n && c < MAP_WIDTH && map[tile_index(r + 2, c + 2)] != Tile::Empty),
    decreases n,
{
    if n > 0 {
        lemma_path_tile_rows_contain(map, n - 1, call);
        lemma_path_tile_calls_contain(map, n - 1, MAP_WIDTH as int, call);
        lemma_concat_contains(
            path_tile_rows(map, n - 1),
            path_tile_calls(map, n - 1, MAP_WIDTH as int),
            call,
        );
    } else {
        assert(path_tile_rows(map, n) =~= Seq::empty());
    }
}

/// The border calls of visible row `row`, for the columns from `first_col`
/// below `n`, are drawn exactly where a border separates a tile from its
/// neighbour to the north (`horizontal`) or west.
proof fn lemma_border_calls_contain(
    map: Seq<Tile>,
    row: int,
    first_col: int,
    n: int,
    horizontal: bool,
    call: MapRenderCall,
)
    requires
        0 <= row < MAP_HEIGHT,
        0 <= first_col,
        n <= MAP_WIDTH,
    ensures
        border_calls(map, row, first_col, n, horizontal).contains(call) <==> (
        call matches MapRenderCall::PathBorder { row: r, col: c, horizontal: h } && r == row
            && first_col <= c < n && h == horizontal && border_between(
            map,
            if horizontal {
                tile_index(row + 1, c + 2)
            } else {
                tile_index(row + 2, c + 1)
            },
            tile_index(row + 2, c + 2),
        )),
    decreases n - first_col,
{
    if n > first_col {
        let col = n - 1;
        let (row_a, col_a) = if horizontal {
            (row + 1, col + 2)
        } else {
            (row + 2, col + 1)
        };
        let one = if border_between(map, tile_index(row_a, col_a), tile_index(row + 2, col + 2)) {
            seq![MapRenderCall::PathBorder { row: row as usize, col: col as usize, horizontal }]
        } else {
            Seq::<MapRenderCall>::empty()
        };
        assert(border_calls(map, row, first_col, n, horizontal) == border_calls(
            map,
            row,
            first_col,
            n - 1,
            horizontal,
        ) + one);
        lemma_border_calls_contain(map, row, first_col, n - 1, horizontal, call);
        lemma_concat_contains(border_calls(map, row, first_col, n - 1, horizontal), one, call);
        if one.len() > 0 {
            assert(one.contains(call) <==> call == one[0]);
        }
    } else {
        assert(border_calls(map, row, first_col, n, horizontal) =~= Seq::empty());
    }
}

proof fn lemma_border_rows_contain(
    map: Seq<Tile>,
    first: int,
    n: int,
    first_col: int,
    horizontal: bool,
    call: MapRenderCall,
)
    requires
        0 <= first,
        n <= MAP_HEIGHT,
        0 <= first_col,
    ensures
        border_rows(map, first, n, first_col, horizontal).contains(call) <==> (
        call matches MapRenderCall::PathBorder { row: r, col: c, horizontal: h } && first <= r
            < n && first_col <= c < MAP_WIDTH && h == horizontal && border_between(
            map,
            if horizontal {
                tile_index(r + 1, c + 2)
            } else {
                tile_index(r + 2, c + 1)
            },
            tile_index(r + 2, c + 2),
        )),
    decreases n - first,
{
    if n > first {
        lemma_border_rows_contain(map, first, n - 1, first_col, horizontal, call);
        lemma_border_calls_contain(map, n - 1, first_col, MAP_WIDTH as int, horizontal, call);
        lemma_concat_contains(
            border_rows(map, first, n - 1, first_col, horizontal),
            border_calls(map, n - 1, first_col, MAP_WIDTH as int, horizontal),
            call,
        );
    } else {
        assert(border_rows(map, first, n, first_col, horizontal) =~= Seq::empty());
    }
}

/// Rendering a map draws a path tile exactly at each visible tile that is
/// not empty ground, and a border on the north (or west) side of a visible
/// tile exactly where `has_border` finds one between it and the tile to its
/// north (or west), the sides along the top row and the left column aside.
pub proof fn lemma_render_calls(map: Seq<Tile>, row: int, col: int)
    requires
        0 <= row < MAP_HEIGHT,
        0 <= col < MAP_WIDTH,
    ensures
        map_render_calls(map).contains(
            MapRenderCall::PathTile { row: row as usize, col: col as usize },
        ) <==> map[tile_index(row + 2, col + 2)] != Tile::Empty,
        map_render_calls(map).contains(
            MapRenderCall::PathBorder { row: row as usize, col: col as usize, horizontal: true },
        ) <==> row >= 1 && border_between(
            map,
            tile_index(row + 1, col + 2),
            tile_index(row + 2, col + 2),
        ),
        map_render_calls(map).contains(
            MapRenderCall::PathBorder { row: row as usize, col: col as usize, horizontal: false },
        ) <==> col >= 1 && border_between(
            map,
            tile_index(row + 2, col + 1),
            tile_index(row + 2, col + 2),
        ),
{
    let tiles = path_tile_rows(map, MAP_HEIGHT as int);
    let north = border_rows(map, 1, MAP_HEIGHT as int, 0, true);
    let west = border_rows(map, 0, MAP_HEIGHT as int, 1, false);
    assert(map_render_calls(map) == tiles + north + west);
    let tile_call = MapRenderCall::PathTile { row: row as usize, col: col as usize };
    let north_call = MapRenderCall::PathBorder {
        row: row as usize,
        col: col as usize,
        horizontal: true,
    };
    let west_call = MapRenderCall::PathBorder {
        row: row as usize,
        col: col as usize,
        horizontal: false,
    };
    lemma_concat_contains(tiles + north, west, tile_call);
    lemma_concat_contains(tiles, north, tile_call);
    lemma_path_tile_rows_contain(map, MAP_HEIGHT as int, tile_call);
    lemma_border_rows_contain(map, 1, MAP_HEIGHT as int, 0, true, tile_call);
    lemma_border_rows_contain(map, 0, MAP_HEIGHT as int, 1, false, tile_call);
    lemma_concat_contains(tiles + north, west, north_call);
    lemma_concat_contains(tiles, north, north_call);
    lemma_path_tile_rows_contain(map, MAP_HEIGHT as int, north_call);
    lemma_border_rows_contain(map, 1, MAP_HEIGHT as int, 0, true, north_call);
    lemma_border_rows_contain(map, 0, MAP_HEIGHT as int, 1, false, north_call);
    lemma_concat_contains(tiles + north, west, west_call);
    lemma_concat_contains(tiles, north, west_call);
    lemma_path_tile_rows_contain(map, MAP_HEIGHT as int, west_call);
    lemma_border_rows_contain(map, 1, MAP_HEIGHT as int, 0, true, west_call);
    lemma_border_rows_contain(map, 0, MAP_HEIGHT as int, 1, false, west_call);
}

/// What to draw for a map, in the order of drawing. Only do this once per
/// level, not once per frame.
pub fn render_map(map: &[Tile]) -> (calls: Vec<MapRenderCall>)
    requires
        covers_visible_ring(map@),
    ensures
        calls@ == map_render_calls(map@),
{
    let mut calls: Vec<MapRenderCall> = Vec::new();
    // Render the map
    let mut row: usize = 0;
    while row < MAP_HEIGHT
        invariant
            row <= MAP_HEIGHT,
            covers_visible_ring(map@),
            calls@ == path_tile_rows(map@, row as int),
        decreases MAP_HEIGHT - row,
    {
        let ghost before = calls@;
        let mut col: usize = 0;
        while col < MAP_WIDTH
            invariant
                row < MAP_HEIGHT,
                col <= MAP_WIDTH,
                covers_visible_ring(map@),
                calls@ == before + path_tile_calls(map@, row as int, col as int),
            decreases MAP_WIDTH - col,
        {
            let true_row: usize = row + 2;
            let true_col: usize = col + 2;
            match map[true_row * TRUE_MAP_WIDTH + true_col] {
                Tile::Empty => {},
                _ => calls.push(MapRenderCall::PathTile { row, col }),
            }
            proof {
                assert(calls@ =~= before + path_tile_calls(map@, row as int, col + 1));
            }
            col = col + 1;
        }
        proof {
            assert(calls@ =~= path_tile_rows(map@, row + 1));
        }
        row = row + 1;
    }
    let ghost tiles = calls@;
    // And the borders of the path
    let mut row: usize = 1;
    while row < MAP_HEIGHT
        invariant
            1 <= row <= MAP_HEIGHT,
            calls@ == tiles + border_rows(map@, 1, row as int, 0, true),
        decreases MAP_HEIGHT - row,
    {
        let ghost before = calls@;
        let mut col: usize = 0;
        while col < MAP_WIDTH
            invariant
                1 <= row < MAP_HEIGHT,
                col <= MAP_WIDTH,
                calls@ == before + border_calls(map@, row as int, 0, col as int, true),
            decreases MAP_WIDTH - col,
        {
            let true_row: usize = row + 2;
            let true_col: usize = col + 2;
            if has_border(map, true_row - 1, true_col, true_row, true_col) {
                calls.push(MapRenderCall::PathBorder { row, col, horizontal: true });
            }
            proof {
                assert(calls@ =~= before + border_calls(map@, row as int, 0, col + 1, true));
            }
            col = col + 1;
        }
        proof {
            assert(calls@ =~= tiles + border_rows(map@, 1, row + 1, 0, true));
        }
        row = row + 1;
    }
    let ghost north_borders = calls@;
    let mut row: usize = 0;
    while row < MAP_HEIGHT
        invariant
            row <= MAP_HEIGHT,
            calls@ == north_borders + border_rows(map@, 0, row as int, 1, false),
        decreases MAP_HEIGHT - row,
    {
        let ghost before = calls@;
        let mut col: usize = 1;
        while col < MAP_WIDTH
            invariant
                row < MAP_HEIGHT,
                1 <= col <= MAP_WIDTH,
                calls@ == before + border_calls(map@, row as int, 1, col as int, false),
            decreases MAP_WIDTH - col,
        {
            let true_row: usize = row + 2;
            let true_col: usize = col + 2;
            if has_border(map, true_row, true_col - 1, true_row, true_col) {
                calls.push(MapRenderCall::PathBorder { row, col, horizontal: false });
            }
            proof {
                assert(calls@ =~= before + border_calls(map@, row as int, 1, col + 1, false));
            }
            col = col + 1;
        }
        proof {
            assert(calls@ =~= north_borders + border_rows(map@, 0, row + 1, 1, false));
        }
        row = row + 1;
    }
    proof {
        assert(calls@ =~= map_render_calls(map@));
    }
    calls
}

} // verus!
