use backend::map::distances::{
    can_search, generate_dist_from_entrance, generate_dist_from_exit, Distance, Goal,
};
use backend::map::{
    buildable, corners_are_readable, entrances, has_border, parse, render_map, MapRenderCall, Tile, MAP_0, _MAP_1, TRUE_MAP_HEIGHT,
    TRUE_MAP_WIDTH,
};

fn map_0() -> Vec<Tile> {
    parse(&MAP_0)
}

#[test]
fn parse_gives_one_tile_per_character() {
    let map = map_0();
    assert_eq!(map.len(), TRUE_MAP_WIDTH * TRUE_MAP_HEIGHT);
    assert_eq!(map[0], Tile::OutOfBounds);
    assert_eq!(map[2 * TRUE_MAP_WIDTH + 2], Tile::Empty);
}

#[test]
fn parse_decides_corner_turns() {
    let map = map_0();
    let row = |r: usize| map[r * TRUE_MAP_WIDTH..(r + 1) * TRUE_MAP_WIDTH].to_vec();
    let row_3 = row(3);
    assert_eq!(row_3[1], Tile::East);
    assert_eq!(row_3[4], Tile::EastToSouth);
    assert_eq!(row_3[6], Tile::NorthToEast);
    assert_eq!(row_3[25], Tile::OutOfBounds);
    let row_5 = row(5);
    assert_eq!(row_5[3], Tile::South);
    assert_eq!(row_5[4], Tile::SouthToEast);
    assert_eq!(row_5[6], Tile::EastToNorth);
    assert_eq!(row_5[7], Tile::North);
    let row_6 = row(6);
    assert_eq!(row_6[3], Tile::SouthToEast);
    assert_eq!(row_6[7], Tile::EastToNorth);
}

#[test]
fn parse_decides_westward_corners() {
    let rows = ["    ", "  v ", " <x ", "    "];
    let map = parse(&rows);
    assert_eq!(map[2 * 4 + 2], Tile::SouthToWest);
    let rows = ["    ", " <x ", "  n "];
    let map = parse(&rows);
    assert_eq!(map[4 + 2], Tile::NorthToWest);
    let rows = ["    ", " n  ", " x  ", "    "];
    let map = parse(&rows);
    assert_eq!(map[2 * 4 + 1], Tile::WestToNorth);
    let rows = ["    ", "    ", " x  ", "    "];
    let map = parse(&rows);
    assert_eq!(map[2 * 4 + 1], Tile::WestToSouth);
}

#[test]
fn parse_maps_unknown_characters_out_of_bounds() {
    let rows = ["#?<>nv "];
    let map = parse(&rows);
    assert_eq!(
        map,
        vec![
            Tile::OutOfBounds,
            Tile::OutOfBounds,
            Tile::West,
            Tile::East,
            Tile::North,
            Tile::South,
            Tile::Empty
        ]
    );
}

#[test]
fn entrances_of_map_0() {
    let map = map_0();
    assert_eq!(entrances(&map), vec![(3, 1), (4, 1)]);
}

#[test]
fn entrances_on_every_edge() {
    let mut map = vec![Tile::Empty; TRUE_MAP_WIDTH * TRUE_MAP_HEIGHT];
    map[5 * TRUE_MAP_WIDTH + 24] = Tile::West;
    map[TRUE_MAP_WIDTH + 7] = Tile::South;
    map[20 * TRUE_MAP_WIDTH + 9] = Tile::North;
    map[2 * TRUE_MAP_WIDTH + 1] = Tile::East;
    // Path tiles on the last visible column and row are inside the map.
    map[6 * TRUE_MAP_WIDTH + 23] = Tile::West;
    map[19 * TRUE_MAP_WIDTH + 10] = Tile::North;
    assert_eq!(entrances(&map), vec![(2, 1), (5, 24), (1, 7), (20, 9)]);
}

#[test]
fn entrances_of_map_1() {
    let map = parse(&_MAP_1);
    assert_eq!(entrances(&map), vec![(1, 12), (20, 12), (1, 13), (20, 13)]);
}

#[test]
fn out_of_bounds_tiles_are_no_entrances() {
    let map = map_0();
    // (1, 2) holds '#', on the ring just outside the visible map.
    assert_eq!(map[TRUE_MAP_WIDTH + 2], Tile::OutOfBounds);
    let from_entrance = generate_dist_from_entrance(&map);
    assert!(from_entrance[TRUE_MAP_WIDTH + 2].is_none());
    let from_exit = generate_dist_from_exit(&map);
    assert!(from_exit[TRUE_MAP_WIDTH + 2].is_none());
}

#[test]
fn borders_between_path_and_empty_tiles() {
    let map = map_0();
    // Path tile beside an empty tile.
    assert!(has_border(&map, 3, 4, 3, 5));
    // Two path tiles.
    assert!(!has_border(&map, 3, 1, 3, 2));
    // Two empty tiles.
    assert!(!has_border(&map, 2, 2, 2, 3));
    // An out of bounds tile.
    assert!(has_border(&map, 3, 24, 3, 25));
    // Positions past the end of the map are no tiles at all.
    assert!(!has_border(&map, 30, 0, 31, 0));
    assert!(has_border(&map, 2, 2, 40, 0));
}

#[test]
fn render_map_0() {
    let map = map_0();
    let calls = render_map(&map);
    assert_eq!(calls.len(), 400);
    let tiles = calls
        .iter()
        .filter(|call| matches!(call, MapRenderCall::PathTile { .. }))
        .count();
    assert_eq!(tiles, 200);
    assert_eq!(calls[0], MapRenderCall::PathTile { row: 1, col: 0 });
    assert_eq!(
        calls[399],
        MapRenderCall::PathBorder {
            row: 16,
            col: 21,
            horizontal: false
        }
    );
}

#[test]
fn exits_are_at_zero_distance() {
    let map = map_0();
    let distances = generate_dist_from_exit(&map);
    assert_eq!(distances.len(), map.len());
    let zero = Some(Distance {
        tiles: 0,
        rotation: 0,
    });
    assert_eq!(distances[3 * TRUE_MAP_WIDTH + 24], zero);
    assert_eq!(distances[4 * TRUE_MAP_WIDTH + 24], zero);
    assert_eq!(
        distances[3 * TRUE_MAP_WIDTH + 1],
        Some(Distance {
            tiles: 101,
            rotation: 0
        })
    );
    assert_eq!(
        distances[3 * TRUE_MAP_WIDTH + 4],
        Some(Distance {
            tiles: 98,
            rotation: 1
        })
    );
    assert_eq!(distances[2 * TRUE_MAP_WIDTH + 2], None);
}

#[test]
fn entrances_are_at_zero_distance() {
    let map = map_0();
    let distances = generate_dist_from_entrance(&map);
    let zero = Some(Distance {
        tiles: 0,
        rotation: 0,
    });
    assert_eq!(distances[3 * TRUE_MAP_WIDTH + 1], zero);
    assert_eq!(distances[4 * TRUE_MAP_WIDTH + 1], zero);
    assert_eq!(
        distances[6 * TRUE_MAP_WIDTH + 3],
        Some(Distance {
            tiles: 4,
            rotation: -1
        })
    );
    assert_eq!(distances[3 * TRUE_MAP_WIDTH + 5], None);
}

#[test]
fn total_distance_should_be_constant() {
    let map = map_0();
    let from_entrance = generate_dist_from_entrance(&map);
    let from_exit = generate_dist_from_exit(&map);
    let mut both = 0;
    for true_row in 2..TRUE_MAP_HEIGHT - 2 {
        for true_col in 2..TRUE_MAP_WIDTH - 2 {
            let i = true_row * TRUE_MAP_WIDTH + true_col;
            assert_eq!(from_entrance[i].is_some(), from_exit[i].is_some());
            if let (Some(a), Some(b)) = (from_entrance[i], from_exit[i]) {
                both += 1;
                assert_eq!(a.tiles + b.tiles, 101);
                assert!((a.rotation + b.rotation).abs() <= 1);
            }
        }
    }
    assert!(both > 0);
}

#[test]
fn distance_defaults_to_zero() {
    let d: Distance = Default::default();
    assert_eq!(d, Distance { tiles: 0, rotation: 0 });
}

#[test]
fn towers_stand_on_empty_terrain_only() {
    let map = map_0();
    // Visible (0, 0) is true (2, 2): empty.
    assert!(buildable(&map, 0, 0));
    // Visible (1, 0) is true (3, 2): a path tile.
    assert_eq!(map[3 * TRUE_MAP_WIDTH + 2], Tile::East);
    assert!(!buildable(&map, 1, 0));
    // Past the map's last row there is nothing to build on.
    assert!(!buildable(&map, 40, 0));
}

#[test]
fn map_0_corners_are_readable() {
    assert!(corners_are_readable(&MAP_0));
    // A corner in the first row has no row above it to decide its turn.
    assert!(!corners_are_readable(&["#x#", "#>#"]));
    // A corner below a southward path is decided from the row above.
    assert!(corners_are_readable(&["#v#", "#x<"]));
    // Otherwise the row below has to be there.
    assert!(!corners_are_readable(&["#n#", ">x#"]));
    assert!(corners_are_readable(&["#n#", ">x#", "###"]));
}

#[test]
fn map_0_can_be_searched() {
    let map = map_0();
    assert!(can_search(&map, Goal::Exit));
    assert!(can_search(&map, Goal::Entrance));
}

#[test]
fn a_path_off_the_map_cannot_be_searched() {
    // Every tile points north: toward the entrance, the top row steps off
    // the map; toward the exit, the bottom row does.
    let map = vec![Tile::North; TRUE_MAP_WIDTH * TRUE_MAP_HEIGHT];
    assert!(!can_search(&map, Goal::Entrance));
    assert!(!can_search(&map, Goal::Exit));
    // A map without its padding cannot be read along its first ring.
    let map = vec![Tile::Empty; TRUE_MAP_WIDTH];
    assert!(!can_search(&map, Goal::Exit));
}

#[test]
fn a_path_may_step_past_the_last_column() {
    // One lane along row 5, from the entrance at (5, 1) to the exit at
    // (5, 24); the tile after the exit points on, past the last column, onto
    // the first tile of the next row.
    let mut map = vec![Tile::Empty; TRUE_MAP_WIDTH * TRUE_MAP_HEIGHT];
    for col in 1..TRUE_MAP_WIDTH {
        map[5 * TRUE_MAP_WIDTH + col] = Tile::East;
    }
    assert!(can_search(&map, Goal::Entrance));
    assert!(can_search(&map, Goal::Exit));
    let from_entrance = generate_dist_from_entrance(&map);
    assert_eq!(from_entrance[5 * TRUE_MAP_WIDTH + 1].unwrap().tiles, 0);
    assert_eq!(from_entrance[5 * TRUE_MAP_WIDTH + 25].unwrap().tiles, 24);
    assert_eq!(from_entrance[6 * TRUE_MAP_WIDTH].unwrap().tiles, 25);
    let from_exit = generate_dist_from_exit(&map);
    assert_eq!(from_exit[5 * TRUE_MAP_WIDTH + 24].unwrap().tiles, 0);
    assert_eq!(from_exit[5 * TRUE_MAP_WIDTH + 1].unwrap().tiles, 23);
}
