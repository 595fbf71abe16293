use backend::missile::reload_launchers;
use backend::construction::{all_complete, placement, player_order, BuildType, OrderView, Placement};
use backend::map::Tile;
use backend::walker::{path_headings, Heading};
use backend::fluid::{fluid_pos_to_true_tile_index, tile_pos_to_fluid_index, FLUID_WIDTH};
use backend::map::TRUE_MAP_WIDTH;
use backend::pusillanimous::{Pusillanimous, Reaction, COOLDOWN, SPEEDY_DURATION};
use backend::tower::{tower_status_name, TowerStatus};
use backend::waves::{wave_fits, Enemy, Group, QueuedEnemy, Wave, WaveSpawner, TICKS_PER_WAVE};
use backend::world::{EntityIds, RunState};

#[test]
fn fluid_cells_map_to_tiles() {
    assert_eq!(fluid_pos_to_true_tile_index(1, 1), 2 * TRUE_MAP_WIDTH + 2);
    assert_eq!(fluid_pos_to_true_tile_index(2, 2), 2 * TRUE_MAP_WIDTH + 2);
    assert_eq!(fluid_pos_to_true_tile_index(3, 4), 3 * TRUE_MAP_WIDTH + 3);
    // The border cells lie in the padding just outside the visible map.
    assert_eq!(fluid_pos_to_true_tile_index(0, 0), TRUE_MAP_WIDTH + 1);
    assert_eq!(fluid_pos_to_true_tile_index(0, 3), TRUE_MAP_WIDTH + 3);
    assert_eq!(fluid_pos_to_true_tile_index(37, 45), 20 * TRUE_MAP_WIDTH + 24);
}

#[test]
fn tiles_map_to_their_top_left_cell() {
    assert_eq!(tile_pos_to_fluid_index(0, 0), FLUID_WIDTH + 1);
    assert_eq!(tile_pos_to_fluid_index(2, 3), 5 * FLUID_WIDTH + 7);
    assert_eq!(
        fluid_pos_to_true_tile_index(5, 7),
        (2 + 2) * TRUE_MAP_WIDTH + (3 + 2)
    );
}

fn spawner() -> WaveSpawner {
    WaveSpawner::new(vec![(3, 1), (4, 1)])
}

fn wave(groups: Vec<(u32, Enemy)>) -> Wave {
    Wave {
        group: groups
            .into_iter()
            .map(|(size, kind)| Group { size, kind })
            .collect(),
    }
}

#[test]
fn queue_wave_takes_entrances_in_turn() {
    let mut spawner = spawner();
    spawner.queue_wave(10, &wave(vec![(3, Enemy::Circle), (2, Enemy::Square)]));
    let queued = &spawner.queued_enemies;
    assert_eq!(queued.len(), 5);
    let expected = vec![
        QueuedEnemy { true_row: 3, true_col: 1, spawn_tick: 10, enemy_type: Enemy::Circle },
        QueuedEnemy { true_row: 4, true_col: 1, spawn_tick: 10, enemy_type: Enemy::Circle },
        QueuedEnemy { true_row: 3, true_col: 1, spawn_tick: 31, enemy_type: Enemy::Circle },
        QueuedEnemy { true_row: 4, true_col: 1, spawn_tick: 31, enemy_type: Enemy::Square },
        QueuedEnemy { true_row: 3, true_col: 1, spawn_tick: 52, enemy_type: Enemy::Square },
    ];
    assert_eq!(*queued, expected);
}

#[test]
fn queue_wave_keeps_the_queue_ordered() {
    let mut spawner = spawner();
    spawner.queue_wave(100, &wave(vec![(2, Enemy::Triangle)]));
    spawner.queue_wave(0, &wave(vec![(3, Enemy::Circle)]));
    let ticks: Vec<u32> = spawner.queued_enemies.iter().map(|e| e.spawn_tick).collect();
    assert_eq!(ticks, vec![0, 0, 21, 100, 100]);
}

#[test]
fn spawn_mobs_counts_down_then_sends_the_wave() {
    let waves = vec![wave(vec![(3, Enemy::Circle)])];
    let mut spawner = spawner();
    assert_eq!(spawner.ticks_till_next_wave(waves.len()), 180);
    assert_eq!(spawner.next_wave_index(waves.len()), 0);
    for tick in 0..180 {
        assert!(spawner.spawn_mobs(&waves, tick).is_empty());
    }
    assert!(spawner.is_wave_start(waves.len()));
    let spawned = spawner.spawn_mobs(&waves, 180);
    assert_eq!(spawned.len(), 2);
    assert_eq!(spawner.ticks_till_next_wave, TICKS_PER_WAVE - 1);
    assert_eq!(spawner.next_wave_index, 1);
    // One enemy is still waiting.
    assert_eq!(spawner.next_wave_index(waves.len()), 0);
    assert_eq!(spawner.ticks_till_next_wave(waves.len()), 0);
    for tick in 181..201 {
        assert!(spawner.spawn_mobs(&waves, tick).is_empty());
    }
    let spawned = spawner.spawn_mobs(&waves, 201);
    assert_eq!(
        spawned,
        vec![QueuedEnemy { true_row: 3, true_col: 1, spawn_tick: 201, enemy_type: Enemy::Circle }]
    );
    assert_eq!(spawner.next_wave_index(waves.len()), -1);
    assert_eq!(spawner.ticks_till_next_wave(waves.len()), 0);
}

#[test]
fn a_stale_enemy_holds_back_the_queue() {
    let mut spawner = spawner();
    spawner.queue_wave(5, &wave(vec![(3, Enemy::Circle)]));
    // Tick 5 was missed.
    assert!(spawner.spawn_mobs(&[], 26).is_empty());
    assert_eq!(spawner.queued_enemies.len(), 3);
}

#[test]
fn send_next_wave_starts_it_on_the_next_tick() {
    let waves = vec![wave(vec![(1, Enemy::Square)]), wave(vec![(1, Enemy::Circle)])];
    let mut spawner = spawner();
    spawner.send_next_wave();
    assert!(spawner.is_wave_start(waves.len()));
    let spawned = spawner.spawn_mobs(&waves, 7);
    assert_eq!(spawned.len(), 1);
    assert_eq!(spawned[0].enemy_type, Enemy::Square);
    assert_eq!(spawner.next_wave_index(waves.len()), 1);
}

#[test]
fn wave_spawner_default_is_empty() {
    let spawner: WaveSpawner = Default::default();
    assert_eq!(spawner.ticks_till_next_wave, 0);
    assert_eq!(spawner.next_wave_index, 0);
    assert!(spawner.entrances.is_empty());
    assert_eq!(Enemy::default(), Enemy::Circle);
}

#[test]
fn pusillanimous_enemy_flees_then_recovers() {
    let mut p = Pusillanimous { duration: 0 };
    assert_eq!(p.react(false), Reaction::Calm);
    assert_eq!(p.duration, 0);
    assert_eq!(p.react(true), Reaction::Flee);
    assert_eq!(p.duration, SPEEDY_DURATION + COOLDOWN - 1);
    let mut recovered_at = None;
    let mut forgot_at = None;
    for tick in 1..SPEEDY_DURATION + COOLDOWN {
        match p.react(true) {
            Reaction::Recover => recovered_at = Some(tick),
            Reaction::ForgetThreat => forgot_at = Some(tick),
            Reaction::Calm => {}
            Reaction::Flee => panic!("fled twice"),
        }
    }
    assert_eq!(recovered_at, Some(SPEEDY_DURATION));
    assert_eq!(forgot_at, Some(SPEEDY_DURATION + COOLDOWN - 1));
    assert_eq!(p.duration, 0);
}

#[test]
fn entity_ids_count_up() {
    let mut ids = EntityIds(1);
    assert_eq!(ids.next(), 1);
    assert_eq!(ids.next(), 2);
    assert_eq!(ids, EntityIds(3));
    let ids: EntityIds = Default::default();
    assert_eq!(ids.0, 0);
}

#[test]
fn run_state_codes() {
    assert_eq!(RunState::Paused.code(), 0);
    assert_eq!(RunState::AutoPaused.code(), 1);
    assert_eq!(RunState::Playing.code(), 2);
}

#[test]
fn tower_status_names() {
    assert_eq!(tower_status_name(Some(TowerStatus::Queued)), "queued");
    assert_eq!(tower_status_name(Some(TowerStatus::Building)), "building");
    assert_eq!(tower_status_name(Some(TowerStatus::Operational)), "operational");
    assert_eq!(tower_status_name(Some(TowerStatus::Upgrading)), "upgrading");
    assert_eq!(tower_status_name(None), "");
}

#[test]
fn missile_launchers_alternate() {
    // Both loaded, a target in range: only the right launcher fires.
    let step = reload_launchers(0, 0, 30, true);
    assert!(step.fire_right);
    assert!(!step.fire_left);
    assert_eq!(step.right_reload_countdown, 30);
    assert_eq!(step.left_reload_countdown, 0);
    // The left launcher waits for the right one to reload.
    let step = reload_launchers(0, 30, 30, true);
    assert!(!step.fire_right && !step.fire_left);
    assert_eq!(step.right_reload_countdown, 29);
    // Once the right one has reloaded, the left one takes its turn.
    let step = reload_launchers(0, 1, 30, true);
    assert!(!step.fire_right);
    assert!(step.fire_left);
    assert_eq!(step.right_reload_countdown, 0);
    assert_eq!(step.left_reload_countdown, 30);
    // Nothing fires without a target.
    let step = reload_launchers(0, 0, 30, false);
    assert!(!step.fire_right && !step.fire_left);
    // Without a reload cost both launchers fire on the same tick.
    let step = reload_launchers(0, 0, 0, true);
    assert!(step.fire_right && step.fire_left);
    let step = reload_launchers(5, 0, 30, true);
    assert!(!step.fire_right && !step.fire_left);
    assert_eq!(step.left_reload_countdown, 4);
}

#[test]
fn run_state_pauses_and_resumes_itself() {
    assert!(RunState::Playing.is_playing());
    assert!(!RunState::Paused.is_playing());
    assert!(!RunState::AutoPaused.is_playing());

    assert_eq!(RunState::AutoPaused.resume_for_construction(), RunState::Playing);
    assert_eq!(RunState::Playing.resume_for_construction(), RunState::Playing);
    assert_eq!(RunState::Paused.resume_for_construction(), RunState::Paused);

    assert_eq!(RunState::Playing.pause_when_idle(), RunState::AutoPaused);
    assert_eq!(RunState::AutoPaused.pause_when_idle(), RunState::AutoPaused);
    assert_eq!(RunState::Paused.pause_when_idle(), RunState::Paused);
}

#[test]
fn upgrades_wait_for_their_tower() {
    assert!(BuildType::Tower.can_build());
    let mut upgrade = BuildType::Upgrade {
        can_build: false,
        upgrade_flag: 3,
    };
    assert!(!upgrade.can_build());
    upgrade.allow_upgrade();
    assert_eq!(
        upgrade,
        BuildType::Upgrade {
            can_build: true,
            upgrade_flag: 3
        }
    );
    assert!(upgrade.can_build());
    let mut tower = BuildType::Tower;
    tower.allow_upgrade();
    assert_eq!(tower, BuildType::Tower);
}

#[test]
fn headings_along_path_tiles() {
    assert_eq!(
        path_headings(Tile::North),
        Some((Heading::North, Heading::North))
    );
    assert_eq!(
        path_headings(Tile::West),
        Some((Heading::West, Heading::West))
    );
    assert_eq!(
        path_headings(Tile::NorthToEast),
        Some((Heading::North, Heading::East))
    );
    assert_eq!(
        path_headings(Tile::WestToSouth),
        Some((Heading::West, Heading::South))
    );
    assert_eq!(
        path_headings(Tile::SouthToWest),
        Some((Heading::South, Heading::West))
    );
    assert_eq!(path_headings(Tile::Empty), None);
    assert_eq!(path_headings(Tile::OutOfBounds), None);
}

#[test]
fn waves_fit_their_entrances_and_the_tick_counter() {
    let groups = wave(vec![(3, Enemy::Circle), (2, Enemy::Square)]).group;
    let entrances = vec![(3, 1), (4, 1)];
    assert!(wave_fits(&groups, &entrances, 10));
    // No entrance to enter at.
    assert!(!wave_fits(&groups, &[], 10));
    // An empty wave always fits.
    assert!(wave_fits(&[], &[], 10));
    // The last round spawns 2 * 21 ticks after the first.
    assert!(wave_fits(&groups, &entrances, u32::MAX - 42));
    assert!(!wave_fits(&groups, &entrances, u32::MAX - 41));
}

fn order(row: usize, col: usize, started: bool, complete: bool, beside_factory: bool) -> OrderView {
    OrderView {
        row,
        col,
        tower_entity: (row * 100 + col) as u32,
        build_type: BuildType::Tower,
        started,
        complete,
        beside_factory,
    }
}

#[test]
fn the_player_builds_the_first_order_away_from_factories() {
    let orders = vec![
        order(1, 1, true, true, false),
        order(2, 2, true, false, true),
        order(3, 3, false, false, false),
        order(4, 4, false, false, false),
    ];
    assert_eq!(player_order(&orders), Some(2));
    // An upgrade waiting for its tower is passed over.
    let mut waiting = orders.clone();
    waiting[2].build_type = BuildType::Upgrade {
        can_build: false,
        upgrade_flag: 0,
    };
    assert_eq!(player_order(&waiting), Some(3));
    // Every order beside a factory or complete: the player builds none.
    assert_eq!(player_order(&orders[..2]), None);
    assert!(!all_complete(&orders));
    assert!(all_complete(&orders[..1]));
    assert!(!all_complete(&[]));
}

#[test]
fn a_new_tower_replaces_only_an_unstarted_order() {
    let orders = vec![order(1, 1, false, false, false), order(2, 2, true, false, false)];
    assert_eq!(placement(&orders, 1, 1), Placement::Replace(101));
    assert_eq!(placement(&orders, 2, 2), Placement::Occupied);
    assert_eq!(placement(&orders, 3, 3), Placement::New);
    let mut upgrade = orders.clone();
    upgrade[0].build_type = BuildType::Upgrade {
        can_build: true,
        upgrade_flag: 1,
    };
    assert_eq!(placement(&upgrade, 1, 1), Placement::Occupied);
}
