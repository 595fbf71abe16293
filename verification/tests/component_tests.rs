use backend::falcon::{mark_target, unmark_target, TargetIndicator};
use backend::components::EntityMap;
use backend::pusillanimous::{update_pusillanimity, Pusillanimous, Reaction, COOLDOWN};
use backend::targeting::Threat;
use backend::tower::{build_towers_by_pos, tower_entity_at};

#[test]
fn pusillanimity_tick_over_a_map() {
    let mut pusillanimous: EntityMap<u32, Pusillanimous> = EntityMap::default();
    pusillanimous.insert(5, Pusillanimous { duration: 0 });
    pusillanimous.insert(3, Pusillanimous { duration: 1 });
    pusillanimous.insert(9, Pusillanimous { duration: COOLDOWN });
    pusillanimous.insert(7, Pusillanimous { duration: 0 });
    pusillanimous.insert(8, Pusillanimous { duration: 12 });
    let mut threats: EntityMap<u32, Threat> = EntityMap::default();
    threats.insert(5, Threat {});
    threats.insert(3, Threat {});
    threats.insert(8, Threat {});

    let reactions = update_pusillanimity(&mut pusillanimous, &mut threats);

    assert_eq!(
        reactions,
        vec![
            (5, Reaction::Flee),
            (3, Reaction::ForgetThreat),
            (9, Reaction::Recover),
            (7, Reaction::Calm),
            (8, Reaction::Calm),
        ]
    );
    let durations: Vec<(u32, u32)> = pusillanimous
        .iter()
        .map(|(entity, p)| (*entity, p.duration))
        .collect();
    assert_eq!(durations, vec![(5, 399), (3, 0), (9, 299), (7, 0), (8, 11)]);
    let mut threatened: Vec<u32> = threats.keys().copied().collect();
    threatened.sort();
    assert_eq!(threatened, vec![5, 8]);
}

#[test]
fn tower_entity_lookup() {
    let mut towers_by_pos: EntityMap<(usize, usize), u32> = EntityMap::default();
    towers_by_pos.insert((2, 3), 17);
    towers_by_pos.insert((4, 1), 23);
    assert_eq!(tower_entity_at(&towers_by_pos, 2, 3), 17);
    assert_eq!(tower_entity_at(&towers_by_pos, 4, 1), 23);
    assert_eq!(tower_entity_at(&towers_by_pos, 3, 2), 0);
}

#[test]
fn falcons_mark_and_unmark_targets() {
    let mut indicators: EntityMap<u32, TargetIndicator> = EntityMap::default();
    mark_target(&mut indicators, 12);
    mark_target(&mut indicators, 12);
    mark_target(&mut indicators, 4);
    assert_eq!(indicators.get(&12), Some(&TargetIndicator { falcons: 2 }));
    assert_eq!(indicators.get(&4), Some(&TargetIndicator { falcons: 1 }));

    unmark_target(&mut indicators, 12);
    unmark_target(&mut indicators, 4);
    unmark_target(&mut indicators, 4);
    assert_eq!(indicators.get(&12), Some(&TargetIndicator { falcons: 1 }));
    // The count never drops below zero, and the indicator stays.
    assert_eq!(indicators.get(&4), Some(&TargetIndicator { falcons: 0 }));
    assert!(!indicators[&4].is_shown());
    assert!(indicators[&12].is_shown());

    // An enemy that was never marked gets no indicator.
    unmark_target(&mut indicators, 30);
    assert_eq!(indicators.get(&30), None);
    let order: Vec<u32> = indicators.keys().copied().collect();
    assert_eq!(order, vec![12, 4]);
}

#[test]
fn towers_indexed_by_position() {
    let by_pos = build_towers_by_pos(&[(4, 2, 3), (9, 5, 5), (11, 2, 3)]);
    // The later tower at (2, 3) takes the position, which keeps its place.
    let entries: Vec<((usize, usize), u32)> = by_pos.iter().map(|(p, e)| (*p, *e)).collect();
    assert_eq!(entries, vec![((2, 3), 11), ((5, 5), 9)]);
    assert_eq!(tower_entity_at(&by_pos, 5, 5), 9);
    assert!(build_towers_by_pos(&[]).is_empty());
}
