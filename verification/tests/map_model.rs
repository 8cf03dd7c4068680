//! The world model: registration, adjacency symmetry, wastelands,
//! ownership overwrites, fog reconciliation, and the starting-pick score.

use warlib::map::{GameMap, OwnerValue};

#[test]
fn new_region_starts_neutral_with_two_armies() {
    let mut m = GameMap::new();
    m.add_super_region(1, 5);
    m.add_region(7, 1);
    let r = m.get_region(7).expect("region 7 should be registered");
    assert_eq!(r.id, 7);
    assert_eq!(r.super_region_id, 1);
    assert_eq!(r.armies, 2);
    assert!(matches!(r.owner, OwnerValue::Neutral));
    assert_eq!(r.neighbor_ids.len(), 0);
}

#[test]
fn neighbor_insertion_is_symmetric() {
    let mut m = GameMap::new();
    m.add_super_region(1, 5);
    m.add_region(1, 1);
    m.add_region(2, 1);
    m.add_region(3, 1);
    m.add_region_neighbors(1, vec![2, 3]);
    let r1 = m.get_region(1).unwrap();
    let r2 = m.get_region(2).unwrap();
    let r3 = m.get_region(3).unwrap();
    assert!(r1.neighbor_ids.contains(&2));
    assert!(r1.neighbor_ids.contains(&3));
    assert!(r2.neighbor_ids.contains(&1));
    assert!(r3.neighbor_ids.contains(&1));
}

#[test]
fn wasteland_upgrade_forces_neutral_garrison_of_six() {
    let mut m = GameMap::new();
    m.add_super_region(1, 5);
    m.add_region(1, 1);
    m.update_map(1, OwnerValue::Ally, 9);
    m.upgrade_to_wasteland(1);
    let r = m.get_region(1).unwrap();
    assert_eq!(r.armies, 6);
    assert!(matches!(r.owner, OwnerValue::Neutral));
}

#[test]
fn update_map_overwrites_owner_and_armies() {
    let mut m = GameMap::new();
    m.add_super_region(1, 5);
    m.add_region(1, 1);
    m.update_map(1, OwnerValue::Enemy, 11);
    let r = m.get_region(1).unwrap();
    assert_eq!(r.armies, 11);
    assert!(matches!(r.owner, OwnerValue::Enemy));
}

#[test]
fn mark_as_enemy_flips_owner_only() {
    let mut m = GameMap::new();
    m.add_super_region(1, 5);
    m.add_region(1, 1);
    m.mark_as_enemy(1);
    let r = m.get_region(1).unwrap();
    assert!(matches!(r.owner, OwnerValue::Enemy));
    assert_eq!(r.armies, 2);
}

#[test]
fn fog_downgrades_unobserved_allies_only() {
    let mut m = GameMap::new();
    m.add_super_region(1, 5);
    m.add_region(1, 1);
    m.add_region(2, 1);
    m.add_region(3, 1);
    m.update_map(1, OwnerValue::Ally, 2);
    m.update_map(2, OwnerValue::Ally, 2);
    m.update_map(3, OwnerValue::Enemy, 2);
    m.update_fog(vec![1]);
    let r1 = m.get_region(1).unwrap();
    let r2 = m.get_region(2).unwrap();
    let r3 = m.get_region(3).unwrap();
    assert!(matches!(r1.owner, OwnerValue::Ally));
    assert!(matches!(r2.owner, OwnerValue::Enemy));
    assert!(matches!(r3.owner, OwnerValue::Enemy));
}

#[test]
fn allies_snapshots_exactly_the_ally_regions() {
    let mut m = GameMap::new();
    m.add_super_region(1, 5);
    m.add_region(1, 1);
    m.add_region(2, 1);
    m.add_region(3, 1);
    m.update_map(2, OwnerValue::Ally, 4);
    let allies = m.allies();
    assert_eq!(allies.len(), 1);
    assert_eq!(allies[0].id, 2);
    assert_eq!(allies[0].armies, 4);
}

#[test]
fn starting_pick_value_is_bonus_over_member_armies() {
    let mut m = GameMap::new();
    m.add_super_region(1, 5);
    m.add_region(1, 1);
    m.add_region(2, 1);
    m.update_map(2, OwnerValue::Enemy, 4);
    let (bonus, armies) = m.starting_pick_value(1);
    assert_eq!(bonus, 5);
    assert_eq!(armies, 6);
}

#[test]
fn reregistering_a_super_region_resets_its_member_list() {
    let mut m = GameMap::new();
    m.add_super_region(1, 5);
    m.add_region(1, 1);
    m.add_super_region(1, 9);
    let (bonus, armies) = m.starting_pick_value(1);
    assert_eq!(bonus, 9);
    assert_eq!(armies, 0);
}
