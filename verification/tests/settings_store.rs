//! The settings store: buffering before the identity resolves,
//! arrival-order replay, duplicate keys, and idempotent overwrites.

use warlib::parser::SettingsValue;
use warlib::settings::SettingsStore;

#[test]
fn values_buffer_until_identity_resolves() {
    let mut st = SettingsStore::new();
    st.apply(SettingsValue::Timebank(5));
    assert!(!st.is_resolved());
    assert_eq!(st.record().timebank, 0);
    assert_eq!(st.record().name, "default");
    st.apply(SettingsValue::YourBot("A".to_owned()));
    assert!(st.is_resolved());
    assert_eq!(st.record().timebank, 5);
    assert_eq!(st.record().name, "A");
}

#[test]
fn replay_keeps_arrival_order_for_duplicate_keys() {
    let mut st = SettingsStore::new();
    st.apply(SettingsValue::Timebank(1));
    st.apply(SettingsValue::Timebank(2));
    st.apply(SettingsValue::YourBot("A".to_owned()));
    assert_eq!(st.record().timebank, 2, "the later duplicate must win");
}

#[test]
fn resolved_store_overwrites_directly() {
    let mut st = SettingsStore::new();
    st.apply(SettingsValue::YourBot("A".to_owned()));
    st.apply(SettingsValue::OpponentBot("B".to_owned()));
    st.apply(SettingsValue::MaxRounds(40));
    st.apply(SettingsValue::StartingRegions(vec![4, 7, 11]));
    assert_eq!(st.record().opponent, "B");
    assert_eq!(st.record().max_rounds, 40);
    assert_eq!(st.record().starting_regions, vec![4, 7, 11]);
}

#[test]
fn applying_the_same_value_twice_changes_nothing_more() {
    let mut st = SettingsStore::new();
    st.apply(SettingsValue::YourBot("A".to_owned()));
    st.apply(SettingsValue::StartingArmies(7));
    st.apply(SettingsValue::StartingArmies(7));
    assert_eq!(st.record().starting_armies, 7);
}

#[test]
fn every_scalar_key_lands_in_its_field() {
    let mut st = SettingsStore::new();
    st.apply(SettingsValue::YourBot("A".to_owned()));
    st.apply(SettingsValue::Timebank(1));
    st.apply(SettingsValue::TimePerMove(2));
    st.apply(SettingsValue::MaxRounds(3));
    st.apply(SettingsValue::StartingPickAmount(4));
    st.apply(SettingsValue::StartingArmies(5));
    assert_eq!(st.record().timebank, 1);
    assert_eq!(st.record().time_per_move, 2);
    assert_eq!(st.record().max_rounds, 3);
    assert_eq!(st.record().starting_pick_amount, 4);
    assert_eq!(st.record().starting_armies, 5);
}
