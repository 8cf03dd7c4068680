//! The message parser, exercised line by line: every command of the
//! grammar, its error cases, and its well-formed shapes.

use warlib::parser::errors::ErrorKind;
use warlib::parser::{parse, Message, OpponentMoveValue, SettingsValue, SetupMapValue};


#[test]
fn mod_blank() {
    match parse("".to_owned()).unwrap_err().kind() {
        ErrorKind::UnknownCommand => {},
        _ => panic!("got an error of unexpected kind")
    }
}

#[test]
fn mod_setting_blank() {
    match parse("settings".to_owned()).unwrap_err().kind() {
        ErrorKind::MalformedCommand => {},
        _ => panic!("got an error of unexpected kind")
    }
}

#[test]
fn mod_setting_timebank_blank() {
    match parse("settings timebank".to_owned()).unwrap_err().kind() {
        ErrorKind::MalformedCommand => {},
        _ => panic!("got an error of unexpected kind")
    }
}

#[test]
fn mod_setting_timebank_bad_value() {
    match parse("settings timebank five".to_owned()).unwrap_err().kind() {
        ErrorKind::MalformedCommand => {},
        _ => panic!("got an error of unexpected kind")
    }
}

#[test]
fn mod_setting_timebank_proper() {
    match parse("settings timebank 10000".to_owned()).unwrap() {
        Message::Settings(setting) => match setting {
            SettingsValue::Timebank(value) => assert_eq!(value, 10000),
            _ => panic!("got a setting that wasn't a timebank")
        },
        _ => panic!("didn't get a settings object")
    }
}

#[test]
fn setting_timebank_proper_with_leading_space() {
    match parse(" settings timebank 10000".to_owned()).unwrap() {
        Message::Settings(setting) => match setting {
            SettingsValue::Timebank(value) => assert_eq!(value, 10000),
            _ => panic!("got a setting that wasn't a timebank")
        },
        _ => panic!("didn't get a settings object")
    }
}

#[test]
fn mod_setting_time_per_move_blank() {
    match parse("settings time_per_move".to_owned()).unwrap_err().kind() {
        ErrorKind::MalformedCommand => {},
        _ => panic!("got an error of unexpected kind")
    }
}

#[test]
fn mod_setting_time_per_move_bad_value() {
    match parse("settings time_per_move five".to_owned()).unwrap_err().kind() {
        ErrorKind::MalformedCommand => {},
        _ => panic!("got an error of unexpected kind")
    }
}

#[test]
fn mod_setting_time_per_move_proper() {
    match parse("settings time_per_move 10000".to_owned()).unwrap() {
        Message::Settings(setting) => match setting {
            SettingsValue::TimePerMove(value) => assert_eq!(value, 10000),
            _ => panic!("got a setting that wasn't a time_per_move")
        },
        _ => panic!("didn't get a settings object")
    }
}

#[test]
fn mod_setting_max_rounds_blank() {
    match parse("settings max_rounds".to_owned()).unwrap_err().kind() {
        ErrorKind::MalformedCommand => {},
        _ => panic!("got an error of unexpected kind")
    }
}

#[test]
fn mod_setting_max_rounds_bad_value() {
    match parse("settings max_rounds five".to_owned()).unwrap_err().kind() {
        ErrorKind::MalformedCommand => {},
        _ => panic!("got an error of unexpected kind")
    }
}

#[test]
fn mod_setting_max_rounds_proper() {
    match parse("settings max_rounds 10000".to_owned()).unwrap() {
        Message::Settings(setting) => match setting {
            SettingsValue::MaxRounds(value) => assert_eq!(value, 10000),
            _ => panic!("got a setting that wasn't a max_rounds")
        },
        _ => panic!("didn't get a settings object")
    }
}

#[test]
fn mod_setting_starting_pick_amount_blank() {
    match parse("settings starting_pick_amount".to_owned()).unwrap_err().kind() {
        ErrorKind::MalformedCommand => {},
        _ => panic!("got an error of unexpected kind")
    }
}

#[test]
fn mod_setting_starting_pick_amount_bad_value() {
    match parse("settings starting_pick_amount five".to_owned()).unwrap_err().kind() {
        ErrorKind::MalformedCommand => {},
        _ => panic!("got an error of unexpected kind")
    }
}

#[test]
fn mod_setting_starting_pick_amount_proper() {
    match parse("settings starting_pick_amount 10000".to_owned()).unwrap() {
        Message::Settings(setting) => match setting {
            SettingsValue::StartingPickAmount(value) => assert_eq!(value, 10000),
            _ => panic!("got a setting that wasn't a starting_pick_amount")
        },
        _ => panic!("didn't get a settings object")
    }
}

#[test]
fn mod_setting_starting_armies_blank() {
    match parse("settings starting_armies".to_owned()).unwrap_err().kind() {
        ErrorKind::MalformedCommand => {},
        _ => panic!("got an error of unexpected kind")
    }
}

#[test]
fn mod_setting_starting_armies_bad_value() {
    match parse("settings starting_armies five".to_owned()).unwrap_err().kind() {
        ErrorKind::MalformedCommand => {},
        _ => panic!("got an error of unexpected kind")
    }
}

#[test]
fn mod_setting_starting_armies_proper() {
    match parse("settings starting_armies 10000".to_owned()).unwrap() {
        Message::Settings(setting) => match setting {
            SettingsValue::StartingArmies(value) => assert_eq!(value, 10000),
            _ => panic!("got a setting that wasn't a starting_armies")
        },
        _ => panic!("didn't get a settings object")
    }
}

#[test]
fn mod_setting_starting_regions_blank() {
    match parse("settings starting_regions".to_owned()).unwrap_err().kind() {
        ErrorKind::MalformedCommand => {},
        _ => panic!("got an error of unexpected kind")
    }
}

#[test]
fn mod_setting_starting_regions_bad_value() {
    match parse("settings starting_regions five 50".to_owned()).unwrap_err().kind() {
        ErrorKind::MalformedCommand => {},
        _ => panic!("got an error of unexpected kind")
    }
}

#[test]
fn mod_setting_starting_regions_proper() {
    match parse("settings starting_regions 4 7 11".to_owned()).unwrap() {
        Message::Settings(setting) => match setting {
            SettingsValue::StartingRegions(value) => assert_eq!(value, vec![4, 7, 11]),
            _ => panic!("got a setting that wasn't a starting_regions")
        },
        _ => panic!("didn't get a settings object")
    }
}

#[test]
fn mod_setting_your_bot_blank() {
    match parse("settings your_bot".to_owned()).unwrap_err().kind() {
        ErrorKind::MalformedCommand => {},
        _ => panic!("got an error of unexpected kind")
    }
}

#[test]
fn mod_setting_your_bot_proper() {
    match parse("settings your_bot fig".to_owned()).unwrap() {
        Message::Settings(setting) => match setting {
            SettingsValue::YourBot(value) => assert_eq!(value, "fig".to_owned()),
            _ => panic!("got a setting that wasn't a your_bot")
        },
        _ => panic!("didn't get a settings object")
    }
}

#[test]
fn mod_setting_opponent_bot_blank() {
    match parse("settings opponent_bot".to_owned()).unwrap_err().kind() {
        ErrorKind::MalformedCommand => {},
        _ => panic!("got an error of unexpected kind")
    }
}

#[test]
fn mod_setting_opponent_bot_proper() {
    match parse("settings opponent_bot fig".to_owned()).unwrap() {
        Message::Settings(setting) => match setting {
            SettingsValue::OpponentBot(value) => assert_eq!(value, "fig".to_owned()),
            _ => panic!("got a setting that wasn't a opponent_bot")
        },
        _ => panic!("didn't get a settings object")
    }
}

#[test]
fn setup_map_blank() {
    match parse("setup_map".to_owned()).unwrap_err().kind() {
        ErrorKind::MalformedCommand => {},
        _ => panic!("got an error of unexpected kind")
    }
}

#[test]
fn setup_map_super_regions_blank() {
    match parse("setup_map super_regions".to_owned()).unwrap_err().kind() {
        ErrorKind::MalformedCommand => {},
        _ => panic!("got an error of unexpected kind")
    }
}

#[test]
fn setup_map_super_regions_nonnumeric_id() {
    match parse("setup_map super_regions 3 fred".to_owned()).unwrap_err().kind() {
        ErrorKind::MalformedCommand => {},
        _ => panic!("got an error of unexpected kind")
    }
}

#[test]
fn setup_map_super_regions_missing_value() {
    match parse("setup_map super_regions 1".to_owned()).unwrap_err().kind() {
        ErrorKind::MalformedCommand => {},
        _ => panic!("got an error of unexpected kind")
    }
}

#[test]
fn setup_map_super_regions_nonnumeric_value() {
    match parse("setup_map super_regions 3 fred".to_owned()).unwrap_err().kind() {
        ErrorKind::MalformedCommand => {},
        _ => panic!("got an error of unexpected kind")
    }
}

#[test]
fn setup_map_super_regions_proper() {
    match parse("setup_map super_regions 1 2".to_owned()).unwrap() {
        Message::SetupMap(setting) => match setting {
            SetupMapValue::SuperRegions(value) => assert_eq!(value, vec![(1, 2)]),
            _ => panic!("got a setup_map value that wasn't a super region")
        },
        _ => panic!("didn't get a setup_map object")
    }
}

#[test]
fn setup_map_super_regions_multiple_proper() {
    match parse("setup_map super_regions 1 2 2 4".to_owned()).unwrap() {
        Message::SetupMap(setting) => match setting {
            SetupMapValue::SuperRegions(value) => assert_eq!(value, vec![(1, 2), (2, 4)]),
            _ => panic!("got a setup_map value that wasn't a super region")
        },
        _ => panic!("didn't get a setup_map object")
    }
}

#[test]
fn setup_map_regions_blank() {
    match parse("setup_map regions".to_owned()).unwrap_err().kind() {
        ErrorKind::MalformedCommand => {},
        _ => panic!("got an error of unexpected kind")
    }
}

#[test]
fn setup_map_regions_nonnumeric_id() {
    match parse("setup_map regions 3 fred".to_owned()).unwrap_err().kind() {
        ErrorKind::MalformedCommand => {},
        _ => panic!("got an error of unexpected kind")
    }
}

#[test]
fn setup_map_regions_missing_value() {
    match parse("setup_map regions 1".to_owned()).unwrap_err().kind() {
        ErrorKind::MalformedCommand => {},
        _ => panic!("got an error of unexpected kind")
    }
}

#[test]
fn setup_map_regions_nonnumeric_value() {
    match parse("setup_map regions 3 fred".to_owned()).unwrap_err().kind() {
        ErrorKind::MalformedCommand => {},
        _ => panic!("got an error of unexpected kind")
    }
}

#[test]
fn setup_map_regions_proper() {
    match parse("setup_map regions 1 2".to_owned()).unwrap() {
        Message::SetupMap(setting) => match setting {
            SetupMapValue::Regions(value) => assert_eq!(value, vec![(1, 2)]),
            _ => panic!("got a setup_map value that wasn't a region")
        },
        _ => panic!("didn't get a setup_map object")
    }
}

#[test]
fn setup_map_regions_multiple_proper() {
    match parse("setup_map regions 1 1 2 1".to_owned()).unwrap() {
        Message::SetupMap(setting) => match setting {
            SetupMapValue::Regions(value) => assert_eq!(value, vec![(1, 1), (2, 1)]),
            _ => panic!("got a setup_map value that wasn't a region")
        },
        _ => panic!("didn't get a setup_map object")
    }
}

#[test]
fn setup_map_wastelands_blank() {
    match parse("setup_map wastelands".to_owned()).unwrap_err().kind() {
        ErrorKind::MalformedCommand => {},
        _ => panic!("got an error of unexpected kind")
    }
}

#[test]
fn setup_map_wastelands_nonnumeric() {
    match parse("setup_map wastelands 3 fred".to_owned()).unwrap_err().kind() {
        ErrorKind::MalformedCommand => {},
        _ => panic!("got an error of unexpected kind")
    }
}

#[test]
fn setup_map_wastelands_proper() {
    match parse("setup_map wastelands 1 2".to_owned()).unwrap() {
        Message::SetupMap(setting) => match setting {
            SetupMapValue::Wastelands(value) => assert_eq!(value, vec![1, 2]),
            _ => panic!("got a setup_map value that wasn't a wastelands")
        },
        _ => panic!("didn't get a setup_map object")
    }
}

#[test]
fn setup_map_opponent_starting_regions_blank() {
    match parse("setup_map opponent_starting_regions".to_owned()).unwrap_err().kind() {
        ErrorKind::MalformedCommand => {},
        _ => panic!("got an error of unexpected kind")
    }
}

#[test]
fn setup_map_opponent_starting_regions_nonnumeric() {
    match parse("setup_map opponent_starting_regions 3 fred".to_owned()).unwrap_err().kind() {
        ErrorKind::MalformedCommand => {},
        _ => panic!("got an error of unexpected kind")
    }
}

#[test]
fn setup_map_opponent_starting_regions_proper() {
    match parse("setup_map opponent_starting_regions 1 2".to_owned()).unwrap() {
        Message::SetupMap(setting) => match setting {
            SetupMapValue::OpponentStartingRegions(value) => assert_eq!(value, vec![1, 2]),
            _ => panic!("got a setup_map value that wasn't a opponent_starting_regions")
        },
        _ => panic!("didn't get a setup_map object")
    }
}

#[test]
fn setup_map_neighbors_blank() {
    match parse("setup_map neighbors".to_owned()).unwrap_err().kind() {
        ErrorKind::MalformedCommand => {},
        _ => panic!("got an error of unexpected kind")
    }
}

#[test]
fn setup_map_neighbors_nonnumeric_id() {
    match parse("setup_map neighbors fred 2,3".to_owned()).unwrap_err().kind() {
        ErrorKind::MalformedCommand => {},
        _ => panic!("got an error of unexpected kind")
    }
}

#[test]
fn setup_map_neighbors_comma_in_id() {
    match parse("setup_map neighbors 1,2 2,3".to_owned()).unwrap_err().kind() {
        ErrorKind::MalformedCommand => {},
        _ => panic!("got an error of unexpected kind")
    }
}

#[test]
fn setup_map_neighbors_missing_value() {
    match parse("setup_map neighbors 1".to_owned()).unwrap_err().kind() {
        ErrorKind::MalformedCommand => {},
        _ => panic!("got an error of unexpected kind")
    }
}

#[test]
fn setup_map_neighbors_nonnumeric_value() {
    match parse("setup_map neighbors 1 foxy,3".to_owned()).unwrap_err().kind() {
        ErrorKind::MalformedCommand => {},
        _ => panic!("got an error of unexpected kind")
    }
}

#[test]
fn setup_map_neighbors_proper() {
    match parse("setup_map neighbors 1 2,3".to_owned()).unwrap() {
        Message::SetupMap(setting) => match setting {
            SetupMapValue::Neighbors(value) => assert_eq!(value, vec![(1, vec![2, 3])]),
            _ => panic!("got a setup_map value that wasn't a region")
        },
        _ => panic!("didn't get a setup_map object")
    }
}

#[test]
fn setup_map_neighbors_proper_single_neighbor() {
    match parse("setup_map neighbors 1 2".to_owned()).unwrap() {
        Message::SetupMap(setting) => match setting {
            SetupMapValue::Neighbors(value) => assert_eq!(value, vec![(1, vec![2])]),
            _ => panic!("got a setup_map value that wasn't a region")
        },
        _ => panic!("didn't get a setup_map object")
    }
}

#[test]
fn setup_map_neighbors_multiple_proper() {
    match parse("setup_map neighbors 1 2,3 2 4,5".to_owned()).unwrap() {
        Message::SetupMap(setting) => match setting {
            SetupMapValue::Neighbors(value) => assert_eq!(value, vec![(1, vec![2, 3]), (2, vec![4, 5])]),
            _ => panic!("got a setup_map value that wasn't a region")
        },
        _ => panic!("didn't get a setup_map object")
    }
}

#[test]
fn go_blank() {
    match parse("go".to_owned()).unwrap_err().kind() {
        ErrorKind::MalformedCommand => {},
        _ => panic!("got an error of unexpected kind")
    }
}

#[test]
fn go_place_armies_blank() {
    match parse("go place_armies".to_owned()).unwrap_err().kind() {
        ErrorKind::MalformedCommand => {},
        _ => panic!("got an error of unexpected kind")
    }
}

#[test]
fn go_place_armies_nonnumeric() {
    match parse("go place_armies samwise".to_owned()).unwrap_err().kind() {
        ErrorKind::MalformedCommand => {},
        _ => panic!("got an error of unexpected kind")
    }
}

#[test]
fn go_place_armies_proper() {
    match parse("go place_armies 100".to_owned()).unwrap() {
        Message::GoPlaceArmies(timebank) => assert_eq!(timebank, 100),
        _ => panic!("didn't get a setup_map object")
    }
}

#[test]
fn go_attack_transfer_blank() {
    match parse("go attack/transfer".to_owned()).unwrap_err().kind() {
        ErrorKind::MalformedCommand => {},
        _ => panic!("got an error of unexpected kind")
    }
}

#[test]
fn go_attack_transfer_nonnumeric() {
    match parse("go attack/transfer frodo".to_owned()).unwrap_err().kind() {
        ErrorKind::MalformedCommand => {},
        _ => panic!("got an error of unexpected kind")
    }
}

#[test]
fn go_attack_transfer_proper() {
    match parse("go attack/transfer 100".to_owned()).unwrap() {
        Message::GoAttackTransfer(timebank) => assert_eq!(timebank, 100),
        _ => panic!("didn't get a setup_map object")
    }
}

#[test]
fn update_map_blank() {
    match parse("update_map".to_owned()).unwrap_err().kind() {
        ErrorKind::MalformedCommand => {},
        _ => panic!("got an error of unexpected kind")
    }
}

#[test]
fn update_map_missing_name_and_amount() {
    match parse("update_map 1".to_owned()).unwrap_err().kind() {
        ErrorKind::MalformedCommand => {},
        _ => panic!("got an error of unexpected kind")
    }
}

#[test]
fn update_map_missing_amount() {
    match parse("update_map 1 foobar".to_owned()).unwrap_err().kind() {
        ErrorKind::MalformedCommand => {},
        _ => panic!("got an error of unexpected kind")
    }
}

#[test]
fn update_map_nonnumeric_amount() {
    match parse("update_map 1 foobar lol".to_owned()).unwrap_err().kind() {
        ErrorKind::MalformedCommand => {},
        _ => panic!("got an error of unexpected kind")
    }
}

#[test]
fn update_map_nonnumeric_id() {
    match parse("update_map so foobar 3".to_owned()).unwrap_err().kind() {
        ErrorKind::MalformedCommand => {},
        _ => panic!("got an error of unexpected kind")
    }
}

#[test]
fn update_map_proper() {
    match parse("update_map 1 truck 4".to_owned()).unwrap() {
        Message::UpdateMap(value) => assert_eq!(value, vec!((1, "truck".to_owned(), 4))),
        _ => panic!("didn't get an update_map object")
    }
}

#[test]
fn update_map_proper_multiple() {
    match parse("update_map 1 truck 4 2 train 8".to_owned()).unwrap() {
        Message::UpdateMap(value) => assert_eq!(
            value,
            vec!((1, "truck".to_owned(), 4), (2, "train".to_owned(), 8))
        ),
        _ => panic!("didn't get an update_map object")
    }
}

#[test]
fn opponent_moves_blank() {
    match parse("opponent_moves".to_owned()).unwrap() {
        Message::OpponentMoves(value) => {
            assert_eq!(value.len(), 0)
        },
        _ => panic!("didn't get an opponent_moves object")
    }
}

#[test]
fn opponent_moves_missing_type() {
    match parse("opponent_moves name".to_owned()).unwrap_err().kind() {
        ErrorKind::MalformedCommand => {},
        _ => panic!("got an error of unexpected kind")
    }
}

#[test]
fn opponent_moves_unknown_type() {
    match parse("opponent_moves name merf".to_owned()).unwrap_err().kind() {
        ErrorKind::MalformedCommand => {},
        _ => panic!("got an error of unexpected kind")
    }
}

#[test]
fn opponent_moves_place_armies_missing_region() {
    match parse("opponent_moves name place_armies".to_owned()).unwrap_err().kind() {
        ErrorKind::MalformedCommand => {},
        _ => panic!("got an error of unexpected kind")
    }
}

#[test]
fn opponent_moves_place_armies_nonnumeric_region() {
    match parse("opponent_moves name place_armies wilma".to_owned()).unwrap_err().kind() {
        ErrorKind::MalformedCommand => {},
        _ => panic!("got an error of unexpected kind")
    }
}

#[test]
fn opponent_moves_place_armies_missing_value() {
    match parse("opponent_moves name place_armies".to_owned()).unwrap_err().kind() {
        ErrorKind::MalformedCommand => {},
        _ => panic!("got an error of unexpected kind")
    }
}

#[test]
fn opponent_moves_place_armies_nonnumeric_value() {
    match parse("opponent_moves name place_armies 1 wilma".to_owned()).unwrap_err().kind() {
        ErrorKind::MalformedCommand => {},
        _ => panic!("got an error of unexpected kind")
    }
}

#[test]
fn opponent_moves_place_armies_proper() {
    match parse("opponent_moves name place_armies 4 5".to_owned()).unwrap() {
        Message::OpponentMoves(value) => {
            let mut iter = value.into_iter();
            let first_move = iter.next().unwrap();
            match first_move {
                OpponentMoveValue::PlaceArmies(player, region, value) => {
                    assert_eq!(player, "name".to_owned());
                    assert_eq!(region, 4);
                    assert_eq!(value, 5);
                }
                _ => panic!("didn't get the expected opponent_moves type")
            }
        }
        _ => panic!("didn't get an opponent_moves object")
    }
}

#[test]
fn opponent_moves_place_armies_proper_multiple() {
    match parse("opponent_moves player2 place_armies 4 5 player2 place_armies 7 9".to_owned()).unwrap() {
        Message::OpponentMoves(value) => {
            let mut iter = value.into_iter();
            match iter.next().unwrap() {
                OpponentMoveValue::PlaceArmies(player, region, value) => {
                    assert_eq!(player, "player2".to_owned());
                    assert_eq!(region, 4);
                    assert_eq!(value, 5);
                }
                _ => panic!("didn't get the expected opponent_moves type")
            }
            match iter.next().unwrap() {
                OpponentMoveValue::PlaceArmies(player, region, value) => {
                    assert_eq!(player, "player2".to_owned());
                    assert_eq!(region, 7);
                    assert_eq!(value, 9);
                }
                _ => panic!("didn't get the expected opponent_moves type")
            }
        }
        _ => panic!("didn't get an opponent_moves object")
    }
}

#[test]
fn opponent_moves_attack_transfer_missing_source_region() {
    match parse("opponent_moves name attack/transfer".to_owned()).unwrap_err().kind() {
        ErrorKind::MalformedCommand => {},
        _ => panic!("got an error of unexpected kind")
    }
}

#[test]
fn opponent_moves_attack_transfer_nonnumeric_source_region() {
    match parse("opponent_moves name attack/transfer wilma".to_owned()).unwrap_err().kind() {
        ErrorKind::MalformedCommand => {},
        _ => panic!("got an error of unexpected kind")
    }
}

#[test]
fn opponent_moves_attack_transfer_missing_target_region() {
    match parse("opponent_moves name attack/transfer 1".to_owned()).unwrap_err().kind() {
        ErrorKind::MalformedCommand => {},
        _ => panic!("got an error of unexpected kind")
    }
}

#[test]
fn opponent_moves_attack_transfer_nonnumeric_target_region() {
    match parse("opponent_moves name attack/transfer 2 baz".to_owned()).unwrap_err().kind() {
        ErrorKind::MalformedCommand => {},
        _ => panic!("got an error of unexpected kind")
    }
}

#[test]
fn opponent_moves_attack_transfer_missing_value() {
    match parse("opponent_moves name attack/transfer 1 2".to_owned()).unwrap_err().kind() {
        ErrorKind::MalformedCommand => {},
        _ => panic!("got an error of unexpected kind")
    }
}

#[test]
fn opponent_moves_attack_transfer_nonnumeric_value() {
    match parse("opponent_moves name attack/transfer 3 4 betty".to_owned()).unwrap_err().kind() {
        ErrorKind::MalformedCommand => {},
        _ => panic!("got an error of unexpected kind")
    }
}

#[test]
fn opponent_moves_attack_transfer_proper() {
    match parse("opponent_moves name attack/transfer 4 5 6".to_owned()).unwrap() {
        Message::OpponentMoves(value) => {
            let mut iter = value.into_iter();
            let first_move = iter.next().unwrap();
            match first_move {
                OpponentMoveValue::AttackTransfer(player, source, target, value) => {
                    assert_eq!(player, "name".to_owned());
                    assert_eq!(source, 4);
                    assert_eq!(target, 5);
                    assert_eq!(value, 6);
                }
                _ => panic!("didn't get the expected opponent_moves type")
            }
        }
        _ => panic!("didn't get an opponent_moves object")
    }
}

#[test]
fn opponent_moves_attack_transfer_proper_multiple() {
    match parse("opponent_moves player2 attack/transfer 4 5 6 player2 attack/transfer 7 9 11".to_owned()).unwrap() {
        Message::OpponentMoves(value) => {
            let mut iter = value.into_iter();
            match iter.next().unwrap() {
                OpponentMoveValue::AttackTransfer(player, source, target, value) => {
                    assert_eq!(player, "player2".to_owned());
                    assert_eq!(source, 4);
                    assert_eq!(target, 5);
                    assert_eq!(value, 6);
                }
                _ => panic!("didn't get the expected opponent_moves type")
            }
            match iter.next().unwrap() {
                OpponentMoveValue::AttackTransfer(player, source, target, value) => {
                    assert_eq!(player, "player2".to_owned());
                    assert_eq!(source, 7);
                    assert_eq!(target, 9);
                    assert_eq!(value, 11);
                }
                _ => panic!("didn't get the expected opponent_moves type")
            }
        }
        _ => panic!("didn't get an opponent_moves object")
    }
}

#[test]
fn opponent_moves_attack_transfer_place_armies_proper() {
    match parse("opponent_moves player2 attack/transfer 4 5 6 player2 place_armies 7 9".to_owned()).unwrap() {
        Message::OpponentMoves(value) => {
            let mut iter = value.into_iter();
            match iter.next().unwrap() {
                OpponentMoveValue::AttackTransfer(player, source, target, value) => {
                    assert_eq!(player, "player2".to_owned());
                    assert_eq!(source, 4);
                    assert_eq!(target, 5);
                    assert_eq!(value, 6);
                }
                _ => panic!("didn't get the expected opponent_moves type")
            }
            match iter.next().unwrap() {
                OpponentMoveValue::PlaceArmies(player, region, value) => {
                    assert_eq!(player, "player2".to_owned());
                    assert_eq!(region, 7);
                    assert_eq!(value, 9);
                }
                _ => panic!("didn't get the expected opponent_moves type")
            }
        }
        _ => panic!("didn't get an opponent_moves object")
    }
}

#[test]
fn opponent_moves_place_armies_attack_transfer_proper() {
    match parse("opponent_moves player2 place_armies 7 9 player2 attack/transfer 4 5 6".to_owned()).unwrap() {
        Message::OpponentMoves(value) => {
            let mut iter = value.into_iter();
            match iter.next().unwrap() {
                OpponentMoveValue::PlaceArmies(player, region, value) => {
                    assert_eq!(player, "player2".to_owned());
                    assert_eq!(region, 7);
                    assert_eq!(value, 9);
                }
                _ => panic!("didn't get the expected opponent_moves type")
            }
            match iter.next().unwrap() {
                OpponentMoveValue::AttackTransfer(player, source, target, value) => {
                    assert_eq!(player, "player2".to_owned());
                    assert_eq!(source, 4);
                    assert_eq!(target, 5);
                    assert_eq!(value, 6);
                }
                _ => panic!("didn't get the expected opponent_moves type")
            }
        }
        _ => panic!("didn't get an opponent_moves object")
    }
}

#[test]
fn pick_starting_region_blank() {
    match parse("pick_starting_region".to_owned()).unwrap_err().kind() {
        ErrorKind::MalformedCommand => {},
        _ => panic!("got an error of unexpected kind")
    }
}

#[test]
fn pick_starting_region_missing_region() {
    match parse("pick_starting_region 1000".to_owned()).unwrap_err().kind() {
        ErrorKind::MalformedCommand => {},
        _ => panic!("got an error of unexpected kind")
    }
}

#[test]
fn pick_starting_region_nonnumeric_time() {
    match parse("pick_starting_region tenseconds".to_owned()).unwrap_err().kind() {
        ErrorKind::MalformedCommand => {},
        _ => panic!("got an error of unexpected kind")
    }
}

#[test]
fn pick_starting_region_nonnumeric_region() {
    match parse("pick_starting_region 100 tenseconds".to_owned()).unwrap_err().kind() {
        ErrorKind::MalformedCommand => {},
        _ => panic!("got an error of unexpected kind")
    }
}

#[test]
fn pick_starting_region_proper() {
    match parse("pick_starting_region 100 1".to_owned()).unwrap() {
        Message::PickStartingRegion(time, value) => {
            assert_eq!(time, 100);
            assert_eq!(value, vec!(1));
        }
        _ => panic!("didn't get an opponent_moves object")
    }
}

#[test]
fn pick_starting_region_proper_multiple() {
    match parse("pick_starting_region 283 5 8".to_owned()).unwrap() {
        Message::PickStartingRegion(time, value) => {
            assert_eq!(time, 283);
            assert_eq!(value, vec![5, 8]);
        }
        _ => panic!("didn't get an opponent_moves object")
    }
}
