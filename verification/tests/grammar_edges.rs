//! Edges of the error taxonomy: unrecognized command and subcommand tokens
//! are unknown commands; structurally broken arguments are malformed.

use warlib::parser::errors::ErrorKind;
use warlib::parser::parse;

#[test]
fn unknown_top_level_command_is_unknown() {
    let e = parse("wibble 1 2 3".to_owned()).unwrap_err();
    assert!(matches!(e.kind(), ErrorKind::UnknownCommand));
}

#[test]
fn unknown_settings_key_is_unknown() {
    let e = parse("settings frobnicate 1".to_owned()).unwrap_err();
    assert!(matches!(e.kind(), ErrorKind::UnknownCommand));
}

#[test]
fn unknown_setup_map_type_is_unknown() {
    let e = parse("setup_map continents 1 2".to_owned()).unwrap_err();
    assert!(matches!(e.kind(), ErrorKind::UnknownCommand));
}

#[test]
fn unknown_go_type_is_unknown() {
    let e = parse("go fly 100".to_owned()).unwrap_err();
    assert!(matches!(e.kind(), ErrorKind::UnknownCommand));
}

#[test]
fn unknown_opponent_move_verb_is_malformed() {
    let e = parse("opponent_moves name fly 1 2".to_owned()).unwrap_err();
    assert!(matches!(e.kind(), ErrorKind::MalformedCommand));
}

#[test]
fn trailing_tokens_after_a_scalar_value_are_ignored() {
    match parse("settings timebank 10000 extra tokens".to_owned()).unwrap() {
        warlib::parser::Message::Settings(s) => match s {
            warlib::parser::SettingsValue::Timebank(v) => assert_eq!(v, 10000),
            _ => panic!("expected a timebank setting"),
        },
        _ => panic!("expected a settings message"),
    }
}

#[test]
fn update_map_accepts_any_owner_name_token_shape() {
    match parse("update_map 1  3".to_owned()).unwrap() {
        warlib::parser::Message::UpdateMap(v) => {
            assert_eq!(v, vec![(1, "".to_owned(), 3)]);
        },
        _ => panic!("expected an update_map message"),
    }
}

#[test]
fn neighbors_with_trailing_comma_are_malformed() {
    let e = parse("setup_map neighbors 1 2,".to_owned()).unwrap_err();
    assert!(matches!(e.kind(), ErrorKind::MalformedCommand));
}
