//! The bot, driven line by line: response discipline, the pick heuristic,
//! placement and attack rounds, and the precondition check.

use warlib::Bot;

fn feed(bot: &mut Bot, line: &str) -> Option<String> {
    assert!(bot.can_process(line), "line should be processable: {}", line);
    bot.read_line(line.to_owned())
}

#[test]
fn end_to_end_place_armies_round() {
    let mut bot = Bot::new();
    let mut responses: Vec<String> = Vec::new();
    let lines = [
        "settings your_bot A",
        "settings opponent_bot B",
        "setup_map super_regions 1 5",
        "setup_map regions 1 1",
        "update_map 1 A 3",
        "go place_armies 100",
    ];
    for line in lines {
        if let Some(r) = feed(&mut bot, line) {
            responses.push(r);
        }
    }
    assert_eq!(responses.len(), 1);
    assert!(
        responses[0].starts_with("A place_armies 1 "),
        "unexpected response: {}",
        responses[0]
    );
}

#[test]
fn unparsable_line_is_dropped_without_response() {
    let mut bot = Bot::new();
    assert!(bot.can_process("hello world"));
    assert_eq!(bot.read_line("hello world".to_owned()), None);
    assert_eq!(bot.read_line("settings timebank five".to_owned()), None);
}

#[test]
fn non_responding_commands_produce_no_line() {
    let mut bot = Bot::new();
    assert_eq!(feed(&mut bot, "settings your_bot A"), None);
    assert_eq!(feed(&mut bot, "setup_map super_regions 1 5"), None);
    assert_eq!(feed(&mut bot, "setup_map regions 1 1"), None);
    assert_eq!(feed(&mut bot, "update_map 1 A 3"), None);
    assert_eq!(feed(&mut bot, "opponent_moves"), None);
}

#[test]
fn pick_chooses_the_best_bonus_per_army() {
    let mut bot = Bot::new();
    feed(&mut bot, "setup_map super_regions 1 1 2 10");
    feed(&mut bot, "setup_map regions 1 1 2 1 3 2");
    let r = feed(&mut bot, "pick_starting_region 100 2 3").expect("pick must respond");
    assert_eq!(r, "3");
}

#[test]
fn pick_with_no_positive_score_falls_back_to_region_zero() {
    let mut bot = Bot::new();
    feed(&mut bot, "setup_map super_regions 1 0");
    feed(&mut bot, "setup_map regions 1 1");
    let r = feed(&mut bot, "pick_starting_region 100 1").expect("pick must respond");
    assert_eq!(r, "0");
}

#[test]
fn place_armies_samples_distinct_ally_regions() {
    let mut bot = Bot::new();
    feed(&mut bot, "settings your_bot A");
    feed(&mut bot, "settings starting_armies 2");
    feed(&mut bot, "setup_map super_regions 1 5");
    feed(&mut bot, "setup_map regions 1 1 2 1 3 1");
    feed(&mut bot, "update_map 1 A 2 2 A 2 3 A 2");
    let r = feed(&mut bot, "go place_armies 100").expect("placement must respond");
    let toks: Vec<&str> = r.split(' ').collect();
    assert_eq!(toks.len(), 8, "expected two placement directives: {}", r);
    let mut ids: Vec<&str> = Vec::new();
    for d in 0..2 {
        assert_eq!(toks[4 * d], "A");
        assert_eq!(toks[4 * d + 1], "place_armies");
        assert!(["1", "2", "3"].contains(&toks[4 * d + 2]));
        assert_eq!(toks[4 * d + 3], "1");
        ids.push(toks[4 * d + 2]);
    }
    assert_ne!(ids[0], ids[1], "sampled regions must be distinct");
}

#[test]
fn place_armies_with_no_allies_reports_no_moves() {
    let mut bot = Bot::new();
    feed(&mut bot, "setup_map super_regions 1 5");
    feed(&mut bot, "setup_map regions 1 1");
    let r = feed(&mut bot, "go place_armies 100").expect("placement must respond");
    assert_eq!(r, "No moves");
}

#[test]
fn attack_transfer_moves_three_armies_onto_a_neighbor() {
    let mut bot = Bot::new();
    feed(&mut bot, "settings your_bot A");
    feed(&mut bot, "setup_map super_regions 1 5");
    feed(&mut bot, "setup_map regions 1 1 2 1");
    feed(&mut bot, "setup_map neighbors 1 2");
    feed(&mut bot, "update_map 1 A 5");
    let r = feed(&mut bot, "go attack/transfer 100").expect("attack must respond");
    assert_eq!(r, "A attack/transfer 1 2 3");
}

#[test]
fn attack_transfer_without_a_strong_region_reports_no_moves() {
    let mut bot = Bot::new();
    feed(&mut bot, "settings your_bot A");
    feed(&mut bot, "setup_map super_regions 1 5");
    feed(&mut bot, "setup_map regions 1 1 2 1");
    feed(&mut bot, "setup_map neighbors 1 2");
    feed(&mut bot, "update_map 1 A 3");
    let r = feed(&mut bot, "go attack/transfer 100").expect("attack must respond");
    assert_eq!(r, "No moves");
}

#[test]
fn opponent_moves_mark_exposed_regions_enemy() {
    let mut bot = Bot::new();
    feed(&mut bot, "settings your_bot A");
    feed(&mut bot, "setup_map super_regions 1 5");
    feed(&mut bot, "setup_map regions 1 1 2 1");
    feed(&mut bot, "update_map 1 A 5 2 A 5");
    feed(&mut bot, "opponent_moves B place_armies 2 3");
    // region 2 is now believed enemy-held: placements can only land on 1
    let r = feed(&mut bot, "go place_armies 100").expect("placement must respond");
    assert!(r.starts_with("A place_armies 1 "), "unexpected response: {}", r);
}

#[test]
fn unregistered_ids_are_refused_before_processing() {
    let bot = Bot::new();
    assert!(!bot.can_process("update_map 9 A 3"));
    assert!(!bot.can_process("setup_map regions 1 1"));
    assert!(!bot.can_process("setup_map wastelands 4"));
    assert!(!bot.can_process("pick_starting_region 100 4"));
    assert!(bot.can_process("settings timebank 500"));
    assert!(bot.can_process("setup_map super_regions 1 5"));
}

#[test]
fn update_map_with_unknown_owner_name_is_refused() {
    let mut bot = Bot::new();
    feed(&mut bot, "settings your_bot A");
    feed(&mut bot, "settings opponent_bot B");
    feed(&mut bot, "setup_map super_regions 1 5");
    feed(&mut bot, "setup_map regions 1 1");
    assert!(bot.can_process("update_map 1 A 3"));
    assert!(bot.can_process("update_map 1 B 3"));
    assert!(bot.can_process("update_map 1 neutral 3"));
    assert!(!bot.can_process("update_map 1 C 3"));
}

#[test]
fn fog_flips_unreported_allies_between_updates() {
    let mut bot = Bot::new();
    feed(&mut bot, "settings your_bot A");
    feed(&mut bot, "setup_map super_regions 1 5");
    feed(&mut bot, "setup_map regions 1 1 2 1");
    feed(&mut bot, "update_map 1 A 2 2 A 2");
    // the next batch reports only region 1: region 2 must be presumed lost
    feed(&mut bot, "update_map 1 A 2");
    let r = feed(&mut bot, "go place_armies 100").expect("placement must respond");
    assert!(r.starts_with("A place_armies 1 "), "unexpected response: {}", r);
}
