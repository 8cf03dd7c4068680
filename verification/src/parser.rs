//! The message parser.
//!
//! [`parse`] turns one protocol line into a [`Message`] or a typed
//! [`errors::ParseError`].  The grammar is specified by [`spec_parse`], a
//! spec-level parser over the line's token list; the executable parser is
//! proved to agree with it on every input: the same success or failure, the
//! same message on success, and the same error kind on failure.

pub mod errors;

use vstd::prelude::*;
use vstd::string::StrSliceExecFns;
use crate::numbers::{parse_u64, token_u64, valid_u64_token, IntError};
use crate::parser::errors::{ErrorKind, ParseError};
use crate::tokens::{spec_split_on, spec_tokenize, split_on, str_eq, tokenize};

verus! {

/// A parsed protocol command.
#[derive(Debug)]
pub enum Message {
    SetupMap(SetupMapValue),
    Settings(SettingsValue),
    UpdateMap(Vec<(u64, String, u64)>),
    OpponentMoves(Vec<OpponentMoveValue>),
    PickStartingRegion(u64, Vec<u64>),
    GoPlaceArmies(u64),
    GoAttackTransfer(u64),
}

/// One configuration value delivered by a `settings` line.
#[derive(Debug)]
pub enum SettingsValue {
    Timebank(u64),
    TimePerMove(u64),
    MaxRounds(u64),
    YourBot(String),
    OpponentBot(String),
    StartingRegions(Vec<u64>),
    StartingPickAmount(u64),
    StartingArmies(u64),
}

/// The payload of a `setup_map` line.
#[derive(Debug)]
pub enum SetupMapValue {
    SuperRegions(Vec<(u64, u64)>),
    Regions(Vec<(u64, u64)>),
    Neighbors(Vec<(u64, Vec<u64>)>),
    Wastelands(Vec<u64>),
    OpponentStartingRegions(Vec<u64>),
}

/// One opponent move reported by an `opponent_moves` line.
#[derive(Debug)]
pub enum OpponentMoveValue {
    /// Player name, target region, army count.
    PlaceArmies(String, u64, u64),
    /// Player name, source region, target region, army count.
    AttackTransfer(String, u64, u64, u64),
}

/// The mathematical value of a [`Message`].
pub enum SpecMessage {
    SetupMap(SpecSetupMap),
    Settings(SpecSettings),
    UpdateMap(Seq<(u64, Seq<char>, u64)>),
    OpponentMoves(Seq<SpecOpponentMove>),
    PickStartingRegion(u64, Seq<u64>),
    GoPlaceArmies(u64),
    GoAttackTransfer(u64),
}

/// The mathematical value of a [`SettingsValue`].
pub enum SpecSettings {
    Timebank(u64),
    TimePerMove(u64),
    MaxRounds(u64),
    YourBot(Seq<char>),
    OpponentBot(Seq<char>),
    StartingRegions(Seq<u64>),
    StartingPickAmount(u64),
    StartingArmies(u64),
}

/// The mathematical value of a [`SetupMapValue`].
pub enum SpecSetupMap {
    SuperRegions(Seq<(u64, u64)>),
    Regions(Seq<(u64, u64)>),
    Neighbors(Seq<(u64, Seq<u64>)>),
    Wastelands(Seq<u64>),
    OpponentStartingRegions(Seq<u64>),
}

/// The mathematical value of an [`OpponentMoveValue`].
pub enum SpecOpponentMove {
    PlaceArmies(Seq<char>, u64, u64),
    AttackTransfer(Seq<char>, u64, u64, u64),
}

impl View for SettingsValue {
    type V = SpecSettings;

    open spec fn view(&self) -> SpecSettings {
        match self {
            SettingsValue::Timebank(v) => SpecSettings::Timebank(*v),
            SettingsValue::TimePerMove(v) => SpecSettings::TimePerMove(*v),
            SettingsValue::MaxRounds(v) => SpecSettings::MaxRounds(*v),
            SettingsValue::YourBot(s) => SpecSettings::YourBot(s@),
            SettingsValue::OpponentBot(s) => SpecSettings::OpponentBot(s@),
            SettingsValue::StartingRegions(v) => SpecSettings::StartingRegions(v@),
            SettingsValue::StartingPickAmount(v) => SpecSettings::StartingPickAmount(*v),
            SettingsValue::StartingArmies(v) => SpecSettings::StartingArmies(*v),
        }
    }
}

impl View for SetupMapValue {
    type V = SpecSetupMap;

    open spec fn view(&self) -> SpecSetupMap {
        match self {
            SetupMapValue::SuperRegions(v) => SpecSetupMap::SuperRegions(v@),
            SetupMapValue::Regions(v) => SpecSetupMap::Regions(v@),
            SetupMapValue::Neighbors(v) => SpecSetupMap::Neighbors(v.deep_view()),
            SetupMapValue::Wastelands(v) => SpecSetupMap::Wastelands(v@),
            SetupMapValue::OpponentStartingRegions(v) => SpecSetupMap::OpponentStartingRegions(v@),
        }
    }
}

impl View for OpponentMoveValue {
    type V = SpecOpponentMove;

    open spec fn view(&self) -> SpecOpponentMove {
        match self {
            OpponentMoveValue::PlaceArmies(name, target, armies) => SpecOpponentMove::PlaceArmies(
                name@,
                *target,
                *armies,
            ),
            OpponentMoveValue::AttackTransfer(name, source, target, armies)
                => SpecOpponentMove::AttackTransfer(name@, *source, *target, *armies),
        }
    }
}

impl View for Message {
    type V = SpecMessage;

    open spec fn view(&self) -> SpecMessage {
        match self {
            Message::SetupMap(v) => SpecMessage::SetupMap(v@),
            Message::Settings(v) => SpecMessage::Settings(v@),
            Message::UpdateMap(v) => SpecMessage::UpdateMap(v.deep_view()),
            Message::OpponentMoves(v) => SpecMessage::OpponentMoves(
                v@.map_values(|m: OpponentMoveValue| m@),
            ),
            Message::PickStartingRegion(t, v) => SpecMessage::PickStartingRegion(*t, v@),
            Message::GoPlaceArmies(t) => SpecMessage::GoPlaceArmies(*t),
            Message::GoAttackTransfer(t) => SpecMessage::GoAttackTransfer(*t),
        }
    }
}

/// The numeric argument at position `i`, if it is there and converts.
pub open spec fn spec_token_u64(toks: Seq<Seq<char>>, i: int) -> Result<u64, ErrorKind> {
    if i >= toks.len() {
        Err(ErrorKind::MalformedCommand)
    } else if valid_u64_token(toks[i]) {
        Ok(token_u64(toks[i]))
    } else {
        Err(ErrorKind::MalformedCommand)
    }
}

/// Whether every token converts as a base-10 unsigned 64-bit integer.
pub open spec fn all_valid_u64(toks: Seq<Seq<char>>) -> bool {
    forall|i: int| 0 <= i < toks.len() ==> valid_u64_token(#[trigger] toks[i])
}

/// The values of a token list, assuming every token is valid.
pub open spec fn tokens_u64(toks: Seq<Seq<char>>) -> Seq<u64> {
    toks.map_values(|t: Seq<char>| token_u64(t))
}

/// A non-empty flat integer list.
pub open spec fn spec_u64_vector(toks: Seq<Seq<char>>) -> Result<Seq<u64>, ErrorKind> {
    if toks.len() == 0 {
        Err(ErrorKind::MalformedCommand)
    } else if all_valid_u64(toks) {
        Ok(tokens_u64(toks))
    } else {
        Err(ErrorKind::MalformedCommand)
    }
}

/// A non-empty even-length flat stream grouped pairwise.
pub open spec fn spec_pair_vector(toks: Seq<Seq<char>>) -> Result<Seq<(u64, u64)>, ErrorKind> {
    if toks.len() == 0 || toks.len() % 2 != 0 {
        Err(ErrorKind::MalformedCommand)
    } else if all_valid_u64(toks) {
        Ok(
            Seq::new(
                toks.len() / 2,
                |k: int| (token_u64(toks[2 * k]), token_u64(toks[2 * k + 1])),
            ),
        )
    } else {
        Err(ErrorKind::MalformedCommand)
    }
}

/// Whether a comma-joined token is a list of valid integers.
pub open spec fn valid_comma_list(t: Seq<char>) -> bool {
    all_valid_u64(spec_split_on(t, ','))
}

/// The integers of a comma-joined token.
pub open spec fn comma_list(t: Seq<char>) -> Seq<u64> {
    tokens_u64(spec_split_on(t, ','))
}

/// A non-empty even-length stream of (id, comma-joined neighbor list) pairs.
pub open spec fn spec_neighbors_vector(toks: Seq<Seq<char>>) -> Result<
    Seq<(u64, Seq<u64>)>,
    ErrorKind,
> {
    if toks.len() == 0 || toks.len() % 2 != 0 {
        Err(ErrorKind::MalformedCommand)
    } else if forall|k: int|
        0 <= k < toks.len() / 2 ==> valid_u64_token(#[trigger] toks[2 * k]) && valid_comma_list(
            toks[2 * k + 1],
        ) {
        Ok(
            Seq::new(toks.len() / 2, |k: int| (token_u64(toks[2 * k]), comma_list(toks[2 * k + 1]))),
        )
    } else {
        Err(ErrorKind::MalformedCommand)
    }
}

/// The `settings` grammar, over the tokens after the command token.
pub open spec fn spec_parse_settings(rest: Seq<Seq<char>>) -> Result<SpecMessage, ErrorKind> {
    if rest.len() == 0 {
        Err(ErrorKind::MalformedCommand)
    } else {
        let key = rest[0];
        if key == "timebank"@ {
            match spec_token_u64(rest, 1) {
                Ok(v) => Ok(SpecMessage::Settings(SpecSettings::Timebank(v))),
                Err(k) => Err(k),
            }
        } else if key == "time_per_move"@ {
            match spec_token_u64(rest, 1) {
                Ok(v) => Ok(SpecMessage::Settings(SpecSettings::TimePerMove(v))),
                Err(k) => Err(k),
            }
        } else if key == "max_rounds"@ {
            match spec_token_u64(rest, 1) {
                Ok(v) => Ok(SpecMessage::Settings(SpecSettings::MaxRounds(v))),
                Err(k) => Err(k),
            }
        } else if key == "starting_pick_amount"@ {
            match spec_token_u64(rest, 1) {
                Ok(v) => Ok(SpecMessage::Settings(SpecSettings::StartingPickAmount(v))),
                Err(k) => Err(k),
            }
        } else if key == "starting_armies"@ {
            match spec_token_u64(rest, 1) {
                Ok(v) => Ok(SpecMessage::Settings(SpecSettings::StartingArmies(v))),
                Err(k) => Err(k),
            }
        } else if key == "starting_regions"@ {
            match spec_u64_vector(rest.drop_first()) {
                Ok(v) => Ok(SpecMessage::Settings(SpecSettings::StartingRegions(v))),
                Err(k) => Err(k),
            }
        } else if key == "your_bot"@ {
            if rest.len() < 2 {
                Err(ErrorKind::MalformedCommand)
            } else {
                Ok(SpecMessage::Settings(SpecSettings::YourBot(rest[1])))
            }
        } else if key == "opponent_bot"@ {
            if rest.len() < 2 {
                Err(ErrorKind::MalformedCommand)
            } else {
                Ok(SpecMessage::Settings(SpecSettings::OpponentBot(rest[1])))
            }
        } else {
            Err(ErrorKind::UnknownCommand)
        }
    }
}

/// The `setup_map` grammar, over the tokens after the command token.
pub open spec fn spec_parse_setup_map(rest: Seq<Seq<char>>) -> Result<SpecMessage, ErrorKind> {
    if rest.len() == 0 {
        Err(ErrorKind::MalformedCommand)
    } else {
        let sub = rest[0];
        let args = rest.drop_first();
        if sub == "super_regions"@ {
            match spec_pair_vector(args) {
                Ok(v) => Ok(SpecMessage::SetupMap(SpecSetupMap::SuperRegions(v))),
                Err(k) => Err(k),
            }
        } else if sub == "regions"@ {
            match spec_pair_vector(args) {
                Ok(v) => Ok(SpecMessage::SetupMap(SpecSetupMap::Regions(v))),
                Err(k) => Err(k),
            }
        } else if sub == "neighbors"@ {
            match spec_neighbors_vector(args) {
                Ok(v) => Ok(SpecMessage::SetupMap(SpecSetupMap::Neighbors(v))),
                Err(k) => Err(k),
            }
        } else if sub == "wastelands"@ {
            match spec_u64_vector(args) {
                Ok(v) => Ok(SpecMessage::SetupMap(SpecSetupMap::Wastelands(v))),
                Err(k) => Err(k),
            }
        } else if sub == "opponent_starting_regions"@ {
            match spec_u64_vector(args) {
                Ok(v) => Ok(SpecMessage::SetupMap(SpecSetupMap::OpponentStartingRegions(v))),
                Err(k) => Err(k),
            }
        } else {
            Err(ErrorKind::UnknownCommand)
        }
    }
}

/// The `update_map` grammar: a non-empty stream of (id, owner name, armies)
/// triples.
pub open spec fn spec_parse_update_map(args: Seq<Seq<char>>) -> Result<SpecMessage, ErrorKind> {
    if args.len() == 0 || args.len() % 3 != 0 {
        Err(ErrorKind::MalformedCommand)
    } else if forall|k: int|
        0 <= k < args.len() / 3 ==> valid_u64_token(#[trigger] args[3 * k]) && valid_u64_token(
            args[3 * k + 2],
        ) {
        Ok(
            SpecMessage::UpdateMap(
                Seq::new(
                    args.len() / 3,
                    |k: int| (token_u64(args[3 * k]), args[3 * k + 1], token_u64(args[3 * k + 2])),
                ),
            ),
        )
    } else {
        Err(ErrorKind::MalformedCommand)
    }
}

/// The `opponent_moves` grammar: (player, verb, verb-specific args) groups
/// until the tokens exhaust.  No groups at all is a valid, empty move list.
pub open spec fn spec_parse_opponent_moves(toks: Seq<Seq<char>>) -> Result<
    Seq<SpecOpponentMove>,
    ErrorKind,
>
    decreases toks.len(),
{
    if toks.len() == 0 {
        Ok(Seq::empty())
    } else if toks.len() == 1 {
        Err(ErrorKind::MalformedCommand)
    } else if toks[1] == "attack/transfer"@ {
        if toks.len() < 5 {
            Err(ErrorKind::MalformedCommand)
        } else if valid_u64_token(toks[2]) && valid_u64_token(toks[3]) && valid_u64_token(toks[4]) {
            match spec_parse_opponent_moves(toks.skip(5)) {
                Ok(ms) => Ok(
                    seq![
                        SpecOpponentMove::AttackTransfer(
                            toks[0],
                            token_u64(toks[2]),
                            token_u64(toks[3]),
                            token_u64(toks[4]),
                        ),
                    ] + ms,
                ),
                Err(k) => Err(k),
            }
        } else {
            Err(ErrorKind::MalformedCommand)
        }
    } else if toks[1] == "place_armies"@ {
        if toks.len() < 4 {
            Err(ErrorKind::MalformedCommand)
        } else if valid_u64_token(toks[2]) && valid_u64_token(toks[3]) {
            match spec_parse_opponent_moves(toks.skip(4)) {
                Ok(ms) => Ok(
                    seq![
                        SpecOpponentMove::PlaceArmies(
                            toks[0],
                            token_u64(toks[2]),
                            token_u64(toks[3]),
                        ),
                    ] + ms,
                ),
                Err(k) => Err(k),
            }
        } else {
            Err(ErrorKind::MalformedCommand)
        }
    } else {
        Err(ErrorKind::MalformedCommand)
    }
}

/// The `opponent_moves` grammar as a message.
pub open spec fn spec_opponent_moves_msg(toks: Seq<Seq<char>>) -> Result<SpecMessage, ErrorKind> {
    match spec_parse_opponent_moves(toks) {
        Ok(ms) => Ok(SpecMessage::OpponentMoves(ms)),
        Err(k) => Err(k),
    }
}

/// The `pick_starting_region` grammar: a timebank and at least one region id.
pub open spec fn spec_parse_pick(args: Seq<Seq<char>>) -> Result<SpecMessage, ErrorKind> {
    if args.len() == 0 {
        Err(ErrorKind::MalformedCommand)
    } else if !valid_u64_token(args[0]) {
        Err(ErrorKind::MalformedCommand)
    } else {
        match spec_u64_vector(args.drop_first()) {
            Ok(ids) => Ok(SpecMessage::PickStartingRegion(token_u64(args[0]), ids)),
            Err(k) => Err(k),
        }
    }
}

/// The `go` grammar: a round type and a timebank.
pub open spec fn spec_parse_go(args: Seq<Seq<char>>) -> Result<SpecMessage, ErrorKind> {
    if args.len() == 0 {
        Err(ErrorKind::MalformedCommand)
    } else if args[0] == "place_armies"@ {
        match spec_token_u64(args, 1) {
            Ok(v) => Ok(SpecMessage::GoPlaceArmies(v)),
            Err(k) => Err(k),
        }
    } else if args[0] == "attack/transfer"@ {
        match spec_token_u64(args, 1) {
            Ok(v) => Ok(SpecMessage::GoAttackTransfer(v)),
            Err(k) => Err(k),
        }
    } else {
        Err(ErrorKind::UnknownCommand)
    }
}

/// The whole grammar: dispatch on the first token of the tokenized line.
pub open spec fn spec_parse(line: Seq<char>) -> Result<SpecMessage, ErrorKind> {
    let toks = spec_tokenize(line);
    if toks.len() == 0 {
        Err(ErrorKind::UnknownCommand)
    } else if toks[0] == "setup_map"@ {
        spec_parse_setup_map(toks.drop_first())
    } else if toks[0] == "settings"@ {
        spec_parse_settings(toks.drop_first())
    } else if toks[0] == "update_map"@ {
        spec_parse_update_map(toks.drop_first())
    } else if toks[0] == "opponent_moves"@ {
        spec_opponent_moves_msg(toks.drop_first())
    } else if toks[0] == "pick_starting_region"@ {
        spec_parse_pick(toks.drop_first())
    } else if toks[0] == "go"@ {
        spec_parse_go(toks.drop_first())
    } else {
        Err(ErrorKind::UnknownCommand)
    }
}

/// Whether an executable parse result agrees with a spec parse result: same
/// outcome, same message on success, same error kind on failure.
pub open spec fn result_matches(
    r: Result<Message, ParseError>,
    s: Result<SpecMessage, ErrorKind>,
) -> bool {
    match r {
        Ok(m) => s is Ok && m@ == s->Ok_0,
        Err(e) => s is Err && e.spec_kind() == s->Err_0,
    }
}

/// The deep view of a token vector indexes to the views of its elements.
proof fn lemma_tokens_deep_view(toks: &Vec<String>)
    ensures
        toks.deep_view().len() == toks@.len(),
        forall|i: int| 0 <= i < toks@.len() ==> toks.deep_view()[i] == toks@[i]@,
{
}

/// The error for a token that failed numeric conversion, with the failure
/// text as detail.
fn int_error(e: IntError) -> (r: ParseError)
    ensures
        r.spec_kind() == ErrorKind::MalformedCommand,
{
    let detail: &str = match e {
        IntError::Empty => "cannot parse integer from empty string",
        IntError::InvalidDigit => "invalid digit found in string",
        IntError::Overflow => "number too large to fit in target type",
    };
    ParseError::with_detail(
        ErrorKind::MalformedCommand,
        "failed to parse as an integer",
        detail.to_owned(),
    )
}

/// Converts the token at `i` to an integer; `command` names the field for
/// the error detail when the token is missing.
fn parts_to_u64(toks: &Vec<String>, i: usize, command: &str) -> (r: Result<u64, ParseError>)
    ensures
        result_u64_matches(r, spec_token_u64(toks.deep_view(), i as int)),
{
    proof {
        lemma_tokens_deep_view(toks);
    }
    if i >= toks.len() {
        return Err(
            ParseError::with_detail(
                ErrorKind::MalformedCommand,
                "Missing numeric argument",
                command.to_owned(),
            ),
        );
    }
    match parse_u64(toks[i].as_str()) {
        Ok(v) => Ok(v),
        Err(e) => Err(int_error(e)),
    }
}

/// Whether an executable numeric conversion agrees with its spec.
pub open spec fn result_u64_matches(r: Result<u64, ParseError>, s: Result<u64, ErrorKind>) -> bool {
    match r {
        Ok(v) => s == Ok::<u64, ErrorKind>(v),
        Err(e) => s is Err && e.spec_kind() == s->Err_0,
    }
}

/// Converts every token from `from` on to an integer; at least one must be
/// there.
fn parts_to_u64_vector(toks: &Vec<String>, from: usize) -> (r: Result<Vec<u64>, ParseError>)
    requires
        from <= toks@.len(),
    ensures
        result_u64s_matches(
            r,
            spec_u64_vector(toks.deep_view().subrange(from as int, toks.deep_view().len() as int)),
        ),
{
    proof {
        lemma_tokens_deep_view(toks);
    }
    let ghost sub = toks.deep_view().subrange(from as int, toks.deep_view().len() as int);
    if from >= toks.len() {
        return Err(
            ParseError::with_description(
                ErrorKind::MalformedCommand,
                "Got command without any arguments",
            ),
        );
    }
    let mut vals: Vec<u64> = Vec::new();
    let mut i: usize = from;
    while i < toks.len()
        invariant
            from <= i <= toks@.len(),
            sub == toks.deep_view().subrange(from as int, toks.deep_view().len() as int),
            toks.deep_view().len() == toks@.len(),
            forall|j: int| 0 <= j < toks@.len() ==> toks.deep_view()[j] == toks@[j]@,
            forall|j: int| from <= j < i ==> valid_u64_token(#[trigger] toks.deep_view()[j]),
            vals@ == tokens_u64(toks.deep_view().subrange(from as int, i as int)),
        decreases toks@.len() - i,
    {
        match parse_u64(toks[i].as_str()) {
            Ok(v) => {
                vals.push(v);
                proof {
                    assert(toks.deep_view().subrange(from as int, i + 1).drop_last()
                        =~= toks.deep_view().subrange(from as int, i as int));
                    assert(tokens_u64(toks.deep_view().subrange(from as int, i + 1)) =~= tokens_u64(
                        toks.deep_view().subrange(from as int, i as int),
                    ).push(token_u64(toks.deep_view()[i as int])));
                }
            },
            Err(e) => {
                proof {
                    assert(!valid_u64_token(sub[i - from]));
                }
                return Err(int_error(e));
            },
        }
        i = i + 1;
    }
    proof {
        assert(sub =~~= toks.deep_view().subrange(from as int, i as int));
        assert(all_valid_u64(sub));
        assert(vals@ == tokens_u64(sub));
    }
    Ok(vals)
}

/// Whether an executable integer-list conversion agrees with its spec.
pub open spec fn result_u64s_matches(
    r: Result<Vec<u64>, ParseError>,
    s: Result<Seq<u64>, ErrorKind>,
) -> bool {
    match r {
        Ok(v) => s is Ok && v@ == s->Ok_0,
        Err(e) => s is Err && e.spec_kind() == s->Err_0,
    }
}

/// Parses the arguments of a `settings` line.
fn parse_settings(rest: Vec<String>) -> (r: Result<Message, ParseError>)
    ensures
        result_matches(r, spec_parse_settings(rest.deep_view())),
{
    proof {
        lemma_tokens_deep_view(&rest);
    }
    if rest.len() == 0 {
        return Err(
            ParseError::with_description(ErrorKind::MalformedCommand, "Got setting without type"),
        );
    }
    let key = &rest[0];
    if str_eq(key.as_str(), "timebank") {
        match parts_to_u64(&rest, 1, "timebank") {
            Ok(v) => Ok(Message::Settings(SettingsValue::Timebank(v))),
            Err(e) => Err(e),
        }
    } else if str_eq(key.as_str(), "time_per_move") {
        match parts_to_u64(&rest, 1, "time_per_move") {
            Ok(v) => Ok(Message::Settings(SettingsValue::TimePerMove(v))),
            Err(e) => Err(e),
        }
    } else if str_eq(key.as_str(), "max_rounds") {
        match parts_to_u64(&rest, 1, "max_rounds") {
            Ok(v) => Ok(Message::Settings(SettingsValue::MaxRounds(v))),
            Err(e) => Err(e),
        }
    } else if str_eq(key.as_str(), "starting_pick_amount") {
        match parts_to_u64(&rest, 1, "starting_pick_amount") {
            Ok(v) => Ok(Message::Settings(SettingsValue::StartingPickAmount(v))),
            Err(e) => Err(e),
        }
    } else if str_eq(key.as_str(), "starting_armies") {
        match parts_to_u64(&rest, 1, "starting_armies") {
            Ok(v) => Ok(Message::Settings(SettingsValue::StartingArmies(v))),
            Err(e) => Err(e),
        }
    } else if str_eq(key.as_str(), "starting_regions") {
        proof {
            assert(rest.deep_view().subrange(1, rest.deep_view().len() as int)
                =~~= rest.deep_view().drop_first());
        }
        match parts_to_u64_vector(&rest, 1) {
            Ok(v) => Ok(Message::Settings(SettingsValue::StartingRegions(v))),
            Err(e) => Err(e),
        }
    } else if str_eq(key.as_str(), "your_bot") {
        if rest.len() < 2 {
            return Err(
                ParseError::with_description(
                    ErrorKind::MalformedCommand,
                    "Got your_bot without an argument",
                ),
            );
        }
        Ok(Message::Settings(SettingsValue::YourBot(rest[1].clone())))
    } else if str_eq(key.as_str(), "opponent_bot") {
        if rest.len() < 2 {
            return Err(
                ParseError::with_description(
                    ErrorKind::MalformedCommand,
                    "Got opponent_bot without an argument",
                ),
            );
        }
        Ok(Message::Settings(SettingsValue::OpponentBot(rest[1].clone())))
    } else {
        Err(
            ParseError::with_detail(
                ErrorKind::UnknownCommand,
                "got an unknown setting type",
                rest[0].clone(),
            ),
        )
    }
}

/// Parses the arguments of a `pick_starting_region` line.
fn parse_pick_starting_region(rest: Vec<String>) -> (r: Result<Message, ParseError>)
    ensures
        result_matches(r, spec_parse_pick(rest.deep_view())),
{
    proof {
        lemma_tokens_deep_view(&rest);
    }
    if rest.len() == 0 {
        return Err(
            ParseError::with_description(
                ErrorKind::MalformedCommand,
                "Got pick_starting_region without a timebank",
            ),
        );
    }
    let timebank = match parse_u64(rest[0].as_str()) {
        Ok(v) => v,
        Err(e) => {
            return Err(int_error(e));
        },
    };
    proof {
        assert(rest.deep_view().subrange(1, rest.deep_view().len() as int)
            =~~= rest.deep_view().drop_first());
    }
    match parts_to_u64_vector(&rest, 1) {
        Ok(ids) => Ok(Message::PickStartingRegion(timebank, ids)),
        Err(e) => Err(e),
    }
}

/// Parses the arguments of a `go` line.
fn parse_go(rest: Vec<String>) -> (r: Result<Message, ParseError>)
    ensures
        result_matches(r, spec_parse_go(rest.deep_view())),
{
    proof {
        lemma_tokens_deep_view(&rest);
    }
    if rest.len() == 0 {
        return Err(
            ParseError::with_description(ErrorKind::MalformedCommand, "Got go without type"),
        );
    }
    let sub = &rest[0];
    if str_eq(sub.as_str(), "place_armies") {
        match parts_to_u64(&rest, 1, "go place_armies") {
            Ok(v) => Ok(Message::GoPlaceArmies(v)),
            Err(e) => Err(e),
        }
    } else if str_eq(sub.as_str(), "attack/transfer") {
        match parts_to_u64(&rest, 1, "go attack/transfer") {
            Ok(v) => Ok(Message::GoAttackTransfer(v)),
            Err(e) => Err(e),
        }
    } else {
        Err(
            ParseError::with_detail(
                ErrorKind::UnknownCommand,
                "got an unknown go type",
                rest[0].clone(),
            ),
        )
    }
}

/// Whether an executable pair-list conversion agrees with its spec.
pub open spec fn result_pairs_matches(
    r: Result<Vec<(u64, u64)>, ParseError>,
    s: Result<Seq<(u64, u64)>, ErrorKind>,
) -> bool {
    match r {
        Ok(v) => s is Ok && v@ == s->Ok_0,
        Err(e) => s is Err && e.spec_kind() == s->Err_0,
    }
}

/// Groups the tokens from `from` on pairwise into (id, value) pairs.
fn parts_to_pair_vector(toks: &Vec<String>, from: usize) -> (r: Result<
    Vec<(u64, u64)>,
    ParseError,
>)
    requires
        from <= toks@.len(),
    ensures
        result_pairs_matches(
            r,
            spec_pair_vector(toks.deep_view().subrange(from as int, toks.deep_view().len() as int)),
        ),
{
    proof {
        lemma_tokens_deep_view(toks);
    }
    let ghost deep = toks.deep_view();
    let ghost sub = deep.subrange(from as int, deep.len() as int);
    if from >= toks.len() {
        return Err(
            ParseError::with_description(
                ErrorKind::MalformedCommand,
                "Got setup_map subcommand without any arguments",
            ),
        );
    }
    let mut vals: Vec<(u64, u64)> = Vec::new();
    let mut i: usize = from;
    while i < toks.len()
        invariant
            from <= i <= toks@.len(),
            (i - from) % 2 == 0,
            deep == toks.deep_view(),
            sub == deep.subrange(from as int, deep.len() as int),
            deep.len() == toks@.len(),
            forall|j: int| 0 <= j < toks@.len() ==> deep[j] == toks@[j]@,
            forall|j: int| from <= j < i ==> valid_u64_token(#[trigger] deep[j]),
            vals@ == Seq::new(
                (((i - from) as int) / 2) as nat,
                |k: int| (token_u64(deep[from + 2 * k]), token_u64(deep[from + 2 * k + 1])),
            ),
        decreases toks@.len() - i,
    {
        if i + 1 >= toks.len() {
            proof {
                assert(sub.len() % 2 != 0);
            }
            return Err(
                ParseError::with_description(
                    ErrorKind::MalformedCommand,
                    "odd number of arguments to setup_map subcommand expecting an even amount",
                ),
            );
        }
        let a = match parse_u64(toks[i].as_str()) {
            Ok(v) => v,
            Err(e) => {
                proof {
                    assert(!valid_u64_token(sub[i - from]));
                    assert(spec_pair_vector(sub) is Err);
                }
                return Err(int_error(e));
            },
        };
        let b = match parse_u64(toks[i + 1].as_str()) {
            Ok(v) => v,
            Err(e) => {
                proof {
                    assert(!valid_u64_token(sub[i + 1 - from]));
                    assert(spec_pair_vector(sub) is Err);
                }
                return Err(int_error(e));
            },
        };
        vals.push((a, b));
        proof {
            let m = (i - from) as int / 2;
            assert(vals@ =~= Seq::new(
                (m + 1) as nat,
                |k: int| (token_u64(deep[from + 2 * k]), token_u64(deep[from + 2 * k + 1])),
            ));
        }
        i = i + 2;
    }
    proof {
        assert(sub.len() % 2 == 0);
        assert(all_valid_u64(sub));
        assert(vals@ =~= Seq::new(
            sub.len() / 2,
            |k: int| (token_u64(sub[2 * k]), token_u64(sub[2 * k + 1])),
        ));
    }
    Ok(vals)
}

/// Converts one comma-joined token to its integer list.
fn comma_values(t: &str) -> (r: Result<Vec<u64>, ParseError>)
    ensures
        r matches Ok(v) ==> valid_comma_list(t@) && v@ == comma_list(t@),
        r matches Err(e) ==> !valid_comma_list(t@) && e.spec_kind() == ErrorKind::MalformedCommand,
{
    let parts = split_on(t, ',');
    proof {
        lemma_tokens_deep_view(&parts);
    }
    let ghost deep = spec_split_on(t@, ',');
    let mut vals: Vec<u64> = Vec::new();
    let mut i: usize = 0;
    while i < parts.len()
        invariant
            0 <= i <= parts@.len(),
            deep == spec_split_on(t@, ','),
            parts.deep_view() == deep,
            deep.len() == parts@.len(),
            forall|j: int| 0 <= j < parts@.len() ==> deep[j] == parts@[j]@,
            forall|j: int| 0 <= j < i ==> valid_u64_token(#[trigger] deep[j]),
            vals@ == tokens_u64(deep.subrange(0, i as int)),
        decreases parts@.len() - i,
    {
        match parse_u64(parts[i].as_str()) {
            Ok(v) => {
                vals.push(v);
                proof {
                    assert(deep.subrange(0, i + 1).drop_last() =~= deep.subrange(0, i as int));
                    assert(tokens_u64(deep.subrange(0, i + 1)) =~= tokens_u64(
                        deep.subrange(0, i as int),
                    ).push(token_u64(deep[i as int])));
                }
            },
            Err(e) => {
                proof {
                    assert(i < deep.len());
                    assert(!valid_u64_token(deep[i as int]));
                    assert(!all_valid_u64(deep));
                }
                return Err(int_error(e));
            },
        }
        i = i + 1;
    }
    proof {
        assert(deep.subrange(0, i as int) =~~= deep);
        assert(vals@ == tokens_u64(deep));
    }
    Ok(vals)
}

/// Whether an executable neighbor-list conversion agrees with its spec.
pub open spec fn result_neighbors_matches(
    r: Result<Vec<(u64, Vec<u64>)>, ParseError>,
    s: Result<Seq<(u64, Seq<u64>)>, ErrorKind>,
) -> bool {
    match r {
        Ok(v) => s is Ok && v.deep_view() == s->Ok_0,
        Err(e) => s is Err && e.spec_kind() == s->Err_0,
    }
}

/// Groups the tokens from `from` on pairwise into (id, neighbor list)
/// pairs, splitting each second token on commas.
fn parts_to_neighbors_vector(toks: &Vec<String>, from: usize) -> (r: Result<
    Vec<(u64, Vec<u64>)>,
    ParseError,
>)
    requires
        from <= toks@.len(),
    ensures
        result_neighbors_matches(
            r,
            spec_neighbors_vector(
                toks.deep_view().subrange(from as int, toks.deep_view().len() as int),
            ),
        ),
{
    proof {
        lemma_tokens_deep_view(toks);
    }
    let ghost deep = toks.deep_view();
    let ghost sub = deep.subrange(from as int, deep.len() as int);
    if from >= toks.len() {
        return Err(
            ParseError::with_description(
                ErrorKind::MalformedCommand,
                "Got setup_map neighbors without any arguments",
            ),
        );
    }
    let mut vals: Vec<(u64, Vec<u64>)> = Vec::new();
    let mut i: usize = from;
    while i < toks.len()
        invariant
            from <= i <= toks@.len(),
            (i - from) % 2 == 0,
            deep == toks.deep_view(),
            sub == deep.subrange(from as int, deep.len() as int),
            deep.len() == toks@.len(),
            forall|j: int| 0 <= j < toks@.len() ==> #[trigger] deep[j] == toks@[j]@,
            forall|k: int|
                0 <= k < (i - from) as int / 2 ==> valid_u64_token(#[trigger] deep[from + 2 * k])
                    && valid_comma_list(deep[from + 2 * k + 1]),
            vals@.len() == (i - from) as int / 2,
            forall|k: int|
                0 <= k < vals@.len() ==> (#[trigger] vals@[k]).0 == token_u64(deep[from + 2 * k])
                    && vals@[k].1@ == comma_list(deep[from + 2 * k + 1]),
        decreases toks@.len() - i,
    {
        if i + 1 >= toks.len() {
            proof {
                assert(sub.len() % 2 != 0);
            }
            return Err(
                ParseError::with_description(
                    ErrorKind::MalformedCommand,
                    "Got setup_map neighbors with an odd number of args, expecting and even amount",
                ),
            );
        }
        let a = match parse_u64(toks[i].as_str()) {
            Ok(v) => v,
            Err(e) => {
                proof {
                    let m = (i - from) as int / 2;
                    assert(deep[i as int] == toks@[i as int]@);
                    assert(2 * m == i - from);
                    assert(sub[2 * m] == deep[i as int]);
                    assert(!valid_u64_token(sub[2 * m]));
                    assert(spec_neighbors_vector(sub) is Err);
                }
                return Err(int_error(e));
            },
        };
        let list = match comma_values(toks[i + 1].as_str()) {
            Ok(v) => v,
            Err(e) => {
                proof {
                    let m = (i - from) as int / 2;
                    assert(deep[i + 1] == toks@[i + 1]@);
                    assert(2 * m == i - from);
                    assert(sub[2 * m] == deep[i as int]);
                    assert(sub[2 * m + 1] == deep[i + 1]);
                    assert(!valid_comma_list(sub[2 * m + 1]));
                    assert(spec_neighbors_vector(sub) is Err);
                }
                return Err(e);
            },
        };
        let ghost prevv = vals@;
        vals.push((a, list));
        proof {
            let m = (i - from) as int / 2;
            assert(deep[i as int] == toks@[i as int]@);
            assert(deep[i + 1] == toks@[i + 1]@);
            assert(from + 2 * m == i as int);
            assert(valid_u64_token(deep[from + 2 * m]));
            assert(valid_comma_list(deep[from + 2 * m + 1]));
            assert(vals@ == prevv.push((a, list)));
            assert forall|k: int| 0 <= k < vals@.len() implies (#[trigger] vals@[k]).0
                == token_u64(deep[from + 2 * k]) && vals@[k].1@ == comma_list(
                deep[from + 2 * k + 1],
            ) by {
                if k < m {
                    assert(vals@[k] == prevv[k]);
                } else {
                    assert(vals@[k] == (a, list));
                }
            }
        }
        i = i + 2;
    }
    proof {
        assert(sub.len() % 2 == 0);
        assert forall|k: int|
            0 <= k < sub.len() / 2 implies valid_u64_token(#[trigger] sub[2 * k])
            && valid_comma_list(sub[2 * k + 1]) by {
            assert(sub[2 * k] == deep[from + 2 * k]);
            assert(sub[2 * k + 1] == deep[from + 2 * k + 1]);
            assert(valid_u64_token(deep[from + 2 * k]));
            assert(valid_comma_list(deep[from + 2 * k + 1]));
        }
        let n2 = sub.len() / 2;
        let f = |k: int| (token_u64(sub[2 * k]), comma_list(sub[2 * k + 1]));
        assert forall|k: int| 0 <= k < n2 implies vals.deep_view()[k] == f(k) by {
            assert(vals.deep_view()[k] == vals@[k].deep_view());
            assert(sub[2 * k] == deep[from + 2 * k]);
            assert(sub[2 * k + 1] == deep[from + 2 * k + 1]);
            assert((vals@[k]).0 == token_u64(deep[from + 2 * k]));
            assert(vals@[k].1@ == comma_list(deep[from + 2 * k + 1]));
        }
        assert(vals.deep_view().len() == n2);
        assert(vals.deep_view() =~= Seq::new(n2, f));
    }
    Ok(vals)
}

/// Parses the arguments of a `setup_map` line.
fn parse_setup_map(rest: Vec<String>) -> (r: Result<Message, ParseError>)
    ensures
        result_matches(r, spec_parse_setup_map(rest.deep_view())),
{
    proof {
        lemma_tokens_deep_view(&rest);
    }
    if rest.len() == 0 {
        return Err(
            ParseError::with_description(ErrorKind::MalformedCommand, "Got setup_map without type"),
        );
    }
    proof {
        assert(rest.deep_view().subrange(1, rest.deep_view().len() as int)
            =~~= rest.deep_view().drop_first());
    }
    let sub = &rest[0];
    if str_eq(sub.as_str(), "super_regions") {
        match parts_to_pair_vector(&rest, 1) {
            Ok(v) => Ok(Message::SetupMap(SetupMapValue::SuperRegions(v))),
            Err(e) => Err(e),
        }
    } else if str_eq(sub.as_str(), "regions") {
        match parts_to_pair_vector(&rest, 1) {
            Ok(v) => Ok(Message::SetupMap(SetupMapValue::Regions(v))),
            Err(e) => Err(e),
        }
    } else if str_eq(sub.as_str(), "neighbors") {
        match parts_to_neighbors_vector(&rest, 1) {
            Ok(v) => Ok(Message::SetupMap(SetupMapValue::Neighbors(v))),
            Err(e) => Err(e),
        }
    } else if str_eq(sub.as_str(), "wastelands") {
        match parts_to_u64_vector(&rest, 1) {
            Ok(v) => Ok(Message::SetupMap(SetupMapValue::Wastelands(v))),
            Err(e) => Err(e),
        }
    } else if str_eq(sub.as_str(), "opponent_starting_regions") {
        match parts_to_u64_vector(&rest, 1) {
            Ok(v) => Ok(Message::SetupMap(SetupMapValue::OpponentStartingRegions(v))),
            Err(e) => Err(e),
        }
    } else {
        Err(
            ParseError::with_detail(
                ErrorKind::UnknownCommand,
                "got an unknown setup_map type",
                rest[0].clone(),
            ),
        )
    }
}


/// Parses the arguments of an `update_map` line.
#[verifier::rlimit(50)]
fn parse_update_map(rest: Vec<String>) -> (r: Result<Message, ParseError>)
    ensures
        result_matches(r, spec_parse_update_map(rest.deep_view())),
{
    proof {
        lemma_tokens_deep_view(&rest);
    }
    let ghost deep = rest.deep_view();
    if rest.len() == 0 {
        return Err(
            ParseError::with_description(
                ErrorKind::MalformedCommand,
                "Got update_map without any arguments",
            ),
        );
    }
    let mut vals: Vec<(u64, String, u64)> = Vec::new();
    let mut i: usize = 0;
    while i < rest.len()
        invariant
            0 <= i <= rest@.len(),
            i % 3 == 0,
            deep == rest.deep_view(),
            deep.len() == rest@.len(),
            forall|j: int| 0 <= j < rest@.len() ==> #[trigger] deep[j] == rest@[j]@,
            forall|k: int|
                0 <= k < i as int / 3 ==> valid_u64_token(#[trigger] deep[3 * k])
                    && valid_u64_token(deep[3 * k + 2]),
            vals@.len() == i as int / 3,
            forall|k: int|
                0 <= k < vals@.len() ==> (#[trigger] vals@[k]).0 == token_u64(deep[3 * k])
                    && vals@[k].1@ == deep[3 * k + 1] && vals@[k].2 == token_u64(deep[3 * k + 2]),
        decreases rest@.len() - i,
    {
        if i + 2 >= rest.len() {
            proof {
                assert(deep.len() % 3 != 0);
            }
            return Err(
                ParseError::with_description(
                    ErrorKind::MalformedCommand,
                    "Got update_map without all three parts",
                ),
            );
        }
        let id = match parse_u64(rest[i].as_str()) {
            Ok(v) => v,
            Err(e) => {
                proof {
                    let m = i as int / 3;
                    assert(deep[i as int] == rest@[i as int]@);
                    assert(3 * m == i as int);
                    assert(!valid_u64_token(deep[3 * m]));
                    assert(spec_parse_update_map(deep) is Err);
                }
                return Err(int_error(e));
            },
        };
        let name = rest[i + 1].clone();
        let armies = match parse_u64(rest[i + 2].as_str()) {
            Ok(v) => v,
            Err(e) => {
                proof {
                    let m = i as int / 3;
                    assert(deep[i + 2] == rest@[i + 2]@);
                    assert(3 * m == i as int);
                    assert(deep[3 * m] == rest@[i as int]@);
                    assert(3 * m + 2 == i + 2);
                    assert(!valid_u64_token(deep[3 * m + 2]));
                    assert(spec_parse_update_map(deep) is Err);
                }
                return Err(int_error(e));
            },
        };
        let ghost prevv = vals@;
        let ghost namev = name@;
        vals.push((id, name, armies));
        proof {
            let m = i as int / 3;
            assert(deep[i as int] == rest@[i as int]@);
            assert(deep[i + 1] == rest@[i + 1]@);
            assert(deep[i + 2] == rest@[i + 2]@);
            assert(3 * m == i as int);
            assert(valid_u64_token(deep[3 * m]));
            assert(valid_u64_token(deep[3 * m + 2]));
            assert(vals@ == prevv.push((id, name, armies)));
            assert(namev == deep[i + 1]);
            assert forall|k: int| 0 <= k < vals@.len() implies (#[trigger] vals@[k]).0
                == token_u64(deep[3 * k]) && vals@[k].1@ == deep[3 * k + 1] && vals@[k].2
                == token_u64(deep[3 * k + 2]) by {
                if k < m {
                    assert(vals@[k] == prevv[k]);
                } else {
                    assert(vals@[k] == (id, name, armies));
                }
            }
            assert forall|k: int| 0 <= k < (i + 3) as int / 3 implies valid_u64_token(
                #[trigger] deep[3 * k],
            ) && valid_u64_token(deep[3 * k + 2]) by {
                if k < m {
                    assert(valid_u64_token(deep[3 * k]));
                }
            }
        }
        i = i + 3;
    }
    proof {
        assert(deep.len() % 3 == 0);
        let n3 = deep.len() / 3;
        let f = |k: int| (token_u64(deep[3 * k]), deep[3 * k + 1], token_u64(deep[3 * k + 2]));
        assert forall|k: int| 0 <= k < n3 implies vals.deep_view()[k] == f(k) by {
            assert(vals.deep_view()[k] == vals@[k].deep_view());
            assert((vals@[k]).0 == token_u64(deep[3 * k]));
            assert(vals@[k].1@ == deep[3 * k + 1]);
            assert(vals@[k].2 == token_u64(deep[3 * k + 2]));
        }
        assert(vals.deep_view().len() == n3);
        assert(vals.deep_view() =~= Seq::new(n3, f));
    }
    Ok(Message::UpdateMap(vals))
}

/// Parses the arguments of an `opponent_moves` line.
fn parse_opponent_moves(rest: Vec<String>) -> (r: Result<Message, ParseError>)
    ensures
        result_matches(r, spec_opponent_moves_msg(rest.deep_view())),
{
    proof {
        lemma_tokens_deep_view(&rest);
    }
    let ghost deep = rest.deep_view();
    let mut moves: Vec<OpponentMoveValue> = Vec::new();
    let mut i: usize = 0;
    proof {
        assert(deep.skip(0) =~~= deep);
    }
    loop
        invariant_except_break
            0 <= i <= rest@.len(),
            deep == rest.deep_view(),
            deep.len() == rest@.len(),
            forall|j: int| 0 <= j < rest@.len() ==> deep[j] == rest@[j]@,
            spec_parse_opponent_moves(deep) == (match spec_parse_opponent_moves(
                deep.skip(i as int),
            ) {
                Ok(ms) => Ok::<Seq<SpecOpponentMove>, ErrorKind>(
                    moves@.map_values(|m: OpponentMoveValue| m@) + ms,
                ),
                Err(k) => Err::<Seq<SpecOpponentMove>, ErrorKind>(k),
            }),
        ensures
            spec_parse_opponent_moves(deep) == Ok::<Seq<SpecOpponentMove>, ErrorKind>(
                moves@.map_values(|m: OpponentMoveValue| m@),
            ),
        decreases rest@.len() - i,
    {
        let ghost suffix = deep.skip(i as int);
        if i >= rest.len() {
            proof {
                assert(suffix =~~= Seq::<Seq<char>>::empty());
                assert(moves@.map_values(|m: OpponentMoveValue| m@) + Seq::<
                    SpecOpponentMove,
                >::empty() =~= moves@.map_values(|m: OpponentMoveValue| m@));
            }
            break ;
        }
        if i + 1 >= rest.len() {
            proof {
                assert(suffix.len() == 1);
            }
            return Err(
                ParseError::with_description(
                    ErrorKind::MalformedCommand,
                    "opponent_moves missing type",
                ),
            );
        }
        let verb = &rest[i + 1];
        if str_eq(verb.as_str(), "attack/transfer") {
            if i + 2 >= rest.len() {
                proof {
                    assert(suffix.len() < 5);
                }
                return Err(
                    ParseError::with_description(
                        ErrorKind::MalformedCommand,
                        "opponent_moves source",
                    ),
                );
            }
            if i + 3 >= rest.len() {
                proof {
                    assert(suffix.len() < 5);
                }
                return Err(
                    ParseError::with_description(
                        ErrorKind::MalformedCommand,
                        "opponent_moves target",
                    ),
                );
            }
            if i + 4 >= rest.len() {
                proof {
                    assert(suffix.len() < 5);
                }
                return Err(
                    ParseError::with_description(
                        ErrorKind::MalformedCommand,
                        "opponent_moves armies",
                    ),
                );
            }
            let source = match parse_u64(rest[i + 2].as_str()) {
                Ok(v) => v,
                Err(e) => {
                    proof {
                        assert(!valid_u64_token(suffix[2]));
                    }
                    return Err(int_error(e));
                },
            };
            let target = match parse_u64(rest[i + 3].as_str()) {
                Ok(v) => v,
                Err(e) => {
                    proof {
                        assert(!valid_u64_token(suffix[3]));
                    }
                    return Err(int_error(e));
                },
            };
            let armies = match parse_u64(rest[i + 4].as_str()) {
                Ok(v) => v,
                Err(e) => {
                    proof {
                        assert(!valid_u64_token(suffix[4]));
                    }
                    return Err(int_error(e));
                },
            };
            let ghost prevmv = moves@.map_values(|m: OpponentMoveValue| m@);
            moves.push(OpponentMoveValue::AttackTransfer(rest[i].clone(), source, target, armies));
            proof {
                assert(suffix[0] == deep[i as int]);
                assert(suffix[1] == deep[i + 1]);
                assert(suffix[2] == deep[i + 2]);
                assert(suffix[3] == deep[i + 3]);
                assert(suffix[4] == deep[i + 4]);
                assert(suffix.skip(5) =~~= deep.skip(i + 5));
                let mv = SpecOpponentMove::AttackTransfer(
                    suffix[0],
                    token_u64(suffix[2]),
                    token_u64(suffix[3]),
                    token_u64(suffix[4]),
                );
                assert(moves@.map_values(|m: OpponentMoveValue| m@) =~= prevmv.push(mv));
                let nxt = spec_parse_opponent_moves(deep.skip(i + 5));
                assert(spec_parse_opponent_moves(suffix) == (match nxt {
                    Ok(ms) => Ok::<Seq<SpecOpponentMove>, ErrorKind>(seq![mv] + ms),
                    Err(k) => Err::<Seq<SpecOpponentMove>, ErrorKind>(k),
                }));
                if nxt is Ok {
                    assert(prevmv + (seq![mv] + nxt->Ok_0) =~= prevmv.push(mv) + nxt->Ok_0);
                }
            }
            i = i + 5;
        } else if str_eq(verb.as_str(), "place_armies") {
            if i + 2 >= rest.len() {
                proof {
                    assert(suffix.len() < 4);
                }
                return Err(
                    ParseError::with_description(
                        ErrorKind::MalformedCommand,
                        "opponent_moves target",
                    ),
                );
            }
            if i + 3 >= rest.len() {
                proof {
                    assert(suffix.len() < 4);
                }
                return Err(
                    ParseError::with_description(
                        ErrorKind::MalformedCommand,
                        "opponent_moves armies",
                    ),
                );
            }
            let target = match parse_u64(rest[i + 2].as_str()) {
                Ok(v) => v,
                Err(e) => {
                    proof {
                        assert(!valid_u64_token(suffix[2]));
                    }
                    return Err(int_error(e));
                },
            };
            let armies = match parse_u64(rest[i + 3].as_str()) {
                Ok(v) => v,
                Err(e) => {
                    proof {
                        assert(!valid_u64_token(suffix[3]));
                    }
                    return Err(int_error(e));
                },
            };
            let ghost prevmv = moves@.map_values(|m: OpponentMoveValue| m@);
            moves.push(OpponentMoveValue::PlaceArmies(rest[i].clone(), target, armies));
            proof {
                assert(suffix[0] == deep[i as int]);
                assert(suffix[1] == deep[i + 1]);
                assert(suffix[2] == deep[i + 2]);
                assert(suffix[3] == deep[i + 3]);
                assert(suffix.skip(4) =~~= deep.skip(i + 4));
                let mv = SpecOpponentMove::PlaceArmies(
                    suffix[0],
                    token_u64(suffix[2]),
                    token_u64(suffix[3]),
                );
                assert(moves@.map_values(|m: OpponentMoveValue| m@) =~= prevmv.push(mv));
                let nxt = spec_parse_opponent_moves(deep.skip(i + 4));
                assert(spec_parse_opponent_moves(suffix) == (match nxt {
                    Ok(ms) => Ok::<Seq<SpecOpponentMove>, ErrorKind>(seq![mv] + ms),
                    Err(k) => Err::<Seq<SpecOpponentMove>, ErrorKind>(k),
                }));
                if nxt is Ok {
                    assert(prevmv + (seq![mv] + nxt->Ok_0) =~= prevmv.push(mv) + nxt->Ok_0);
                }
            }
            i = i + 4;
        } else {
            return Err(
                ParseError::with_description(
                    ErrorKind::MalformedCommand,
                    "opponent_moves unknown type",
                ),
            );
        }
    }
    Ok(Message::OpponentMoves(moves))
}

/// Parses one protocol line into a message, or reports how it fails to
/// parse.  The result is proved to agree with [`spec_parse`] on every line:
/// the same outcome, the same message on success, and the same error kind on
/// failure.
pub fn parse(line: String) -> (r: Result<Message, ParseError>)
    ensures
        result_matches(r, spec_parse(line@)),
{
    let mut toks = tokenize(line.as_str());
    proof {
        lemma_tokens_deep_view(&toks);
    }
    let ghost spec_toks = spec_tokenize(line@);
    let is_setup_map = str_eq(toks[0].as_str(), "setup_map");
    let is_settings = str_eq(toks[0].as_str(), "settings");
    let is_update_map = str_eq(toks[0].as_str(), "update_map");
    let is_opponent_moves = str_eq(toks[0].as_str(), "opponent_moves");
    let is_pick = str_eq(toks[0].as_str(), "pick_starting_region");
    let is_go = str_eq(toks[0].as_str(), "go");
    let rest = toks.split_off(1);
    proof {
        assert(rest.deep_view() =~~= spec_toks.drop_first());
    }
    if is_setup_map {
        parse_setup_map(rest)
    } else if is_settings {
        parse_settings(rest)
    } else if is_update_map {
        parse_update_map(rest)
    } else if is_opponent_moves {
        parse_opponent_moves(rest)
    } else if is_pick {
        parse_pick_starting_region(rest)
    } else if is_go {
        parse_go(rest)
    } else {
        Err(ParseError::with_detail(ErrorKind::UnknownCommand, "Got an unknown command", line))
    }
}


/// The settings value a known scalar key wraps its numeric value in.
pub open spec fn scalar_setting(key: Seq<char>, v: u64) -> SpecSettings {
    if key == "timebank"@ {
        SpecSettings::Timebank(v)
    } else if key == "time_per_move"@ {
        SpecSettings::TimePerMove(v)
    } else if key == "max_rounds"@ {
        SpecSettings::MaxRounds(v)
    } else if key == "starting_pick_amount"@ {
        SpecSettings::StartingPickAmount(v)
    } else {
        SpecSettings::StartingArmies(v)
    }
}

/// Law: for every known scalar settings key, the line
/// `settings <key> <value>` parses to a `Settings` message carrying exactly
/// the value token's numeric value.
pub proof fn lemma_scalar_setting_parses(key: Seq<char>, value: Seq<char>)
    requires
        key == "timebank"@ || key == "time_per_move"@ || key == "max_rounds"@ || key
            == "starting_pick_amount"@ || key == "starting_armies"@,
        valid_u64_token(value),
    ensures
        spec_parse("settings"@ + " "@ + key + " "@ + value) == Ok::<SpecMessage, ErrorKind>(
            SpecMessage::Settings(scalar_setting(key, token_u64(value))),
        ),
{
    reveal_strlit("settings");
    reveal_strlit("setup_map");
    reveal_strlit("timebank");
    reveal_strlit("time_per_move");
    reveal_strlit("max_rounds");
    reveal_strlit("starting_pick_amount");
    reveal_strlit("starting_armies");
    reveal_strlit(" ");
    let a = "settings"@;
    assert forall|i: int| 0 <= i < value.len() implies #[trigger] value[i] != ' ' by {
        assert(crate::numbers::is_digit(value[i]));
        if value[i] == ' ' {
            assert(value[i] as u32 == 32);
        }
    }
    assert(!crate::tokens::is_space_char(value.last())) by {
        assert(crate::numbers::is_digit(value.last()));
        if crate::tokens::is_space_char(value.last()) {
            let c = value.last();
            assert(c == ' ' || c == '\t' || c == '\n' || c == '\r' || c as u32 == 11 || c as u32
                == 12);
        }
    }
    assert(!crate::tokens::is_space_char(a[0]));
    assert(forall|i: int| 0 <= i < a.len() ==> #[trigger] a[i] != ' ');
    assert(forall|i: int| 0 <= i < key.len() ==> #[trigger] key[i] != ' ');
    crate::tokens::lemma_tokenize_three(a, key, value);
    let line = a + " "@ + key + " "@ + value;
    let toks = spec_tokenize(line);
    assert(toks =~~= seq![a, key, value]);
    assert(toks[0] == "settings"@);
    assert(toks.drop_first() =~= seq![key, value]);
    assert(spec_parse_settings(seq![key, value]) == Ok::<SpecMessage, ErrorKind>(
        SpecMessage::Settings(scalar_setting(key, token_u64(value))),
    ));
}

/// Law: a token that is not a base-10 unsigned 64-bit numeral, standing in
/// any numeric field of the grammar, makes the command malformed.  Every
/// numeric field goes through one of these forms: a scalar argument, a flat
/// integer list, a pairwise-grouped stream, a neighbor stream's id
/// positions, or an `update_map` triple's id and army positions.
pub proof fn lemma_numeric_field_malformed(toks: Seq<Seq<char>>, i: int)
    requires
        0 <= i < toks.len(),
        !valid_u64_token(toks[i]),
    ensures
        spec_token_u64(toks, i) == Err::<u64, ErrorKind>(ErrorKind::MalformedCommand),
        spec_u64_vector(toks) == Err::<Seq<u64>, ErrorKind>(ErrorKind::MalformedCommand),
        spec_pair_vector(toks) == Err::<Seq<(u64, u64)>, ErrorKind>(ErrorKind::MalformedCommand),
        i % 2 == 0 ==> spec_neighbors_vector(toks) == Err::<Seq<(u64, Seq<u64>)>, ErrorKind>(
            ErrorKind::MalformedCommand,
        ),
        i % 3 != 1 ==> spec_parse_update_map(toks) == Err::<SpecMessage, ErrorKind>(
            ErrorKind::MalformedCommand,
        ),
{
    assert(!all_valid_u64(toks));
    if toks.len() % 2 == 0 && i % 2 == 0 {
        let k = i / 2;
        assert(2 * k == i);
        assert(!valid_u64_token(toks[2 * k]));
        assert(spec_neighbors_vector(toks) is Err);
    }
    if toks.len() % 3 == 0 && i % 3 != 1 {
        let k = i / 3;
        if i % 3 == 0 {
            assert(3 * k == i);
            assert(!valid_u64_token(toks[3 * k]));
        } else {
            assert(i % 3 == 2);
            assert(3 * k + 2 == i);
            let id_token = toks[3 * k];
            assert(!valid_u64_token(toks[3 * k + 2]));
        }
        assert(spec_parse_update_map(toks) is Err);
    }
}

/// Law: an unrecognized top-level command token parses to an
/// unknown-command error, whatever follows it.
pub proof fn lemma_unknown_command(line: Seq<char>)
    requires
        spec_tokenize(line)[0] != "setup_map"@,
        spec_tokenize(line)[0] != "settings"@,
        spec_tokenize(line)[0] != "update_map"@,
        spec_tokenize(line)[0] != "opponent_moves"@,
        spec_tokenize(line)[0] != "pick_starting_region"@,
        spec_tokenize(line)[0] != "go"@,
    ensures
        spec_parse(line) == Err::<SpecMessage, ErrorKind>(ErrorKind::UnknownCommand),
{
}

/// Law: a recognized command with an unrecognized subcommand token parses
/// to an unknown-command error: an unknown `settings` key, an unknown
/// `setup_map` type, or an unknown `go` round type.
#[verifier::rlimit(50)]
pub proof fn lemma_unknown_subcommand(line: Seq<char>)
    requires
        spec_tokenize(line).len() >= 2,
        spec_tokenize(line)[0] == "settings"@ || spec_tokenize(line)[0] == "setup_map"@
            || spec_tokenize(line)[0] == "go"@,
        spec_tokenize(line)[1] != "timebank"@,
        spec_tokenize(line)[1] != "time_per_move"@,
        spec_tokenize(line)[1] != "max_rounds"@,
        spec_tokenize(line)[1] != "starting_pick_amount"@,
        spec_tokenize(line)[1] != "starting_armies"@,
        spec_tokenize(line)[1] != "starting_regions"@,
        spec_tokenize(line)[1] != "your_bot"@,
        spec_tokenize(line)[1] != "opponent_bot"@,
        spec_tokenize(line)[1] != "super_regions"@,
        spec_tokenize(line)[1] != "regions"@,
        spec_tokenize(line)[1] != "neighbors"@,
        spec_tokenize(line)[1] != "wastelands"@,
        spec_tokenize(line)[1] != "opponent_starting_regions"@,
        spec_tokenize(line)[1] != "place_armies"@,
        spec_tokenize(line)[1] != "attack/transfer"@,
    ensures
        spec_parse(line) == Err::<SpecMessage, ErrorKind>(ErrorKind::UnknownCommand),
{
    reveal_strlit("setup_map");
    reveal_strlit("settings");
    reveal_strlit("update_map");
    reveal_strlit("opponent_moves");
    reveal_strlit("pick_starting_region");
    reveal_strlit("go");
    let toks = spec_tokenize(line);
    let rest = toks.drop_first();
    assert(rest[0] == toks[1]);
    assert(rest.len() >= 1);
    if toks[0] == "settings"@ {
        assert(spec_parse(line) == spec_parse_settings(rest));
        assert(spec_parse_settings(rest) == Err::<SpecMessage, ErrorKind>(
            ErrorKind::UnknownCommand,
        ));
    } else if toks[0] == "setup_map"@ {
        assert(spec_parse(line) == spec_parse_setup_map(rest));
        assert(spec_parse_setup_map(rest) == Err::<SpecMessage, ErrorKind>(
            ErrorKind::UnknownCommand,
        ));
    } else {
        assert(toks[0] == "go"@);
        assert("go"@.len() == 2);
        assert("setup_map"@.len() == 9);
        assert("settings"@.len() == 8);
        assert("update_map"@.len() == 10);
        assert("opponent_moves"@.len() == 14);
        assert("pick_starting_region"@.len() == 20);
        assert(toks[0] != "setup_map"@);
        assert(toks[0] != "settings"@);
        assert(toks[0] != "update_map"@);
        assert(toks[0] != "opponent_moves"@);
        assert(toks[0] != "pick_starting_region"@);
        assert(spec_parse(line) == spec_parse_go(rest));
        assert(spec_parse_go(rest) == Err::<SpecMessage, ErrorKind>(ErrorKind::UnknownCommand));
    }
}

} // verus!
