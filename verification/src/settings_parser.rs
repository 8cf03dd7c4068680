//! A reduced, early revision of the line parser that handles `settings`
//! lines (and recognises `update_map` without arguments) with plain string
//! errors instead of the typed taxonomy.  It splits on single spaces without
//! trimming.
//!
//! The executable parser is proved to agree with [`spec_parse_simple`] on
//! every input, down to the exact error text.

use vstd::prelude::*;
use vstd::string::StringExecFns;
use crate::numbers::{parse_u64, token_u64, valid_u64_token, IntError};
use crate::parser::{tokens_u64, SpecSettings};
use crate::tokens::{spec_split, split_on, str_eq};

verus! {

/// A parsed command of the reduced grammar.
#[derive(Debug)]
pub enum Message {
    Settings(SettingsValue),
    SetupMap { name: &'static str, value: Vec<u64> },
    PickStartingRegion { time_left: u64, ids: Vec<u64> },
    UpdateMap,
    GoPlaceArmies,
    GoAttackTranser,
}

/// One configuration value delivered by a `settings` line.
#[derive(Debug)]
pub enum SettingsValue {
    Timebank(u64),
    TimePerMove(u64),
    MaxRounds(u64),
    YourBot(String),
    OpponentBot(String),
    StartingRegions(Vec<u64>),
    StartingPickAmount(u64),
    StartingArmies(u64),
}

/// The mathematical value of a [`Message`].
pub enum SpecSimpleMessage {
    Settings(SpecSettings),
    SetupMap { name: Seq<char>, value: Seq<u64> },
    PickStartingRegion { time_left: u64, ids: Seq<u64> },
    UpdateMap,
    GoPlaceArmies,
    GoAttackTranser,
}

impl View for SettingsValue {
    type V = SpecSettings;

    open spec fn view(&self) -> SpecSettings {
        match self {
            SettingsValue::Timebank(v) => SpecSettings::Timebank(*v),
            SettingsValue::TimePerMove(v) => SpecSettings::TimePerMove(*v),
            SettingsValue::MaxRounds(v) => SpecSettings::MaxRounds(*v),
            SettingsValue::YourBot(s) => SpecSettings::YourBot(s@),
            SettingsValue::OpponentBot(s) => SpecSettings::OpponentBot(s@),
            SettingsValue::StartingRegions(v) => SpecSettings::StartingRegions(v@),
            SettingsValue::StartingPickAmount(v) => SpecSettings::StartingPickAmount(*v),
            SettingsValue::StartingArmies(v) => SpecSettings::StartingArmies(*v),
        }
    }
}

impl View for Message {
    type V = SpecSimpleMessage;

    open spec fn view(&self) -> SpecSimpleMessage {
        match self {
            Message::Settings(v) => SpecSimpleMessage::Settings(v@),
            Message::SetupMap { name, value } => SpecSimpleMessage::SetupMap {
                name: name@,
                value: value@,
            },
            Message::PickStartingRegion { time_left, ids } => SpecSimpleMessage::PickStartingRegion {
                time_left: *time_left,
                ids: ids@,
            },
            Message::UpdateMap => SpecSimpleMessage::UpdateMap,
            Message::GoPlaceArmies => SpecSimpleMessage::GoPlaceArmies,
            Message::GoAttackTranser => SpecSimpleMessage::GoAttackTranser,
        }
    }
}

/// The text of a numeric conversion failure.
pub open spec fn spec_int_error_text(e: IntError) -> Seq<char> {
    match e {
        IntError::Empty => "cannot parse integer from empty string"@,
        IntError::InvalidDigit => "invalid digit found in string"@,
        IntError::Overflow => "number too large to fit in target type"@,
    }
}

/// What a scalar `settings` key parses to, given the key's missing-value
/// message and a constructor for its value.
pub open spec fn spec_simple_scalar(
    rest: Seq<Seq<char>>,
    missing: Seq<char>,
) -> Result<u64, Seq<char>> {
    if rest.len() < 2 {
        Err(missing)
    } else if valid_u64_token(rest[1]) {
        Ok(token_u64(rest[1]))
    } else if rest[1].len() == 0 {
        Err(spec_int_error_text(IntError::Empty))
    } else if !crate::numbers::all_digits(rest[1]) {
        Err(spec_int_error_text(IntError::InvalidDigit))
    } else {
        Err(spec_int_error_text(IntError::Overflow))
    }
}

/// The `settings` grammar of the reduced parser, over the tokens after the
/// command token.
pub open spec fn spec_simple_settings(rest: Seq<Seq<char>>) -> Result<
    SpecSimpleMessage,
    Seq<char>,
> {
    if rest.len() == 0 {
        Err("no command given to setting"@)
    } else {
        let key = rest[0];
        if key == "timebank"@ {
            match spec_simple_scalar(rest, "got timebank setting with no value"@) {
                Ok(v) => Ok(SpecSimpleMessage::Settings(SpecSettings::Timebank(v))),
                Err(t) => Err(t),
            }
        } else if key == "time_per_move"@ {
            match spec_simple_scalar(rest, "got time_per_move setting with no value"@) {
                Ok(v) => Ok(SpecSimpleMessage::Settings(SpecSettings::TimePerMove(v))),
                Err(t) => Err(t),
            }
        } else if key == "max_rounds"@ {
            match spec_simple_scalar(rest, "got max_rounds setting with no value"@) {
                Ok(v) => Ok(SpecSimpleMessage::Settings(SpecSettings::MaxRounds(v))),
                Err(t) => Err(t),
            }
        } else if key == "starting_pick_amount"@ {
            match spec_simple_scalar(rest, "got starting_pick_amount setting with no value"@) {
                Ok(v) => Ok(SpecSimpleMessage::Settings(SpecSettings::StartingPickAmount(v))),
                Err(t) => Err(t),
            }
        } else if key == "starting_armies"@ {
            match spec_simple_scalar(rest, "got starting_armies setting with no value"@) {
                Ok(v) => Ok(SpecSimpleMessage::Settings(SpecSettings::StartingArmies(v))),
                Err(t) => Err(t),
            }
        } else if key == "starting_regions"@ {
            if rest.len() < 2 {
                Err("got starting_regions setting with no value"@)
            } else {
                match spec_simple_regions(rest.drop_first()) {
                    Ok(ids) => Ok(
                        SpecSimpleMessage::Settings(SpecSettings::StartingRegions(ids)),
                    ),
                    Err(t) => Err(t),
                }
            }
        } else if key == "your_bot"@ {
            if rest.len() < 2 {
                Err("got your_bot setting with no value"@)
            } else {
                Ok(SpecSimpleMessage::Settings(SpecSettings::YourBot(rest[1])))
            }
        } else if key == "opponent_bot"@ {
            if rest.len() < 2 {
                Err("got opponent_bot setting with no value"@)
            } else {
                Ok(SpecSimpleMessage::Settings(SpecSettings::OpponentBot(rest[1])))
            }
        } else {
            Err("unknown setting "@ + key)
        }
    }
}

/// The `starting_regions` value list: every token converts, or the first
/// failure's text is the error.
pub open spec fn spec_simple_regions(vals: Seq<Seq<char>>) -> Result<Seq<u64>, Seq<char>>
    decreases vals.len(),
{
    if vals.len() == 0 {
        Ok(Seq::empty())
    } else if !valid_u64_token(vals[0]) {
        if vals[0].len() == 0 {
            Err(spec_int_error_text(IntError::Empty))
        } else if !crate::numbers::all_digits(vals[0]) {
            Err(spec_int_error_text(IntError::InvalidDigit))
        } else {
            Err(spec_int_error_text(IntError::Overflow))
        }
    } else {
        match spec_simple_regions(vals.drop_first()) {
            Ok(ids) => Ok(seq![token_u64(vals[0])] + ids),
            Err(t) => Err(t),
        }
    }
}

/// The whole reduced grammar: split on single spaces without trimming, then
/// dispatch on the first token.
pub open spec fn spec_parse_simple(line: Seq<char>) -> Result<SpecSimpleMessage, Seq<char>> {
    let toks = spec_split(line);
    if toks.len() == 0 {
        Err("unknown command"@)
    } else if toks[0] == "settings"@ {
        spec_simple_settings(toks.drop_first())
    } else if toks[0] == "update_map"@ {
        Ok(SpecSimpleMessage::UpdateMap)
    } else {
        Err("unknown command"@)
    }
}

/// Whether an executable parse result agrees with a spec parse result,
/// error text included.
pub open spec fn simple_result_matches(
    r: Result<Message, String>,
    s: Result<SpecSimpleMessage, Seq<char>>,
) -> bool {
    match r {
        Ok(m) => s is Ok && m@ == s->Ok_0,
        Err(t) => s is Err && t@ == s->Err_0,
    }
}

/// The deep view of a token vector indexes to the views of its elements.
proof fn lemma_tokens_deep_view(toks: &Vec<String>)
    ensures
        toks.deep_view().len() == toks@.len(),
        forall|i: int| 0 <= i < toks@.len() ==> toks.deep_view()[i] == toks@[i]@,
{
}

/// The text of a numeric conversion failure, as the conversion reports it.
fn int_error_text(e: IntError) -> (r: String)
    ensures
        r@ == spec_int_error_text(e),
{
    match e {
        IntError::Empty => "cannot parse integer from empty string".to_owned(),
        IntError::InvalidDigit => "invalid digit found in string".to_owned(),
        IntError::Overflow => "number too large to fit in target type".to_owned(),
    }
}

/// Converts the token at position 1 for a scalar key, or reports the key's
/// missing-value message.
fn parts_to_u64(rest: &Vec<String>, missing: &'static str) -> (r: Result<u64, String>)
    ensures
        (match r {
            Ok(v) => spec_simple_scalar(rest.deep_view(), missing@) == Ok::<u64, Seq<char>>(v),
            Err(t) => spec_simple_scalar(rest.deep_view(), missing@) is Err && t@
                == spec_simple_scalar(rest.deep_view(), missing@)->Err_0,
        }),
{
    proof {
        lemma_tokens_deep_view(rest);
    }
    if rest.len() < 2 {
        return Err(missing.to_owned());
    }
    match parse_u64(rest[1].as_str()) {
        Ok(v) => Ok(v),
        Err(e) => Err(int_error_text(e)),
    }
}

/// Parses the arguments of a `settings` line of the reduced grammar.
fn parse_settings(rest: Vec<String>) -> (r: Result<Message, String>)
    ensures
        simple_result_matches(r, spec_simple_settings(rest.deep_view())),
{
    proof {
        lemma_tokens_deep_view(&rest);
    }
    if rest.len() == 0 {
        return Err("no command given to setting".to_owned());
    }
    let key = &rest[0];
    if str_eq(key.as_str(), "timebank") {
        match parts_to_u64(&rest, "got timebank setting with no value") {
            Ok(v) => Ok(Message::Settings(SettingsValue::Timebank(v))),
            Err(t) => Err(t),
        }
    } else if str_eq(key.as_str(), "time_per_move") {
        match parts_to_u64(&rest, "got time_per_move setting with no value") {
            Ok(v) => Ok(Message::Settings(SettingsValue::TimePerMove(v))),
            Err(t) => Err(t),
        }
    } else if str_eq(key.as_str(), "max_rounds") {
        match parts_to_u64(&rest, "got max_rounds setting with no value") {
            Ok(v) => Ok(Message::Settings(SettingsValue::MaxRounds(v))),
            Err(t) => Err(t),
        }
    } else if str_eq(key.as_str(), "starting_pick_amount") {
        match parts_to_u64(&rest, "got starting_pick_amount setting with no value") {
            Ok(v) => Ok(Message::Settings(SettingsValue::StartingPickAmount(v))),
            Err(t) => Err(t),
        }
    } else if str_eq(key.as_str(), "starting_armies") {
        match parts_to_u64(&rest, "got starting_armies setting with no value") {
            Ok(v) => Ok(Message::Settings(SettingsValue::StartingArmies(v))),
            Err(t) => Err(t),
        }
    } else if str_eq(key.as_str(), "starting_regions") {
        if rest.len() < 2 {
            return Err("got starting_regions setting with no value".to_owned());
        }
        parse_starting_regions(&rest)
    } else if str_eq(key.as_str(), "your_bot") {
        if rest.len() < 2 {
            return Err("got your_bot setting with no value".to_owned());
        }
        Ok(Message::Settings(SettingsValue::YourBot(rest[1].clone())))
    } else if str_eq(key.as_str(), "opponent_bot") {
        if rest.len() < 2 {
            return Err("got opponent_bot setting with no value".to_owned());
        }
        Ok(Message::Settings(SettingsValue::OpponentBot(rest[1].clone())))
    } else {
        let mut msg = "unknown setting ".to_owned();
        msg.append(rest[0].as_str());
        Err(msg)
    }
}

/// Converts every `starting_regions` token after the key.
fn parse_starting_regions(rest: &Vec<String>) -> (r: Result<Message, String>)
    requires
        rest@.len() >= 1,
    ensures
        (match r {
            Ok(m) => spec_simple_regions(rest.deep_view().drop_first()) is Ok && m@
                == SpecSimpleMessage::Settings(
                SpecSettings::StartingRegions(
                    spec_simple_regions(rest.deep_view().drop_first())->Ok_0,
                ),
            ),
            Err(t) => spec_simple_regions(rest.deep_view().drop_first()) is Err && t@
                == spec_simple_regions(rest.deep_view().drop_first())->Err_0,
        }),
{
    proof {
        lemma_tokens_deep_view(rest);
    }
    let ghost deep = rest.deep_view();
    let mut vals: Vec<u64> = Vec::new();
    let mut i: usize = 1;
    while i < rest.len()
        invariant
            1 <= i <= rest@.len(),
            deep == rest.deep_view(),
            deep.len() == rest@.len(),
            forall|j: int| 0 <= j < rest@.len() ==> #[trigger] deep[j] == rest@[j]@,
            forall|j: int| 1 <= j < i ==> valid_u64_token(#[trigger] deep[j]),
            vals@ == tokens_u64(deep.subrange(1, i as int)),
        decreases rest@.len() - i,
    {
        match parse_u64(rest[i].as_str()) {
            Ok(v) => {
                vals.push(v);
                proof {
                    assert(deep.subrange(1, i + 1).drop_last() =~= deep.subrange(1, i as int));
                    assert(tokens_u64(deep.subrange(1, i + 1)) =~= tokens_u64(
                        deep.subrange(1, i as int),
                    ).push(token_u64(deep[i as int])));
                }
            },
            Err(e) => {
                proof {
                    lemma_simple_regions_err(deep.drop_first(), i - 1);
                }
                return Err(int_error_text(e));
            },
        }
        i = i + 1;
    }
    proof {
        lemma_simple_regions_ok(deep.drop_first());
        assert(deep.subrange(1, i as int) =~~= deep.drop_first());
    }
    Ok(Message::Settings(SettingsValue::StartingRegions(vals)))
}

/// If every token of `vals` converts, the reduced `starting_regions` parse
/// succeeds with exactly those values.
proof fn lemma_simple_regions_ok(vals: Seq<Seq<char>>)
    requires
        forall|j: int| 0 <= j < vals.len() ==> valid_u64_token(#[trigger] vals[j]),
    ensures
        spec_simple_regions(vals) == Ok::<Seq<u64>, Seq<char>>(tokens_u64(vals)),
    decreases vals.len(),
{
    if vals.len() == 0 {
        assert(tokens_u64(vals) =~= Seq::<u64>::empty());
    } else {
        lemma_simple_regions_ok(vals.drop_first());
        assert(seq![token_u64(vals[0])] + tokens_u64(vals.drop_first()) =~= tokens_u64(vals));
    }
}

/// If the first failing token stands at `b` (everything before it
/// converts), the reduced `starting_regions` parse reports that token's
/// conversion failure.
proof fn lemma_simple_regions_err(vals: Seq<Seq<char>>, b: int)
    requires
        0 <= b < vals.len(),
        forall|j: int| 0 <= j < b ==> valid_u64_token(#[trigger] vals[j]),
        !valid_u64_token(vals[b]),
    ensures
        spec_simple_regions(vals) is Err,
        spec_simple_regions(vals)->Err_0 == (if vals[b].len() == 0 {
            spec_int_error_text(IntError::Empty)
        } else if !crate::numbers::all_digits(vals[b]) {
            spec_int_error_text(IntError::InvalidDigit)
        } else {
            spec_int_error_text(IntError::Overflow)
        }),
    decreases vals.len(),
{
    if b > 0 {
        lemma_simple_regions_err(vals.drop_first(), b - 1);
    }
}

/// Parses one line of the reduced grammar: `settings` with its keys, and a
/// bare `update_map`.  The result is proved to agree with
/// [`spec_parse_simple`], down to the exact error text.
pub fn parse(line: &str) -> (r: Result<Message, String>)
    ensures
        simple_result_matches(r, spec_parse_simple(line@)),
{
    let mut toks = split_on(line, ' ');
    proof {
        lemma_tokens_deep_view(&toks);
    }
    let ghost spec_toks = spec_split(line@);
    let is_settings = str_eq(toks[0].as_str(), "settings");
    let is_update_map = str_eq(toks[0].as_str(), "update_map");
    let rest = toks.split_off(1);
    proof {
        assert(rest.deep_view() =~~= spec_toks.drop_first());
    }
    if is_settings {
        parse_settings(rest)
    } else if is_update_map {
        Ok(Message::UpdateMap)
    } else {
        Err("unknown command".to_owned())
    }
}

} // verus!
