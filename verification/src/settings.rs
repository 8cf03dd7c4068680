//! The settings store.
//!
//! Configuration values arrive over the protocol before the bot's identity
//! is known.  Until a `your_bot` setting resolves the identity, incoming
//! values are buffered in arrival order; when it resolves, the buffer is
//! replayed in arrival order into the live record (then the identity itself
//! is applied), and every later value mutates the record directly.  Every
//! key is a last-write-wins overwrite, so replaying in arrival order keeps
//! the record exactly as if each value had been applied on arrival.

use vstd::prelude::*;
use crate::parser::{SettingsValue, SpecSettings};

verus! {

/// The live configuration record.
#[derive(Debug)]
pub struct Settings {
    pub timebank: u64,
    pub time_per_move: u64,
    pub max_rounds: u64,
    pub name: String,
    pub opponent: String,
    pub starting_regions: Vec<u64>,
    pub starting_pick_amount: u64,
    pub starting_armies: u64,
}

/// The mathematical value of a [`Settings`] record.
#[verifier::ext_equal]
pub struct SpecSettingsRecord {
    pub timebank: u64,
    pub time_per_move: u64,
    pub max_rounds: u64,
    pub name: Seq<char>,
    pub opponent: Seq<char>,
    pub starting_regions: Seq<u64>,
    pub starting_pick_amount: u64,
    pub starting_armies: u64,
}

impl View for Settings {
    type V = SpecSettingsRecord;

    open spec fn view(&self) -> SpecSettingsRecord {
        SpecSettingsRecord {
            timebank: self.timebank,
            time_per_move: self.time_per_move,
            max_rounds: self.max_rounds,
            name: self.name@,
            opponent: self.opponent@,
            starting_regions: self.starting_regions@,
            starting_pick_amount: self.starting_pick_amount,
            starting_armies: self.starting_armies,
        }
    }
}

/// The record before any setting arrives.
pub open spec fn spec_default_record() -> SpecSettingsRecord {
    SpecSettingsRecord {
        timebank: 0,
        time_per_move: 0,
        max_rounds: 0,
        name: "default"@,
        opponent: "default"@,
        starting_regions: Seq::empty(),
        starting_pick_amount: 0,
        starting_armies: 0,
    }
}

/// One setting applied to the record: a last-write-wins overwrite of the
/// field the key selects.
pub open spec fn apply_setting(s: SpecSettingsRecord, v: SpecSettings) -> SpecSettingsRecord {
    match v {
        SpecSettings::Timebank(t) => SpecSettingsRecord { timebank: t, ..s },
        SpecSettings::TimePerMove(t) => SpecSettingsRecord { time_per_move: t, ..s },
        SpecSettings::MaxRounds(t) => SpecSettingsRecord { max_rounds: t, ..s },
        SpecSettings::YourBot(n) => SpecSettingsRecord { name: n, ..s },
        SpecSettings::OpponentBot(n) => SpecSettingsRecord { opponent: n, ..s },
        SpecSettings::StartingRegions(ids) => SpecSettingsRecord { starting_regions: ids, ..s },
        SpecSettings::StartingPickAmount(t) => SpecSettingsRecord { starting_pick_amount: t, ..s },
        SpecSettings::StartingArmies(t) => SpecSettingsRecord { starting_armies: t, ..s },
    }
}

/// A whole list of settings applied in order, earliest first.
pub open spec fn apply_settings(s: SpecSettingsRecord, vs: Seq<SpecSettings>) -> SpecSettingsRecord
    decreases vs.len(),
{
    if vs.len() == 0 {
        s
    } else {
        apply_setting(apply_settings(s, vs.drop_last()), vs.last())
    }
}

/// Applying a list is applying its head, then the rest.
pub proof fn lemma_apply_settings_head(s: SpecSettingsRecord, vs: Seq<SpecSettings>)
    requires
        vs.len() > 0,
    ensures
        apply_settings(s, vs) == apply_settings(apply_setting(s, vs[0]), vs.drop_first()),
    decreases vs.len(),
{
    if vs.len() == 1 {
        assert(vs.drop_first() =~= Seq::<SpecSettings>::empty());
        assert(vs.drop_last() =~= Seq::<SpecSettings>::empty());
        assert(vs.last() == vs[0]);
        assert(apply_settings(s, vs.drop_last()) == s);
        assert(apply_settings(s, vs) == apply_setting(s, vs[0]));
        assert(apply_settings(apply_setting(s, vs[0]), vs.drop_first()) == apply_setting(
            s,
            vs[0],
        ));
    } else {
        lemma_apply_settings_head(s, vs.drop_last());
        assert(vs.drop_last()[0] == vs[0]);
        assert(vs.drop_last().drop_first() =~= vs.drop_first().drop_last());
        assert(vs.drop_first().last() == vs.last());
        assert(vs.drop_first().len() > 0);
        let s1 = apply_setting(s, vs[0]);
        assert(apply_settings(s, vs.drop_last()) == apply_settings(
            s1,
            vs.drop_first().drop_last(),
        ));
        assert(apply_settings(s1, vs.drop_first()) == apply_setting(
            apply_settings(s1, vs.drop_first().drop_last()),
            vs.drop_first().last(),
        ));
        assert(apply_settings(s, vs) == apply_setting(
            apply_settings(s, vs.drop_last()),
            vs.last(),
        ));
    }
}

/// Applying one key twice with the same value is the same as applying it
/// once: every setting is an idempotent overwrite.
pub proof fn lemma_apply_setting_idempotent(s: SpecSettingsRecord, v: SpecSettings)
    ensures
        apply_setting(apply_setting(s, v), v) == apply_setting(s, v),
{
}

/// The store: the live record, plus the values buffered before the bot's
/// identity resolved.
#[derive(Debug)]
pub struct SettingsStore {
    buffered: Vec<SettingsValue>,
    record: Settings,
    resolved: bool,
}

/// The mathematical value of a [`SettingsStore`].
#[verifier::ext_equal]
pub struct SpecStore {
    pub buffered: Seq<SpecSettings>,
    pub record: SpecSettingsRecord,
    pub resolved: bool,
}

/// What [`SettingsStore::apply`] does to the store.
pub open spec fn spec_store_apply(s: SpecStore, v: SpecSettings) -> SpecStore {
    if s.resolved {
        SpecStore { record: apply_setting(s.record, v), ..s }
    } else if v is YourBot {
        SpecStore {
            buffered: Seq::empty(),
            record: apply_setting(apply_settings(s.record, s.buffered), v),
            resolved: true,
        }
    } else {
        SpecStore { buffered: s.buffered.push(v), ..s }
    }
}

impl View for SettingsStore {
    type V = SpecStore;

    closed spec fn view(&self) -> SpecStore {
        SpecStore {
            buffered: self.buffered@.map_values(|v: SettingsValue| v@),
            record: self.record@,
            resolved: self.resolved,
        }
    }
}

impl SettingsStore {
    /// A store with the default record, no buffered values, and the
    /// identity unresolved.
    pub fn new() -> (r: SettingsStore)
        ensures
            r@ == (SpecStore {
                buffered: Seq::<SpecSettings>::empty(),
                record: spec_default_record(),
                resolved: false,
            }),
    {
        let r = SettingsStore {
            buffered: Vec::new(),
            record: Settings {
                timebank: 0,
                time_per_move: 0,
                max_rounds: 0,
                name: "default".to_owned(),
                opponent: "default".to_owned(),
                starting_regions: Vec::new(),
                starting_pick_amount: 0,
                starting_armies: 0,
            },
            resolved: false,
        };
        proof {
            assert(r@.buffered =~= Seq::<SpecSettings>::empty());
            assert(r@.record.starting_regions =~= Seq::<u64>::empty());
            assert(r@ =~~= (SpecStore {
                buffered: Seq::<SpecSettings>::empty(),
                record: spec_default_record(),
                resolved: false,
            }));
        }
        r
    }

    /// Whether the bot's identity has resolved.
    pub fn is_resolved(&self) -> (r: bool)
        ensures
            r == self@.resolved,
    {
        self.resolved
    }

    /// A read-only view of the live record.
    pub fn record(&self) -> (r: &Settings)
        ensures
            r@ == self@.record,
    {
        &self.record
    }

    /// Takes one incoming setting: buffers it while the identity is
    /// unresolved, resolves on `your_bot` (replaying the buffer in arrival
    /// order first), and overwrites the record directly afterwards.
    pub fn apply(&mut self, v: SettingsValue)
        ensures
            final(self)@ == spec_store_apply(old(self)@, v@),
    {
        if self.resolved {
            apply_to_record(&mut self.record, v);
            proof {
                assert(self@ =~~= spec_store_apply(old(self)@, v@));
            }
            return ;
        }
        let is_your_bot = match &v {
            SettingsValue::YourBot(_) => true,
            _ => false,
        };
        if !is_your_bot {
            let ghost prevb = self@.buffered;
            self.buffered.push(v);
            proof {
                assert(self@.buffered =~= prevb.push(v@));
                assert(self@ =~~= spec_store_apply(old(self)@, v@));
            }
            return ;
        }
        let ghost buf0 = self@.buffered;
        let ghost rec0 = self@.record;
        while self.buffered.len() > 0
            invariant
                self.resolved == false,
                apply_settings(rec0, buf0) == apply_settings(
                    self@.record,
                    self@.buffered,
                ),
            decreases self.buffered@.len(),
        {
            let ghost prestore = self@;
            let first = self.buffered.remove(0);
            proof {
                assert(self@.buffered =~= prestore.buffered.drop_first());
                assert(prestore.buffered[0] == first@);
                lemma_apply_settings_head(prestore.record, prestore.buffered);
            }
            apply_to_record(&mut self.record, first);
        }
        proof {
            assert(self@.buffered =~= Seq::<SpecSettings>::empty());
            assert(self@.record == apply_settings(rec0, buf0));
        }
        apply_to_record(&mut self.record, v);
        self.resolved = true;
        proof {
            assert(self@ =~~= spec_store_apply(old(self)@, v@));
        }
    }
}

/// Overwrites the field of the record that the setting's key selects.
fn apply_to_record(record: &mut Settings, v: SettingsValue)
    ensures
        final(record)@ == apply_setting(old(record)@, v@),
{
    match v {
        SettingsValue::Timebank(t) => {
            record.timebank = t;
        },
        SettingsValue::TimePerMove(t) => {
            record.time_per_move = t;
        },
        SettingsValue::MaxRounds(t) => {
            record.max_rounds = t;
        },
        SettingsValue::YourBot(n) => {
            record.name = n;
        },
        SettingsValue::OpponentBot(n) => {
            record.opponent = n;
        },
        SettingsValue::StartingRegions(ids) => {
            record.starting_regions = ids;
        },
        SettingsValue::StartingPickAmount(t) => {
            record.starting_pick_amount = t;
        },
        SettingsValue::StartingArmies(t) => {
            record.starting_armies = t;
        },
    }
    proof {
        assert(final(record)@ =~~= apply_setting(old(record)@, v@));
    }
}

} // verus!
