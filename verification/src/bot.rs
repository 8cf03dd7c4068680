//! The bot: the single owner of the world model and the settings store.
//!
//! The bot consumes one protocol line at a time through [`Bot::read_line`]
//! and produces at most one response line.  Lines that fail to parse are
//! dropped with no state change.  Exactly one response is produced for each
//! response-expecting command (`pick_starting_region`, `go place_armies`,
//! `go attack/transfer`); no other command produces one.  The embedding
//! program runs the read–compute–respond loop and owns the transport.
//!
//! Mutating commands must reference previously registered ids (and, for
//! `update_map`, resolvable owner names): an unregistered id is a
//! protocol-desync programming error.  [`Bot::can_process`] decides that
//! precondition for any line, so the embedding loop can fail loudly instead
//! of corrupting the model.

use vstd::prelude::*;
use vstd::string::StrSliceExecFns;
use vstd::string::StringExecFns;
use crate::map::{
    allies_of, m_add_region, m_add_region_neighbors, m_add_super_region, m_mark_as_enemy,
    m_update_fog, m_update_map, m_upgrade_to_wasteland, regs_has, regs_idx, srs_has, srs_idx,
    sum_armies, GameMap, MapModel, OwnerValue, Region, SpecRegion,
};
use crate::numbers::{u64_digits, u64_to_string};
use crate::parser::{
    parse, spec_parse, Message, OpponentMoveValue, SetupMapValue, SettingsValue, SpecMessage,
    SpecOpponentMove, SpecSetupMap,
};
use crate::settings::{spec_store_apply, SettingsStore, SpecSettingsRecord, SpecStore};

verus! {

/// Relies on rand::rngs::ThreadRng, the thread-local random generator.
#[verifier::external_type_specification]
#[verifier::external_body]
pub struct ExThreadRng(rand::rngs::ThreadRng);

/// Relies on rand::thread_rng: a handle to the thread-local generator.
/// Nothing can be promised of what it will produce.
#[verifier::external_body]
fn fresh_rng() -> rand::rngs::ThreadRng {
    rand::thread_rng()
}

/// Relies on rand::seq::index::sample: exactly `amount` distinct indices
/// drawn from `0..length` (it panics when `amount > length`, which the
/// precondition excludes).  Which indices come back, and in what order, is
/// random: the contract states only what holds of every outcome.
#[verifier::external_body]
fn sample_indices(rng: &mut rand::rngs::ThreadRng, length: usize, amount: usize) -> (r: Vec<usize>)
    requires
        amount <= length,
    ensures
        r@.len() == amount,
        forall|i: int| 0 <= i < r@.len() ==> #[trigger] r@[i] < length,
        forall|i: int, j: int| 0 <= i < j < r@.len() ==> r@[i] != r@[j],
{
    rand::seq::index::sample(rng, length, amount).into_vec()
}

/// What any outcome of `sample_indices(_, length, amount)` satisfies.
pub open spec fn sample_ok(idxs: Seq<usize>, length: int, amount: int) -> bool {
    idxs.len() == amount && (forall|i: int| 0 <= i < idxs.len() ==> #[trigger] idxs[i] < length)
        && (forall|i: int, j: int| 0 <= i < j < idxs.len() ==> idxs[i] != idxs[j])
}

/// The owner a reported name resolves to: the configured own name is an
/// ally, the configured opponent name an enemy, the literal `neutral`
/// neutral, and anything else is unknown.
pub open spec fn spec_owner_of(rec: SpecSettingsRecord, name: Seq<char>) -> Option<OwnerValue> {
    if name == rec.name {
        Some(OwnerValue::Ally)
    } else if name == rec.opponent {
        Some(OwnerValue::Enemy)
    } else if name == "neutral"@ {
        Some(OwnerValue::Neutral)
    } else {
        None
    }
}

/// What a `setup_map super_regions` batch does to the model, in order.
pub open spec fn m_add_super_regions(m: MapModel, pairs: Seq<(u64, u64)>) -> MapModel
    decreases pairs.len(),
{
    if pairs.len() == 0 {
        m
    } else {
        m_add_super_region(m_add_super_regions(m, pairs.drop_last()), pairs.last().0, pairs.last().1)
    }
}

/// What a `setup_map regions` batch does to the model, in order.
pub open spec fn m_add_regions(m: MapModel, pairs: Seq<(u64, u64)>) -> MapModel
    decreases pairs.len(),
{
    if pairs.len() == 0 {
        m
    } else {
        m_add_region(m_add_regions(m, pairs.drop_last()), pairs.last().0, pairs.last().1)
    }
}

/// What a `setup_map neighbors` batch does to the model, in order.
pub open spec fn m_add_neighbors(m: MapModel, list: Seq<(u64, Seq<u64>)>) -> MapModel
    decreases list.len(),
{
    if list.len() == 0 {
        m
    } else {
        m_add_region_neighbors(m_add_neighbors(m, list.drop_last()), list.last().0, list.last().1)
    }
}

/// What a `setup_map wastelands` batch does to the model, in order.
pub open spec fn m_upgrade_wastelands(m: MapModel, ids: Seq<u64>) -> MapModel
    decreases ids.len(),
{
    if ids.len() == 0 {
        m
    } else {
        m_upgrade_to_wasteland(m_upgrade_wastelands(m, ids.drop_last()), ids.last())
    }
}

/// What a `setup_map opponent_starting_regions` batch does to the model.
pub open spec fn m_mark_enemies(m: MapModel, ids: Seq<u64>) -> MapModel
    decreases ids.len(),
{
    if ids.len() == 0 {
        m
    } else {
        m_mark_as_enemy(m_mark_enemies(m, ids.drop_last()), ids.last())
    }
}

/// What a whole `setup_map` message does to the model.
pub open spec fn m_setup(m: MapModel, v: SpecSetupMap) -> MapModel {
    match v {
        SpecSetupMap::SuperRegions(pairs) => m_add_super_regions(m, pairs),
        SpecSetupMap::Regions(pairs) => m_add_regions(m, pairs),
        SpecSetupMap::Neighbors(list) => m_add_neighbors(m, list),
        SpecSetupMap::Wastelands(ids) => m_upgrade_wastelands(m, ids),
        SpecSetupMap::OpponentStartingRegions(ids) => m_mark_enemies(m, ids),
    }
}

/// What the overwrite pass of an `update_map` message does to the model:
/// each (id, owner name, armies) triple applied in order, with names
/// resolved against the settings record.
pub open spec fn m_update_triples(
    m: MapModel,
    rec: SpecSettingsRecord,
    triples: Seq<(u64, Seq<char>, u64)>,
) -> MapModel
    decreases triples.len(),
{
    if triples.len() == 0 {
        m
    } else {
        let t = triples.last();
        m_update_map(
            m_update_triples(m, rec, triples.drop_last()),
            t.0,
            spec_owner_of(rec, t.1)->Some_0,
            t.2,
        )
    }
}

/// The region ids an `update_map` message observes, in order.
pub open spec fn triple_ids(triples: Seq<(u64, Seq<char>, u64)>) -> Seq<u64> {
    triples.map_values(|t: (u64, Seq<char>, u64)| t.0)
}

/// The region each opponent move exposes: the target of a placement, the
/// source of an attack or transfer.
pub open spec fn move_region(mv: SpecOpponentMove) -> u64 {
    match mv {
        SpecOpponentMove::PlaceArmies(_, target, _) => target,
        SpecOpponentMove::AttackTransfer(_, source, _, _) => source,
    }
}

/// What an `opponent_moves` message does to the model: each exposed region
/// is marked enemy-held, in order.
pub open spec fn m_mark_moves(m: MapModel, moves: Seq<SpecOpponentMove>) -> MapModel
    decreases moves.len(),
{
    if moves.len() == 0 {
        m
    } else {
        m_mark_as_enemy(m_mark_moves(m, moves.drop_last()), move_region(moves.last()))
    }
}

/// Every region pair of a `setup_map regions` batch names a registered
/// super-region.
pub open spec fn regions_pre(m: MapModel, pairs: Seq<(u64, u64)>) -> bool {
    forall|k: int| 0 <= k < pairs.len() ==> #[trigger] srs_has(m.srs, pairs[k].1)
}

/// Every id of a `setup_map neighbors` batch, on either side, names a
/// registered region.
pub open spec fn neighbors_pre(m: MapModel, list: Seq<(u64, Seq<u64>)>) -> bool {
    (forall|k: int| 0 <= k < list.len() ==> #[trigger] regs_has(m.regs, list[k].0)) && (forall|
        k: int,
        t: int,
    |
        0 <= k < list.len() && 0 <= t < list[k].1.len() ==> #[trigger] regs_has(
            m.regs,
            list[k].1[t],
        ))
}

/// Every id of a flat region-id batch names a registered region.
pub open spec fn ids_pre(m: MapModel, ids: Seq<u64>) -> bool {
    forall|k: int| 0 <= k < ids.len() ==> #[trigger] regs_has(m.regs, ids[k])
}

/// Every `update_map` triple names a registered region and a resolvable
/// owner.
pub open spec fn update_pre(
    m: MapModel,
    rec: SpecSettingsRecord,
    triples: Seq<(u64, Seq<char>, u64)>,
) -> bool {
    forall|k: int|
        0 <= k < triples.len() ==> #[trigger] regs_has(m.regs, triples[k].0) && spec_owner_of(
            rec,
            triples[k].1,
        ) is Some
}

/// Every opponent move exposes a registered region.
pub open spec fn moves_pre(m: MapModel, moves: Seq<SpecOpponentMove>) -> bool {
    forall|k: int| 0 <= k < moves.len() ==> #[trigger] regs_has(m.regs, move_region(moves[k]))
}

/// Every candidate of a `pick_starting_region` line names a registered
/// region whose super-region is registered and whose army total fits.
pub open spec fn pick_pre(m: MapModel, ids: Seq<u64>) -> bool {
    forall|k: int|
        0 <= k < ids.len() ==> #[trigger] regs_has(m.regs, ids[k]) && srs_has(
            m.srs,
            m.regs[regs_idx(m.regs, ids[k])].super_region_id,
        ) && sum_armies(
            m.regs,
            m.srs[srs_idx(m.srs, m.regs[regs_idx(m.regs, ids[k])].super_region_id)].region_ids,
        ) <= u64::MAX
}

/// Whether a parsed message references only registered ids (and, for
/// `update_map`, only resolvable owner names): the bot's precondition for
/// processing it.
pub open spec fn msg_pre(m: MapModel, rec: SpecSettingsRecord, msg: SpecMessage) -> bool {
    match msg {
        SpecMessage::Settings(_) => true,
        SpecMessage::SetupMap(v) => match v {
            SpecSetupMap::SuperRegions(_) => true,
            SpecSetupMap::Regions(pairs) => regions_pre(m, pairs),
            SpecSetupMap::Neighbors(list) => neighbors_pre(m, list),
            SpecSetupMap::Wastelands(ids) => ids_pre(m, ids),
            SpecSetupMap::OpponentStartingRegions(ids) => ids_pre(m, ids),
        },
        SpecMessage::UpdateMap(triples) => update_pre(m, rec, triples),
        SpecMessage::OpponentMoves(moves) => moves_pre(m, moves),
        SpecMessage::PickStartingRegion(_, ids) => pick_pre(m, ids),
        SpecMessage::GoPlaceArmies(_) => true,
        SpecMessage::GoAttackTransfer(_) => true,
    }
}

/// The bot.
pub struct Bot {
    settings: SettingsStore,
    map: GameMap,
    output_buffer: String,
}

impl Bot {
    /// The settings store's value.
    pub closed spec fn store(self) -> SpecStore {
        self.settings@
    }

    /// The world model's value.
    pub closed spec fn map_model(self) -> MapModel {
        self.map.model()
    }

    /// The pending response buffer.
    pub closed spec fn buffer(self) -> Seq<char> {
        self.output_buffer@
    }

    /// Between lines: the world model is well-formed and no response is
    /// pending.
    pub open spec fn wf(self) -> bool {
        self.map_wf() && self.buffer() == Seq::<char>::empty()
    }

    /// The world model is well-formed.
    pub closed spec fn map_wf(self) -> bool {
        self.map.wf()
    }

    /// A fresh bot: default settings, an empty map, no pending response.
    pub fn new() -> (r: Bot)
        ensures
            r.wf(),
            r.store() == (SpecStore {
                buffered: Seq::<crate::parser::SpecSettings>::empty(),
                record: crate::settings::spec_default_record(),
                resolved: false,
            }),
            r.map_model() == (MapModel {
                srs: Seq::<crate::map::SpecSuperRegion>::empty(),
                regs: Seq::<SpecRegion>::empty(),
            }),
    {
        let r = Bot {
            settings: SettingsStore::new(),
            map: GameMap::new(),
            output_buffer: String::new(),
        };
        proof {
            assert(r.map_model() =~~= (MapModel {
                srs: Seq::<crate::map::SpecSuperRegion>::empty(),
                regs: Seq::<SpecRegion>::empty(),
            }));
        }
        r
    }

    /// One sub-response joined onto the pending buffer with a single space.
    fn queue(&self, message: String) -> (r: String)
        ensures
            r@ == (if self.buffer().len() == 0 {
                message@
            } else {
                self.buffer() + " "@ + message@
            }),
    {
        if self.output_buffer.as_str().is_empty() {
            message
        } else {
            let mut r = self.output_buffer.clone();
            r.append(" ");
            r.append(message.as_str());
            r
        }
    }

    /// Takes the pending response, if the last line produced one.
    fn take_response(&mut self) -> (r: Option<String>)
        ensures
            final(self).store() == old(self).store(),
            final(self).map_model() == old(self).map_model(),
            final(self).map_wf() == old(self).map_wf(),
            final(self).buffer() == Seq::<char>::empty(),
            old(self).buffer().len() == 0 ==> r is None,
            old(self).buffer().len() > 0 ==> (r matches Some(s) && s@ == old(self).buffer()),
    {
        if self.output_buffer.as_str().is_empty() {
            None
        } else {
            let r = self.output_buffer.clone();
            self.output_buffer = String::new();
            Some(r)
        }
    }

    /// A bounded idle compute tick: the hook where a decision policy may
    /// spend time between lines.  The default policy spends none.
    pub fn calculate(&self) {
    }

    /// Takes one configuration value into the settings store.
    fn process_settings(&mut self, message: SettingsValue)
        ensures
            final(self).store() == spec_store_apply(old(self).store(), message@),
            final(self).map_model() == old(self).map_model(),
            final(self).map_wf() == old(self).map_wf(),
            final(self).buffer() == old(self).buffer(),
    {
        self.settings.apply(message);
    }

    /// Resolves a reported owner name against the configured names.
    fn name_to_owner_value(&self, name: &String) -> (r: Result<OwnerValue, &'static str>)
        ensures
            (match r {
                Ok(o) => spec_owner_of(self.store().record, name@) == Some(o),
                Err(_) => spec_owner_of(self.store().record, name@) is None,
            }),
    {
        let record = self.settings.record();
        if name.eq(&record.name) {
            Ok(OwnerValue::Ally)
        } else if name.eq(&record.opponent) {
            Ok(OwnerValue::Enemy)
        } else if crate::tokens::str_eq(name.as_str(), "neutral") {
            Ok(OwnerValue::Neutral)
        } else {
            Err("Unknown name")
        }
    }

    /// Applies one `setup_map` message to the world model, entry by entry.
    fn process_map_message(&mut self, message: SetupMapValue)
        requires
            old(self).map_wf(),
            msg_pre(
                old(self).map_model(),
                old(self).store().record,
                SpecMessage::SetupMap(message@),
            ),
        ensures
            final(self).map_wf(),
            final(self).map_model() == m_setup(old(self).map_model(), message@),
            final(self).store() == old(self).store(),
            final(self).buffer() == old(self).buffer(),
    {
        let ghost m0 = self.map_model();
        let ghost msgv = message@;
        match &message {
            SetupMapValue::SuperRegions(pairs) => {
                let mut t: usize = 0;
                proof {
                    assert(pairs@.subrange(0, 0) =~= Seq::<(u64, u64)>::empty());
                }
                while t < pairs.len()
                    invariant
                        0 <= t <= pairs@.len(),
                        self.map.wf(),
                        self.map.model() == m_add_super_regions(m0, pairs@.subrange(0, t as int)),
                        self.settings == old(self).settings,
                        self.output_buffer == old(self).output_buffer,
                    decreases pairs@.len() - t,
                {
                    self.map.add_super_region(pairs[t].0, pairs[t].1);
                    proof {
                        assert(pairs@.subrange(0, t + 1).drop_last() =~= pairs@.subrange(
                            0,
                            t as int,
                        ));
                        assert(pairs@.subrange(0, t + 1).last() == pairs@[t as int]);
                    }
                    t = t + 1;
                }
                proof {
                    assert(pairs@.subrange(0, pairs@.len() as int) =~= pairs@);
                }
            },
            SetupMapValue::Regions(pairs) => {
                let mut t: usize = 0;
                proof {
                    assert(pairs@.subrange(0, 0) =~= Seq::<(u64, u64)>::empty());
                    assert(msgv == SpecSetupMap::Regions(pairs@));
                    assert forall|k: int| 0 <= k < pairs@.len() implies srs_has(
                        m0.srs,
                        (#[trigger] pairs@[k]).1,
                    ) by {
                        assert(regions_pre(m0, pairs@));
                    }
                }
                while t < pairs.len()
                    invariant
                        0 <= t <= pairs@.len(),
                        self.map.wf(),
                        self.map.model() == m_add_regions(m0, pairs@.subrange(0, t as int)),
                        forall|k: int|
                            0 <= k < pairs@.len() ==> srs_has(
                                self.map.model().srs,
                                (#[trigger] pairs@[k]).1,
                            ),
                        self.settings == old(self).settings,
                        self.output_buffer == old(self).output_buffer,
                    decreases pairs@.len() - t,
                {
                    let ghost pre = self.map.model();
                    self.map.add_region(pairs[t].0, pairs[t].1);
                    proof {
                        assert(pairs@.subrange(0, t + 1).drop_last() =~= pairs@.subrange(
                            0,
                            t as int,
                        ));
                        assert(pairs@.subrange(0, t + 1).last() == pairs@[t as int]);
                        assert forall|k: int| 0 <= k < pairs@.len() implies srs_has(
                            self.map.model().srs,
                            (#[trigger] pairs@[k]).1,
                        ) by {
                            let w = choose|x: int|
                                0 <= x < pre.srs.len() && #[trigger] pre.srs[x].id == pairs@[k].1;
                            assert(self.map.model().srs[w].id == pairs@[k].1);
                        }
                    }
                    t = t + 1;
                }
                proof {
                    assert(pairs@.subrange(0, pairs@.len() as int) =~= pairs@);
                }
            },
            SetupMapValue::Neighbors(list) => {
                let ghost deep = list.deep_view();
                let mut t: usize = 0;
                proof {
                    assert(deep.subrange(0, 0) =~= Seq::<(u64, Seq<u64>)>::empty());
                    assert(deep.len() == list@.len());
                    assert(msgv == SpecSetupMap::Neighbors(deep));
                    assert forall|k: int| 0 <= k < deep.len() implies regs_has(
                        m0.regs,
                        (#[trigger] deep[k]).0,
                    ) && (forall|u: int|
                        0 <= u < deep[k].1.len() ==> regs_has(m0.regs, #[trigger] deep[k].1[u]))
                        by {
                        assert(neighbors_pre(m0, deep));
                    }
                }
                while t < list.len()
                    invariant
                        0 <= t <= list@.len(),
                        deep == list.deep_view(),
                        deep.len() == list@.len(),
                        forall|k: int|
                            0 <= k < list@.len() ==> #[trigger] deep[k] == (
                            list@[k].0,
                            list@[k].1@,
                            ),
                        self.map.wf(),
                        self.map.model() == m_add_neighbors(m0, deep.subrange(0, t as int)),
                        forall|k: int|
                            0 <= k < deep.len() ==> regs_has(
                                self.map.model().regs,
                                (#[trigger] deep[k]).0,
                            ) && (forall|u: int|
                                0 <= u < deep[k].1.len() ==> regs_has(
                                    self.map.model().regs,
                                    #[trigger] deep[k].1[u],
                                )),
                        self.settings == old(self).settings,
                        self.output_buffer == old(self).output_buffer,
                    decreases list@.len() - t,
                {
                    let ghost pre = self.map.model();
                    let entry = &list[t];
                    let ids = crate::map::copy_ids(&entry.1);
                    proof {
                        assert(deep[t as int] == (list@[t as int].0, list@[t as int].1@));
                        assert(regs_has(self.map.model().regs, deep[t as int].0));
                        assert forall|u: int| 0 <= u < ids@.len() implies self.map.has_region(
                            #[trigger] ids@[u],
                        ) by {
                            assert(regs_has(self.map.model().regs, deep[t as int].1[u]));
                        }
                    }
                    self.map.add_region_neighbors(entry.0, ids);
                    proof {
                        assert(deep.subrange(0, t + 1).drop_last() =~= deep.subrange(0, t as int));
                        assert(deep.subrange(0, t + 1).last() == deep[t as int]);
                        assert forall|k: int| 0 <= k < deep.len() implies regs_has(
                            self.map.model().regs,
                            (#[trigger] deep[k]).0,
                        ) && (forall|u: int|
                            0 <= u < deep[k].1.len() ==> regs_has(
                                self.map.model().regs,
                                #[trigger] deep[k].1[u],
                            )) by {
                            let w = choose|x: int|
                                0 <= x < pre.regs.len() && #[trigger] pre.regs[x].id == deep[k].0;
                            assert(self.map.model().regs[w].id == deep[k].0);
                            assert forall|u: int| 0 <= u < deep[k].1.len() implies regs_has(
                                self.map.model().regs,
                                #[trigger] deep[k].1[u],
                            ) by {
                                let w2 = choose|x: int|
                                    0 <= x < pre.regs.len() && #[trigger] pre.regs[x].id
                                        == deep[k].1[u];
                                assert(self.map.model().regs[w2].id == deep[k].1[u]);
                            }
                        }
                    }
                    t = t + 1;
                }
                proof {
                    assert(deep.subrange(0, deep.len() as int) =~= deep);
                }
            },
            SetupMapValue::Wastelands(ids) => {
                let mut t: usize = 0;
                proof {
                    assert(ids@.subrange(0, 0) =~= Seq::<u64>::empty());
                    assert(msgv == SpecSetupMap::Wastelands(ids@));
                    assert forall|k: int| 0 <= k < ids@.len() implies regs_has(
                        m0.regs,
                        #[trigger] ids@[k],
                    ) by {
                        assert(ids_pre(m0, ids@));
                    }
                }
                while t < ids.len()
                    invariant
                        0 <= t <= ids@.len(),
                        self.map.wf(),
                        self.map.model() == m_upgrade_wastelands(m0, ids@.subrange(0, t as int)),
                        forall|k: int|
                            0 <= k < ids@.len() ==> regs_has(
                                self.map.model().regs,
                                #[trigger] ids@[k],
                            ),
                        self.settings == old(self).settings,
                        self.output_buffer == old(self).output_buffer,
                    decreases ids@.len() - t,
                {
                    let ghost pre = self.map.model();
                    self.map.upgrade_to_wasteland(ids[t]);
                    proof {
                        assert(ids@.subrange(0, t + 1).drop_last() =~= ids@.subrange(0, t as int));
                        assert(ids@.subrange(0, t + 1).last() == ids@[t as int]);
                        assert forall|k: int| 0 <= k < ids@.len() implies regs_has(
                            self.map.model().regs,
                            #[trigger] ids@[k],
                        ) by {
                            let w = choose|x: int|
                                0 <= x < pre.regs.len() && #[trigger] pre.regs[x].id == ids@[k];
                            assert(self.map.model().regs[w].id == ids@[k]);
                        }
                    }
                    t = t + 1;
                }
                proof {
                    assert(ids@.subrange(0, ids@.len() as int) =~= ids@);
                }
            },
            SetupMapValue::OpponentStartingRegions(ids) => {
                let mut t: usize = 0;
                proof {
                    assert(ids@.subrange(0, 0) =~= Seq::<u64>::empty());
                    assert(msgv == SpecSetupMap::OpponentStartingRegions(ids@));
                    assert forall|k: int| 0 <= k < ids@.len() implies regs_has(
                        m0.regs,
                        #[trigger] ids@[k],
                    ) by {
                        assert(ids_pre(m0, ids@));
                    }
                }
                while t < ids.len()
                    invariant
                        0 <= t <= ids@.len(),
                        self.map.wf(),
                        self.map.model() == m_mark_enemies(m0, ids@.subrange(0, t as int)),
                        forall|k: int|
                            0 <= k < ids@.len() ==> regs_has(
                                self.map.model().regs,
                                #[trigger] ids@[k],
                            ),
                        self.settings == old(self).settings,
                        self.output_buffer == old(self).output_buffer,
                    decreases ids@.len() - t,
                {
                    let ghost pre = self.map.model();
                    self.map.mark_as_enemy(ids[t]);
                    proof {
                        assert(ids@.subrange(0, t + 1).drop_last() =~= ids@.subrange(0, t as int));
                        assert(ids@.subrange(0, t + 1).last() == ids@[t as int]);
                        assert forall|k: int| 0 <= k < ids@.len() implies regs_has(
                            self.map.model().regs,
                            #[trigger] ids@[k],
                        ) by {
                            let w = choose|x: int|
                                0 <= x < pre.regs.len() && #[trigger] pre.regs[x].id == ids@[k];
                            assert(self.map.model().regs[w].id == ids@[k]);
                        }
                    }
                    t = t + 1;
                }
                proof {
                    assert(ids@.subrange(0, ids@.len() as int) =~= ids@);
                }
            },
        }
    }
}


/// One response line joined from sub-responses: later lines are appended
/// with single spaces.
pub open spec fn join_lines(lines: Seq<Seq<char>>) -> Seq<char>
    decreases lines.len(),
{
    if lines.len() == 0 {
        Seq::empty()
    } else if lines.len() == 1 {
        lines[0]
    } else {
        join_lines(lines.drop_last()) + " "@ + lines.last()
    }
}

/// One army placement directive.
pub open spec fn place_line(name: Seq<char>, id: u64) -> Seq<char> {
    name + " place_armies "@ + u64_digits(id as nat) + " 1"@
}

/// The placement directives for the chosen ally indices, in choice order.
pub open spec fn place_lines(name: Seq<char>, regs: Seq<SpecRegion>, idxs: Seq<usize>) -> Seq<
    Seq<char>,
>
    decreases idxs.len(),
{
    if idxs.len() == 0 {
        Seq::empty()
    } else {
        place_lines(name, regs, idxs.drop_last()).push(
            place_line(name, regs[idxs.last() as int].id),
        )
    }
}

/// How many placements a `go place_armies` round makes with `n` ally
/// regions: one army on each of `starting_armies` sampled regions, but at
/// least one placement whenever an ally region exists at all, and never
/// more than there are ally regions.
pub open spec fn place_count(starting_armies: u64, n: int) -> int {
    if n <= 0 {
        0
    } else {
        let want: int = if starting_armies < 1 {
            1
        } else {
            starting_armies as int
        };
        if want <= n {
            want
        } else {
            n
        }
    }
}

/// One attack-or-transfer directive.
pub open spec fn attack_line(name: Seq<char>, src: u64, tgt: u64) -> Seq<char> {
    name + " attack/transfer "@ + u64_digits(src as nat) + " "@ + u64_digits(tgt as nat) + " 3"@
}

/// The ally regions that mount an attack or transfer: garrison of at least
/// four, and at least one neighbor to move on.
pub open spec fn attack_sources(regs: Seq<SpecRegion>) -> Seq<SpecRegion>
    decreases regs.len(),
{
    if regs.len() == 0 {
        Seq::empty()
    } else {
        attack_sources(regs.drop_last()) + (if regs.last().armies >= 4
            && regs.last().neighbor_ids.len() > 0 {
            seq![regs.last()]
        } else {
            Seq::empty()
        })
    }
}

/// The attack directives: one per source, at its chosen target.
pub open spec fn attack_lines(name: Seq<char>, srcs: Seq<SpecRegion>, tgts: Seq<u64>) -> Seq<
    Seq<char>,
>
    decreases tgts.len(),
{
    if tgts.len() == 0 {
        Seq::empty()
    } else {
        attack_lines(name, srcs.drop_last(), tgts.drop_last()).push(
            attack_line(name, srcs.last().id, tgts.last()),
        )
    }
}

/// Whether each chosen target is a neighbor of its source.
pub open spec fn valid_targets(srcs: Seq<SpecRegion>, tgts: Seq<u64>) -> bool {
    tgts.len() == srcs.len() && (forall|i: int|
        0 <= i < srcs.len() ==> (#[trigger] srcs[i]).neighbor_ids.contains(tgts[i]))
}

/// Whether score `a` (bonus over armies) is strictly greater than score
/// `b`, read as exact rationals extended the way the comparison of the
/// corresponding quotients behaves: a zero-over-zero score compares greater
/// than nothing and nothing compares greater than it; a positive bonus over
/// zero armies is greater than every other score.
pub open spec fn spec_score_gt(an: u64, ad: int, bn: u64, bd: int) -> bool {
    if an == 0 && ad == 0 {
        false
    } else if bn == 0 && bd == 0 {
        false
    } else if ad == 0 {
        bd != 0
    } else if bd == 0 {
        false
    } else {
        an * bd > bn * ad
    }
}

/// The starting-pick score of a registered region.
pub open spec fn region_score(m: MapModel, id: u64) -> (u64, int) {
    let r = m.regs[regs_idx(m.regs, id)];
    let sr = m.srs[srs_idx(m.srs, r.super_region_id)];
    (sr.value, sum_armies(m.regs, sr.region_ids))
}

/// The fold of the pick loop: the first candidate whose score strictly
/// beats every earlier best, starting from a zero score and region 0.
pub open spec fn pick_loop(m: MapModel, ids: Seq<u64>, bn: u64, bd: int, choice: u64) -> u64
    decreases ids.len(),
{
    if ids.len() == 0 {
        choice
    } else {
        let s = region_score(m, ids[0]);
        if spec_score_gt(s.0, s.1, bn, bd) {
            pick_loop(m, ids.drop_first(), s.0, s.1, ids[0])
        } else {
            pick_loop(m, ids.drop_first(), bn, bd, choice)
        }
    }
}

/// The region a `pick_starting_region` line chooses.
pub open spec fn spec_pick_choice(m: MapModel, ids: Seq<u64>) -> u64 {
    pick_loop(m, ids, 0, 1, 0)
}

/// Whether score `a` is strictly greater than score `b`.
fn score_gt(an: u64, ad: u64, bn: u64, bd: u64) -> (r: bool)
    ensures
        r == spec_score_gt(an, ad as int, bn, bd as int),
{
    if an == 0 && ad == 0 {
        false
    } else if bn == 0 && bd == 0 {
        false
    } else if ad == 0 {
        bd != 0
    } else if bd == 0 {
        false
    } else {
        proof {
            assert((an as u128) * (bd as u128) <= (u64::MAX as u128) * (u64::MAX as u128) && (
            bn as u128) * (ad as u128) <= (u64::MAX as u128) * (u64::MAX as u128))
                by (nonlinear_arith)
                requires
                    an <= u64::MAX && bd <= u64::MAX && bn <= u64::MAX && ad <= u64::MAX,
            ;
        }
        (an as u128) * (bd as u128) > (bn as u128) * (ad as u128)
    }
}

impl Bot {
    /// Applies an `update_map` message: overwrites each reported region,
    /// then reconciles fog of war against the set of observed ids.
    fn process_update_map(&mut self, regions: Vec<(u64, String, u64)>)
        requires
            old(self).map_wf(),
            update_pre(old(self).map_model(), old(self).store().record, regions.deep_view()),
        ensures
            final(self).map_wf(),
            final(self).map_model() == m_update_fog(
                m_update_triples(
                    old(self).map_model(),
                    old(self).store().record,
                    regions.deep_view(),
                ),
                triple_ids(regions.deep_view()),
            ),
            final(self).store() == old(self).store(),
            final(self).buffer() == old(self).buffer(),
    {
        let ghost m0 = self.map_model();
        let ghost rec = self.store().record;
        let ghost deep = regions.deep_view();
        let mut found: Vec<u64> = Vec::new();
        let mut t: usize = 0;
        proof {
            assert(deep.subrange(0, 0) =~= Seq::<(u64, Seq<char>, u64)>::empty());
            assert(found@ =~= triple_ids(deep.subrange(0, 0)));
        }
        while t < regions.len()
            invariant
                0 <= t <= regions@.len(),
                deep == regions.deep_view(),
                deep.len() == regions@.len(),
                forall|k: int|
                    0 <= k < regions@.len() ==> #[trigger] deep[k] == (
                    regions@[k].0,
                    regions@[k].1@,
                    regions@[k].2,
                    ),
                update_pre(m0, rec, deep),
                rec == self.store().record,
                self.map.wf(),
                self.map.model() == m_update_triples(m0, rec, deep.subrange(0, t as int)),
                forall|k: int|
                    0 <= k < deep.len() ==> #[trigger] regs_has(
                        self.map.model().regs,
                        deep[k].0,
                    ),
                found@ == triple_ids(deep.subrange(0, t as int)),
                self.settings == old(self).settings,
                self.output_buffer == old(self).output_buffer,
            decreases regions@.len() - t,
        {
            let ghost pre = self.map.model();
            let id = regions[t].0;
            found.push(id);
            let owner = match self.name_to_owner_value(&regions[t].1) {
                Ok(o) => o,
                Err(_) => {
                    proof {
                        assert(regs_has(m0.regs, deep[t as int].0));
                        assert(spec_owner_of(rec, deep[t as int].1) is Some);
                        assert(false);
                    }
                    unreached()
                },
            };
            proof {
                assert(spec_owner_of(rec, deep[t as int].1) is Some);
                assert(owner == spec_owner_of(rec, deep[t as int].1)->Some_0);
                assert(regs_has(self.map.model().regs, deep[t as int].0));
                assert(self.map.has_region(id));
            }
            self.map.update_map(id, owner, regions[t].2);
            proof {
                assert(deep.subrange(0, t + 1).drop_last() =~= deep.subrange(0, t as int));
                assert(deep.subrange(0, t + 1).last() == deep[t as int]);
                assert(triple_ids(deep.subrange(0, t + 1)) =~= triple_ids(
                    deep.subrange(0, t as int),
                ).push(deep[t as int].0));
                assert forall|k: int| 0 <= k < deep.len() implies #[trigger] regs_has(
                    self.map.model().regs,
                    deep[k].0,
                ) by {
                    assert(regs_has(pre.regs, deep[k].0));
                    let w = choose|x: int|
                        0 <= x < pre.regs.len() && #[trigger] pre.regs[x].id == deep[k].0;
                    assert(self.map.model().regs[w].id == deep[k].0);
                }
            }
            t = t + 1;
        }
        proof {
            assert(deep.subrange(0, deep.len() as int) =~= deep);
        }
        self.map.update_fog(found);
    }

    /// Applies an `opponent_moves` message: every region an opponent move
    /// exposes is marked enemy-held.
    fn process_opponent_moves(&mut self, moves: Vec<OpponentMoveValue>)
        requires
            old(self).map_wf(),
            moves_pre(old(self).map_model(), moves@.map_values(|x: OpponentMoveValue| x@)),
        ensures
            final(self).map_wf(),
            final(self).map_model() == m_mark_moves(
                old(self).map_model(),
                moves@.map_values(|x: OpponentMoveValue| x@),
            ),
            final(self).store() == old(self).store(),
            final(self).buffer() == old(self).buffer(),
    {
        let ghost m0 = self.map_model();
        let ghost mdeep = moves@.map_values(|x: OpponentMoveValue| x@);
        let mut t: usize = 0;
        proof {
            assert(mdeep.subrange(0, 0) =~= Seq::<SpecOpponentMove>::empty());
        }
        while t < moves.len()
            invariant
                0 <= t <= moves@.len(),
                mdeep == moves@.map_values(|x: OpponentMoveValue| x@),
                mdeep.len() == moves@.len(),
                moves_pre(m0, mdeep),
                self.map.wf(),
                self.map.model() == m_mark_moves(m0, mdeep.subrange(0, t as int)),
                forall|k: int|
                    0 <= k < mdeep.len() ==> #[trigger] regs_has(
                        self.map.model().regs,
                        move_region(mdeep[k]),
                    ),
                self.settings == old(self).settings,
                self.output_buffer == old(self).output_buffer,
            decreases moves@.len() - t,
        {
            let ghost pre = self.map.model();
            let id = match &moves[t] {
                OpponentMoveValue::PlaceArmies(_, target, _) => *target,
                OpponentMoveValue::AttackTransfer(_, source, _, _) => *source,
            };
            proof {
                assert(mdeep[t as int] == moves@[t as int]@);
                assert(id == move_region(mdeep[t as int]));
                assert(regs_has(self.map.model().regs, move_region(mdeep[t as int])));
            }
            proof {
                assert(self.map.has_region(id));
            }
            self.map.mark_as_enemy(id);
            proof {
                assert(mdeep.subrange(0, t + 1).drop_last() =~= mdeep.subrange(0, t as int));
                assert(mdeep.subrange(0, t + 1).last() == mdeep[t as int]);
                assert forall|k: int| 0 <= k < mdeep.len() implies #[trigger] regs_has(
                    self.map.model().regs,
                    move_region(mdeep[k]),
                ) by {
                    assert(regs_has(pre.regs, move_region(mdeep[k])));
                    let w = choose|x: int|
                        0 <= x < pre.regs.len() && #[trigger] pre.regs[x].id == move_region(
                            mdeep[k],
                        );
                    assert(self.map.model().regs[w].id == move_region(mdeep[k]));
                }
            }
            t = t + 1;
        }
        proof {
            assert(mdeep.subrange(0, mdeep.len() as int) =~= mdeep);
        }
    }
}


/// Every joined line of positive length makes a response of positive
/// length.
proof fn lemma_join_lines_nonempty(lines: Seq<Seq<char>>)
    requires
        lines.len() > 0,
        forall|i: int| 0 <= i < lines.len() ==> (#[trigger] lines[i]).len() > 0,
    ensures
        join_lines(lines).len() > 0,
{
    if lines.len() == 1 {
        assert(lines[0].len() > 0);
    } else {
        assert(join_lines(lines).len() >= lines.last().len());
    }
}

/// A placement directive is never empty.
proof fn lemma_place_line_nonempty(name: Seq<char>, id: u64)
    ensures
        place_line(name, id).len() > 0,
{
    reveal_strlit(" place_armies ");
}

/// An attack directive is never empty.
proof fn lemma_attack_line_nonempty(name: Seq<char>, src: u64, tgt: u64)
    ensures
        attack_line(name, src, tgt).len() > 0,
{
    reveal_strlit(" attack/transfer ");
}

/// Every placement directive in a batch is nonempty.
proof fn lemma_place_lines_nonempty(name: Seq<char>, regs: Seq<SpecRegion>, idxs: Seq<usize>)
    ensures
        forall|i: int|
            0 <= i < place_lines(name, regs, idxs).len() ==> (#[trigger] place_lines(
                name,
                regs,
                idxs,
            )[i]).len() > 0,
    decreases idxs.len(),
{
    if idxs.len() > 0 {
        lemma_place_lines_nonempty(name, regs, idxs.drop_last());
        lemma_place_line_nonempty(name, regs[idxs.last() as int].id);
        let lines = place_lines(name, regs, idxs);
        let prev = place_lines(name, regs, idxs.drop_last());
        assert forall|i: int| 0 <= i < lines.len() implies (#[trigger] lines[i]).len() > 0 by {
            if i < lines.len() - 1 {
                assert(lines[i] == prev[i]);
            } else {
                assert(lines[i] == place_line(name, regs[idxs.last() as int].id));
            }
        }
    }
}

/// Every attack directive in a batch is nonempty.
proof fn lemma_attack_lines_nonempty(name: Seq<char>, srcs: Seq<SpecRegion>, tgts: Seq<u64>)
    ensures
        forall|i: int|
            0 <= i < attack_lines(name, srcs, tgts).len() ==> (#[trigger] attack_lines(
                name,
                srcs,
                tgts,
            )[i]).len() > 0,
    decreases tgts.len(),
{
    if tgts.len() > 0 {
        lemma_attack_lines_nonempty(name, srcs.drop_last(), tgts.drop_last());
        lemma_attack_line_nonempty(name, srcs.last().id, tgts.last());
        let lines = attack_lines(name, srcs, tgts);
        let prev = attack_lines(name, srcs.drop_last(), tgts.drop_last());
        assert forall|i: int| 0 <= i < lines.len() implies (#[trigger] lines[i]).len() > 0 by {
            if i < lines.len() - 1 {
                assert(lines[i] == prev[i]);
            } else {
                assert(lines[i] == attack_line(name, srcs.last().id, tgts.last()));
            }
        }
    }
}

/// A placement batch has one directive per chosen index.
proof fn lemma_place_lines_len(name: Seq<char>, regs: Seq<SpecRegion>, idxs: Seq<usize>)
    ensures
        place_lines(name, regs, idxs).len() == idxs.len(),
    decreases idxs.len(),
{
    if idxs.len() > 0 {
        lemma_place_lines_len(name, regs, idxs.drop_last());
    }
}

/// An attack batch has one directive per chosen target.
proof fn lemma_attack_lines_len(name: Seq<char>, srcs: Seq<SpecRegion>, tgts: Seq<u64>)
    ensures
        attack_lines(name, srcs, tgts).len() == tgts.len(),
    decreases tgts.len(),
{
    if tgts.len() > 0 {
        lemma_attack_lines_len(name, srcs.drop_last(), tgts.drop_last());
    }
}

/// Writes one placement directive.
fn build_place_line(name: &str, id: u64) -> (r: String)
    ensures
        r@ == place_line(name@, id),
{
    let mut l = name.to_owned();
    l.append(" place_armies ");
    let num = u64_to_string(id);
    l.append(num.as_str());
    l.append(" 1");
    l
}

/// Writes one attack-or-transfer directive.
fn build_attack_line(name: &str, src: u64, tgt: u64) -> (r: String)
    ensures
        r@ == attack_line(name@, src, tgt),
{
    let mut l = name.to_owned();
    l.append(" attack/transfer ");
    let num = u64_to_string(src);
    l.append(num.as_str());
    l.append(" ");
    let num2 = u64_to_string(tgt);
    l.append(num2.as_str());
    l.append(" 3");
    l
}

impl Bot {
    /// Answers a `pick_starting_region` line: the first candidate whose
    /// bonus-per-army score strictly beats every earlier one, or region 0
    /// when none scores above zero.
    fn respond_pick(&mut self, ids: &Vec<u64>)
        requires
            old(self).map_wf(),
            pick_pre(old(self).map_model(), ids@),
            old(self).buffer() == Seq::<char>::empty(),
        ensures
            final(self).map_wf(),
            final(self).map_model() == old(self).map_model(),
            final(self).store() == old(self).store(),
            final(self).buffer() == u64_digits(
                spec_pick_choice(old(self).map_model(), ids@) as nat,
            ),
            final(self).buffer().len() > 0,
    {
        let ghost m = self.map_model();
        let mut best_n: u64 = 0;
        let mut best_d: u64 = 1;
        let mut choice: u64 = 0;
        let mut t: usize = 0;
        proof {
            assert(ids@.skip(0) =~= ids@);
        }
        while t < ids.len()
            invariant
                0 <= t <= ids@.len(),
                m == self.map_model(),
                self.map.wf(),
                pick_pre(m, ids@),
                spec_pick_choice(m, ids@) == pick_loop(
                    m,
                    ids@.skip(t as int),
                    best_n,
                    best_d as int,
                    choice,
                ),
                self.settings == old(self).settings,
                self.output_buffer == old(self).output_buffer,
            decreases ids@.len() - t,
        {
            let id = ids[t];
            proof {
                assert(regs_has(m.regs, ids@[t as int]));
            }
            let score = self.map.starting_pick_value(id);
            proof {
                assert(ids@.skip(t as int)[0] == ids@[t as int]);
                assert(ids@.skip(t as int).drop_first() =~= ids@.skip(t + 1));
                assert(region_score(m, ids@[t as int]) == (score.0, score.1 as int));
            }
            if score_gt(score.0, score.1, best_n, best_d) {
                best_n = score.0;
                best_d = score.1;
                choice = id;
            }
            t = t + 1;
        }
        proof {
            assert(ids@.skip(ids@.len() as int) =~= Seq::<u64>::empty());
        }
        let response = u64_to_string(choice);
        let line = self.queue(response);
        self.output_buffer = line;
    }

    /// Answers a `go place_armies` line: one army on each of a random
    /// sample of ally regions, or the literal `No moves` when no ally
    /// region exists.
    fn respond_place_armies(&mut self)
        requires
            old(self).map_wf(),
            old(self).buffer() == Seq::<char>::empty(),
        ensures
            final(self).map_wf(),
            final(self).map_model() == old(self).map_model(),
            final(self).store() == old(self).store(),
            allies_of(old(self).map_model().regs).len() == 0 ==> final(self).buffer()
                == "No moves"@,
            allies_of(old(self).map_model().regs).len() > 0 ==> (exists|idxs: Seq<usize>|
                sample_ok(
                    idxs,
                    allies_of(old(self).map_model().regs).len() as int,
                    place_count(
                        old(self).store().record.starting_armies,
                        allies_of(old(self).map_model().regs).len() as int,
                    ),
                ) && final(self).buffer() == join_lines(
                    place_lines(
                        old(self).store().record.name,
                        allies_of(old(self).map_model().regs),
                        idxs,
                    ),
                )),
            final(self).buffer().len() > 0,
    {
        let ghost m = self.map_model();
        let ghost als = allies_of(m.regs);
        let ghost rec = self.store().record;
        let regions = self.map.allies();
        proof {
            assert(regions@.map_values(|x: Region| x@).len() == als.len());
        }
        let n = regions.len();
        if n == 0 {
            let line = self.queue("No moves".to_owned());
            self.output_buffer = line;
            proof {
                reveal_strlit("No moves");
            }
            return ;
        }
        let starting_armies = self.settings.record().starting_armies;
        let k: usize = if starting_armies >= n as u64 {
            n
        } else if starting_armies == 0 {
            1
        } else {
            starting_armies as usize
        };
        proof {
            assert(k as int == place_count(rec.starting_armies, als.len() as int));
        }
        let mut rng = fresh_rng();
        let chosen = sample_indices(&mut rng, n, k);
        let mut t: usize = 0;
        proof {
            assert(chosen@.subrange(0, 0) =~= Seq::<usize>::empty());
        }
        while t < chosen.len()
            invariant
                0 <= t <= chosen@.len(),
                m == self.map_model(),
                self.map.wf(),
                als == allies_of(m.regs),
                rec == self.store().record,
                regions@.map_values(|x: Region| x@) == als,
                regions@.len() == als.len(),
                forall|i: int| 0 <= i < chosen@.len() ==> #[trigger] chosen@[i] < als.len(),
                self.output_buffer@ == join_lines(
                    place_lines(rec.name, als, chosen@.subrange(0, t as int)),
                ),
                t == 0 <==> self.output_buffer@.len() == 0,
                self.settings == old(self).settings,
            decreases chosen@.len() - t,
        {
            let ghost prefix = chosen@.subrange(0, t as int);
            let ghost prefix1 = chosen@.subrange(0, t + 1);
            let idx = chosen[t];
            let line = build_place_line(self.settings.record().name.as_str(), regions[idx].id);
            proof {
                assert(prefix1.drop_last() =~= prefix);
                assert(prefix1.last() == chosen@[t as int]);
                assert(regions@.map_values(|x: Region| x@)[idx as int] == regions@[idx as int]@);
                assert(als[idx as int].id == regions@[idx as int]@.id);
                let lines = place_lines(rec.name, als, prefix);
                let lines1 = place_lines(rec.name, als, prefix1);
                lemma_place_lines_len(rec.name, als, prefix);
                lemma_place_lines_len(rec.name, als, prefix1);
                assert(lines1 =~~= lines.push(
                    place_line(rec.name, als[chosen@[t as int] as int].id),
                ));
                assert(lines1.drop_last() =~= lines);
                assert(lines1.last() == place_line(rec.name, als[chosen@[t as int] as int].id));
                lemma_place_lines_nonempty(rec.name, als, prefix1);
                lemma_place_line_nonempty(rec.name, als[chosen@[t as int] as int].id);
                if t > 0 {
                    lemma_place_lines_nonempty(rec.name, als, prefix);
                    lemma_join_lines_nonempty(lines);
                }
            }
            let nb = self.queue(line);
            self.output_buffer = nb;
            proof {
                lemma_place_lines_len(rec.name, als, prefix1);
                lemma_place_lines_nonempty(rec.name, als, prefix1);
                lemma_join_lines_nonempty(place_lines(rec.name, als, prefix1));
            }
            t = t + 1;
        }
        proof {
            assert(chosen@.subrange(0, chosen@.len() as int) =~= chosen@);
            assert(sample_ok(chosen@, als.len() as int, place_count(
                rec.starting_armies,
                als.len() as int,
            )));
        }
    }

    /// Answers a `go attack/transfer` line: every ally region with a
    /// garrison of at least four moves three armies onto one random
    /// neighbor, or the literal `No moves` when no region qualifies.
    fn respond_attack_transfer(&mut self)
        requires
            old(self).map_wf(),
            old(self).buffer() == Seq::<char>::empty(),
        ensures
            final(self).map_wf(),
            final(self).map_model() == old(self).map_model(),
            final(self).store() == old(self).store(),
            attack_sources(allies_of(old(self).map_model().regs)).len() == 0 ==> final(self).buffer() == "No moves"@,
            attack_sources(allies_of(old(self).map_model().regs)).len() > 0 ==> (exists|
                tgts: Seq<u64>,
            |
                valid_targets(attack_sources(allies_of(old(self).map_model().regs)), tgts)
                    && final(self).buffer() == join_lines(
                    attack_lines(
                        old(self).store().record.name,
                        attack_sources(allies_of(old(self).map_model().regs)),
                        tgts,
                    ),
                )),
            final(self).buffer().len() > 0,
    {
        let ghost m = self.map_model();
        let ghost als = allies_of(m.regs);
        let ghost rec = self.store().record;
        let regions = self.map.allies();
        let mut rng = fresh_rng();
        let ghost mut tgts: Seq<u64> = Seq::empty();
        let mut j: usize = 0;
        proof {
            assert(als.subrange(0, 0) =~= Seq::<SpecRegion>::empty());
            assert(tgts =~= Seq::<u64>::empty());
        }
        while j < regions.len()
            invariant
                0 <= j <= regions@.len(),
                m == self.map_model(),
                self.map.wf(),
                als == allies_of(m.regs),
                rec == self.store().record,
                regions@.map_values(|x: Region| x@) == als,
                regions@.len() == als.len(),
                tgts.len() == attack_sources(als.subrange(0, j as int)).len(),
                valid_targets(attack_sources(als.subrange(0, j as int)), tgts),
                self.output_buffer@ == join_lines(
                    attack_lines(rec.name, attack_sources(als.subrange(0, j as int)), tgts),
                ),
                attack_sources(als.subrange(0, j as int)).len() == 0 <==> self.output_buffer@.len()
                    == 0,
                self.settings == old(self).settings,
            decreases regions@.len() - j,
        {
            let ghost prefix = als.subrange(0, j as int);
            let ghost prefix1 = als.subrange(0, j + 1);
            proof {
                assert(prefix1.drop_last() =~= prefix);
                assert(prefix1.last() == als[j as int]);
                assert(regions@.map_values(|x: Region| x@)[j as int] == regions@[j as int]@);
            }
            let eligible = regions[j].armies >= 4 && regions[j].neighbor_ids.len() > 0;
            if eligible {
                let nblen = regions[j].neighbor_ids.len();
                let pick = sample_indices(&mut rng, nblen, 1);
                let target = regions[j].neighbor_ids[pick[0]];
                let line = build_attack_line(
                    self.settings.record().name.as_str(),
                    regions[j].id,
                    target,
                );
                let ghost oldbuf = self.output_buffer@;
                let nb = self.queue(line);
                self.output_buffer = nb;
                proof {
                    let sp = attack_sources(prefix);
                    let sp1 = attack_sources(prefix1);
                    assert(als[j as int] == regions@[j as int]@);
                    assert(als[j as int].armies >= 4 && als[j as int].neighbor_ids.len() > 0);
                    assert(sp1 =~= sp.push(als[j as int]));
                    assert(als[j as int].neighbor_ids[pick@[0] as int] == target);
                    assert(als[j as int].neighbor_ids.contains(target));
                    assert(sp1.drop_last() =~= sp);
                    assert(sp1.last() == als[j as int]);
                    assert(tgts.push(target).drop_last() =~= tgts);
                    let l = attack_line(rec.name, als[j as int].id, target);
                    assert(line@ == l);
                    lemma_attack_lines_len(rec.name, sp, tgts);
                    lemma_attack_lines_len(rec.name, sp1, tgts.push(target));
                    let lines = attack_lines(rec.name, sp, tgts);
                    let lines1 = attack_lines(rec.name, sp1, tgts.push(target));
                    assert(lines1 =~~= lines.push(l));
                    assert(lines1.drop_last() =~= lines);
                    assert(lines1.last() == l);
                    if sp.len() == 0 {
                        assert(oldbuf.len() == 0);
                        assert(lines1.len() == 1);
                        assert(join_lines(lines1) == lines1[0]);
                        assert(self.output_buffer@ == l);
                        assert(lines1[0] == l);
                    } else {
                        lemma_attack_lines_nonempty(rec.name, sp, tgts);
                        lemma_join_lines_nonempty(lines);
                        assert(oldbuf.len() > 0);
                        assert(join_lines(lines1) == join_lines(lines1.drop_last()) + " "@
                            + lines1.last());
                        assert(self.output_buffer@ == oldbuf + " "@ + l);
                        assert(oldbuf == join_lines(lines));
                    }
                    assert(self.output_buffer@ == join_lines(lines1));
                    tgts = tgts.push(target);
                    assert forall|i: int| 0 <= i < attack_sources(prefix1).len() implies (
                    #[trigger] attack_sources(prefix1)[i]).neighbor_ids.contains(tgts[i]) by {
                        if i < attack_sources(prefix1).len() - 1 {
                            assert(attack_sources(prefix1)[i] == attack_sources(prefix)[i]);
                            assert(tgts[i] == tgts.drop_last()[i]);
                        } else {
                            assert(attack_sources(prefix1)[i] == als[j as int]);
                        }
                    }
                    lemma_attack_lines_len(rec.name, attack_sources(prefix1), tgts);
                    lemma_attack_lines_nonempty(rec.name, attack_sources(prefix1), tgts);
                    lemma_join_lines_nonempty(
                        attack_lines(rec.name, attack_sources(prefix1), tgts),
                    );
                    assert(self.output_buffer@ == join_lines(
                        attack_lines(rec.name, attack_sources(prefix1), tgts),
                    ));
                }
            } else {
                proof {
                    assert(regions@[j as int]@ == als[j as int]);
                    assert(attack_sources(prefix1) =~= attack_sources(prefix));
                }
            }
            j = j + 1;
        }
        proof {
            assert(als.subrange(0, als.len() as int) =~= als);
        }
        if self.output_buffer.as_str().is_empty() {
            self.output_buffer = "No moves".to_owned();
            proof {
                reveal_strlit("No moves");
            }
        }
    }
}


/// What a valid `go place_armies` response looks like: the literal
/// `No moves` with no ally regions, else the placement directives of some
/// admissible sample of ally regions, joined into one line.
pub open spec fn place_response_ok(m: MapModel, rec: SpecSettingsRecord, resp: Seq<char>) -> bool {
    if allies_of(m.regs).len() == 0 {
        resp == "No moves"@
    } else {
        exists|idxs: Seq<usize>|
            sample_ok(
                idxs,
                allies_of(m.regs).len() as int,
                place_count(rec.starting_armies, allies_of(m.regs).len() as int),
            ) && resp == join_lines(place_lines(rec.name, allies_of(m.regs), idxs))
    }
}

/// What a valid `go attack/transfer` response looks like: the literal
/// `No moves` with no qualifying region, else one directive per qualifying
/// ally region, each at some neighbor of its source, joined into one line.
pub open spec fn attack_response_ok(m: MapModel, rec: SpecSettingsRecord, resp: Seq<char>) -> bool {
    let srcs = attack_sources(allies_of(m.regs));
    if srcs.len() == 0 {
        resp == "No moves"@
    } else {
        exists|tgts: Seq<u64>|
            valid_targets(srcs, tgts) && resp == join_lines(attack_lines(rec.name, srcs, tgts))
    }
}

impl Bot {
    /// Whether this line can be processed from the current state: it either
    /// fails to parse (and will be dropped), or references only registered
    /// ids and resolvable owner names.
    pub open spec fn line_ok(self, line: Seq<char>) -> bool {
        match spec_parse(line) {
            Ok(msg) => msg_pre(self.map_model(), self.store().record, msg),
            Err(_) => true,
        }
    }

    /// Consumes one protocol line.
    ///
    /// A line that fails to parse is dropped: no state changes and no
    /// response is produced.  A parsed command mutates the settings store
    /// or the world model exactly as its message describes, and exactly the
    /// response-expecting commands (`pick_starting_region`,
    /// `go place_armies`, `go attack/transfer`) produce a response line.
    pub fn read_line(&mut self, line: String) -> (r: Option<String>)
        requires
            old(self).wf(),
            old(self).line_ok(line@),
        ensures
            final(self).wf(),
            (match spec_parse(line@) {
                Err(_) => final(self).map_model() == old(self).map_model() && final(self).store()
                    == old(self).store() && r is None,
                Ok(msg) => match msg {
                    SpecMessage::Settings(v) => final(self).store() == spec_store_apply(
                        old(self).store(),
                        v,
                    ) && final(self).map_model() == old(self).map_model() && r is None,
                    SpecMessage::SetupMap(v) => final(self).map_model() == m_setup(
                        old(self).map_model(),
                        v,
                    ) && final(self).store() == old(self).store() && r is None,
                    SpecMessage::UpdateMap(triples) => final(self).map_model() == m_update_fog(
                        m_update_triples(
                            old(self).map_model(),
                            old(self).store().record,
                            triples,
                        ),
                        triple_ids(triples),
                    ) && final(self).store() == old(self).store() && r is None,
                    SpecMessage::OpponentMoves(moves) => final(self).map_model() == m_mark_moves(
                        old(self).map_model(),
                        moves,
                    ) && final(self).store() == old(self).store() && r is None,
                    SpecMessage::PickStartingRegion(_, ids) => final(self).map_model() == old(
                        self,
                    ).map_model() && final(self).store() == old(self).store() && (r matches Some(s)
                        && s@ == u64_digits(spec_pick_choice(old(self).map_model(), ids) as nat)),
                    SpecMessage::GoPlaceArmies(_) => final(self).map_model() == old(
                        self,
                    ).map_model() && final(self).store() == old(self).store() && (r matches Some(s)
                        && place_response_ok(old(self).map_model(), old(self).store().record, s@)),
                    SpecMessage::GoAttackTransfer(_) => final(self).map_model() == old(
                        self,
                    ).map_model() && final(self).store() == old(self).store() && (r matches Some(s)
                        && attack_response_ok(old(self).map_model(), old(self).store().record, s@)),
                },
            }),
    {
        let ghost sp = spec_parse(line@);
        match parse(line) {
            Err(_) => None,
            Ok(message) => {
                match message {
                    Message::SetupMap(v) => {
                        proof {
                            assert(sp->Ok_0 == SpecMessage::SetupMap(v@));
                        }
                        self.process_map_message(v);
                        self.take_response()
                    },
                    Message::Settings(v) => {
                        proof {
                            assert(sp->Ok_0 == SpecMessage::Settings(v@));
                        }
                        self.process_settings(v);
                        self.take_response()
                    },
                    Message::UpdateMap(regions) => {
                        proof {
                            assert(sp->Ok_0 == SpecMessage::UpdateMap(regions.deep_view()));
                        }
                        self.process_update_map(regions);
                        self.take_response()
                    },
                    Message::OpponentMoves(moves) => {
                        proof {
                            assert(sp->Ok_0 == SpecMessage::OpponentMoves(
                                moves@.map_values(|x: OpponentMoveValue| x@),
                            ));
                        }
                        self.process_opponent_moves(moves);
                        self.take_response()
                    },
                    Message::PickStartingRegion(_, ids) => {
                        proof {
                            assert(sp->Ok_0 is PickStartingRegion);
                            assert(sp->Ok_0->PickStartingRegion_1 == ids@);
                        }
                        self.respond_pick(&ids);
                        self.take_response()
                    },
                    Message::GoPlaceArmies(_) => {
                        proof {
                            assert(sp->Ok_0 is GoPlaceArmies);
                        }
                        self.respond_place_armies();
                        self.take_response()
                    },
                    Message::GoAttackTransfer(_) => {
                        proof {
                            assert(sp->Ok_0 is GoAttackTransfer);
                        }
                        self.respond_attack_transfer();
                        self.take_response()
                    },
                }
            },
        }
    }

    /// Decides [`Bot::read_line`]'s precondition for any line from the
    /// current state, so that the embedding loop can refuse a desynced line
    /// loudly instead of corrupting the model.
    pub fn can_process(&self, line: &str) -> (b: bool)
        requires
            self.map_wf(),
        ensures
            b == self.line_ok(line@),
    {
        let ghost m = self.map_model();
        let ghost rec = self.store().record;
        match parse(line.to_owned()) {
            Err(_) => true,
            Ok(message) => match &message {
                Message::Settings(_) => true,
                Message::GoPlaceArmies(_) => true,
                Message::GoAttackTransfer(_) => true,
                Message::SetupMap(v) => match v {
                    SetupMapValue::SuperRegions(_) => true,
                    SetupMapValue::Regions(pairs) => {
                        proof {
                            assert(message@ == SpecMessage::SetupMap(
                                SpecSetupMap::Regions(pairs@),
                            ));
                        }
                        let mut k: usize = 0;
                        while k < pairs.len()
                            invariant
                                0 <= k <= pairs@.len(),
                                m == self.map_model(),
                                self.line_ok(line@) == regions_pre(m, pairs@),
                                forall|x: int|
                                    0 <= x < k ==> #[trigger] srs_has(m.srs, pairs@[x].1),
                            decreases pairs@.len() - k,
                        {
                            if !self.map.contains_super_region(pairs[k].1) {
                                proof {
                                    assert(!srs_has(m.srs, pairs@[k as int].1));
                                    assert(!regions_pre(m, pairs@));
                                }
                                return false;
                            }
                            k = k + 1;
                        }
                        proof {
                            assert forall|x: int| 0 <= x < pairs@.len() implies #[trigger] srs_has(
                                m.srs,
                                pairs@[x].1,
                            ) by {
                            }
                            assert(regions_pre(m, pairs@));
                        }
                        true
                    },
                    SetupMapValue::Neighbors(list) => {
                        let ghost deep = list.deep_view();
                        proof {
                            assert(message@ == SpecMessage::SetupMap(
                                SpecSetupMap::Neighbors(deep),
                            ));
                            assert(deep.len() == list@.len());
                            assert(forall|x: int|
                                0 <= x < list@.len() ==> #[trigger] deep[x] == (
                                list@[x].0,
                                list@[x].1@,
                                ));
                        }
                        let mut k: usize = 0;
                        while k < list.len()
                            invariant
                                0 <= k <= list@.len(),
                                m == self.map_model(),
                                self.line_ok(line@) == neighbors_pre(m, deep),
                                deep == list.deep_view(),
                                deep.len() == list@.len(),
                                forall|x: int|
                                    0 <= x < list@.len() ==> #[trigger] deep[x] == (
                                    list@[x].0,
                                    list@[x].1@,
                                    ),
                                forall|x: int|
                                    0 <= x < k ==> #[trigger] regs_has(m.regs, deep[x].0),
                                forall|x: int, u: int|
                                    0 <= x < k && 0 <= u < deep[x].1.len() ==> #[trigger] regs_has(
                                        m.regs,
                                        deep[x].1[u],
                                    ),
                            decreases list@.len() - k,
                        {
                            let entry = &list[k];
                            if !self.map.contains_region(entry.0) {
                                proof {
                                    assert(!regs_has(m.regs, deep[k as int].0));
                                    assert(!neighbors_pre(m, deep));
                                }
                                return false;
                            }
                            let mut u: usize = 0;
                            while u < entry.1.len()
                                invariant
                                    0 <= u <= entry.1@.len(),
                                    m == self.map_model(),
                                    self.line_ok(line@) == neighbors_pre(m, deep),
                                    entry.1@ == deep[k as int].1,
                                    k < deep.len(),
                                    forall|y: int|
                                        0 <= y < u ==> #[trigger] regs_has(
                                            m.regs,
                                            deep[k as int].1[y],
                                        ),
                                decreases entry.1@.len() - u,
                            {
                                if !self.map.contains_region(entry.1[u]) {
                                    proof {
                                        assert(!regs_has(m.regs, deep[k as int].1[u as int]));
                                        assert(!neighbors_pre(m, deep));
                                    }
                                    return false;
                                }
                                u = u + 1;
                            }
                            k = k + 1;
                        }
                        proof {
                            assert(neighbors_pre(m, deep));
                        }
                        true
                    },
                    SetupMapValue::Wastelands(ids) => {
                        proof {
                            assert(message@ == SpecMessage::SetupMap(
                                SpecSetupMap::Wastelands(ids@),
                            ));
                        }
                        self.check_ids(ids)
                    },
                    SetupMapValue::OpponentStartingRegions(ids) => {
                        proof {
                            assert(message@ == SpecMessage::SetupMap(
                                SpecSetupMap::OpponentStartingRegions(ids@),
                            ));
                        }
                        self.check_ids(ids)
                    },
                },
                Message::UpdateMap(regions) => {
                    let ghost deep = regions.deep_view();
                    proof {
                        assert(message@ == SpecMessage::UpdateMap(deep));
                        assert(deep.len() == regions@.len());
                        assert(forall|x: int|
                            0 <= x < regions@.len() ==> #[trigger] deep[x] == (
                            regions@[x].0,
                            regions@[x].1@,
                            regions@[x].2,
                            ));
                    }
                    let mut k: usize = 0;
                    while k < regions.len()
                        invariant
                            0 <= k <= regions@.len(),
                            m == self.map_model(),
                            rec == self.store().record,
                            self.line_ok(line@) == update_pre(m, rec, deep),
                            deep == regions.deep_view(),
                            deep.len() == regions@.len(),
                            forall|x: int|
                                0 <= x < regions@.len() ==> #[trigger] deep[x] == (
                                regions@[x].0,
                                regions@[x].1@,
                                regions@[x].2,
                                ),
                            forall|x: int|
                                0 <= x < k ==> #[trigger] regs_has(m.regs, deep[x].0)
                                    && spec_owner_of(rec, deep[x].1) is Some,
                        decreases regions@.len() - k,
                    {
                        if !self.map.contains_region(regions[k].0) {
                            proof {
                                assert(!regs_has(m.regs, deep[k as int].0));
                                assert(!update_pre(m, rec, deep));
                            }
                            return false;
                        }
                        match self.name_to_owner_value(&regions[k].1) {
                            Ok(_) => {
                            },
                            Err(_) => {
                                proof {
                                    assert(spec_owner_of(rec, deep[k as int].1) is None);
                                    assert(!update_pre(m, rec, deep));
                                }
                                return false;
                            },
                        }
                        k = k + 1;
                    }
                    proof {
                        assert(update_pre(m, rec, deep));
                    }
                    true
                },
                Message::OpponentMoves(moves) => {
                    let ghost mdeep = moves@.map_values(|x: OpponentMoveValue| x@);
                    proof {
                        assert(message@ == SpecMessage::OpponentMoves(mdeep));
                    }
                    let mut k: usize = 0;
                    while k < moves.len()
                        invariant
                            0 <= k <= moves@.len(),
                            m == self.map_model(),
                            self.line_ok(line@) == moves_pre(m, mdeep),
                            mdeep == moves@.map_values(|x: OpponentMoveValue| x@),
                            mdeep.len() == moves@.len(),
                            forall|x: int|
                                0 <= x < k ==> #[trigger] regs_has(m.regs, move_region(mdeep[x])),
                        decreases moves@.len() - k,
                    {
                        let id = match &moves[k] {
                            OpponentMoveValue::PlaceArmies(_, target, _) => *target,
                            OpponentMoveValue::AttackTransfer(_, source, _, _) => *source,
                        };
                        proof {
                            assert(mdeep[k as int] == moves@[k as int]@);
                            assert(id == move_region(mdeep[k as int]));
                        }
                        if !self.map.contains_region(id) {
                            proof {
                                assert(!regs_has(m.regs, move_region(mdeep[k as int])));
                                assert(!moves_pre(m, mdeep));
                            }
                            return false;
                        }
                        k = k + 1;
                    }
                    proof {
                        assert(moves_pre(m, mdeep));
                    }
                    true
                },
                Message::PickStartingRegion(_, ids) => {
                    proof {
                        assert(message@ is PickStartingRegion);
                        assert(message@->PickStartingRegion_1 == ids@);
                    }
                    self.check_pick(ids)
                },
            },
        }
    }

    /// Whether every pick candidate names a registered region whose
    /// super-region is registered and whose army total fits in 64 bits.
    fn check_pick(&self, ids: &Vec<u64>) -> (b: bool)
        requires
            self.map_wf(),
        ensures
            b == pick_pre(self.map_model(), ids@),
    {
        let ghost m = self.map_model();
        let mut k: usize = 0;
        while k < ids.len()
            invariant
                0 <= k <= ids@.len(),
                m == self.map_model(),
                self.map.wf(),
                forall|x: int|
                    0 <= x < k ==> #[trigger] regs_has(m.regs, ids@[x]) && srs_has(
                        m.srs,
                        m.regs[regs_idx(m.regs, ids@[x])].super_region_id,
                    ) && sum_armies(
                        m.regs,
                        m.srs[srs_idx(
                            m.srs,
                            m.regs[regs_idx(m.regs, ids@[x])].super_region_id,
                        )].region_ids,
                    ) <= u64::MAX,
            decreases ids@.len() - k,
        {
            let id = ids[k];
            if !self.map.contains_region(id) {
                proof {
                    assert(!regs_has(m.regs, ids@[k as int]));
                    assert(!pick_pre(m, ids@));
                }
                return false;
            }
            let srid = self.map.super_region_id_of(id);
            if !self.map.contains_super_region(srid) {
                proof {
                    assert(!srs_has(
                        m.srs,
                        m.regs[regs_idx(m.regs, ids@[k as int])].super_region_id,
                    ));
                    assert(!pick_pre(m, ids@));
                }
                return false;
            }
            if !self.map.super_armies_fit(id) {
                proof {
                    assert(regs_has(m.regs, ids@[k as int]));
                    assert(sum_armies(
                        m.regs,
                        m.srs[srs_idx(
                            m.srs,
                            m.regs[regs_idx(m.regs, ids@[k as int])].super_region_id,
                        )].region_ids,
                    ) > u64::MAX);
                    assert(!pick_pre(m, ids@));
                }
                return false;
            }
            proof {
                assert(regs_has(m.regs, ids@[k as int]));
                assert(srs_has(m.srs, m.regs[regs_idx(m.regs, ids@[k as int])].super_region_id));
                assert(sum_armies(
                    m.regs,
                    m.srs[srs_idx(
                        m.srs,
                        m.regs[regs_idx(m.regs, ids@[k as int])].super_region_id,
                    )].region_ids,
                ) <= u64::MAX);
                assert forall|x: int| 0 <= x < k + 1 implies #[trigger] regs_has(m.regs, ids@[x])
                    && srs_has(m.srs, m.regs[regs_idx(m.regs, ids@[x])].super_region_id)
                    && sum_armies(
                    m.regs,
                    m.srs[srs_idx(
                        m.srs,
                        m.regs[regs_idx(m.regs, ids@[x])].super_region_id,
                    )].region_ids,
                ) <= u64::MAX by {
                    if x < k {
                        assert(regs_has(m.regs, ids@[x]));
                    }
                }
            }
            k = k + 1;
        }
        proof {
            assert forall|x: int| 0 <= x < ids@.len() implies #[trigger] regs_has(m.regs, ids@[x])
                && srs_has(m.srs, m.regs[regs_idx(m.regs, ids@[x])].super_region_id) && sum_armies(
                m.regs,
                m.srs[srs_idx(
                    m.srs,
                    m.regs[regs_idx(m.regs, ids@[x])].super_region_id,
                )].region_ids,
            ) <= u64::MAX by {
                assert(regs_has(m.regs, ids@[x]));
            }
            assert(pick_pre(m, ids@));
        }
        true
    }

    /// Whether every id of a flat list names a registered region.
    fn check_ids(&self, ids: &Vec<u64>) -> (b: bool)
        ensures
            b == ids_pre(self.map_model(), ids@),
    {
        let ghost m = self.map_model();
        let mut k: usize = 0;
        while k < ids.len()
            invariant
                0 <= k <= ids@.len(),
                m == self.map_model(),
                forall|x: int| 0 <= x < k ==> #[trigger] regs_has(m.regs, ids@[x]),
            decreases ids@.len() - k,
        {
            if !self.map.contains_region(ids[k]) {
                proof {
                    assert(!regs_has(m.regs, ids@[k as int]));
                    assert(!ids_pre(m, ids@));
                }
                return false;
            }
            k = k + 1;
        }
        proof {
            assert(ids_pre(m, ids@));
        }
        true
    }
}

} // verus!
