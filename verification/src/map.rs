//! The world model: regions, super-regions, ownership, adjacency, and the
//! fog-of-war rule.
//!
//! Regions and super-regions are created during map setup and never deleted.
//! Callers of the mutating operations must supply previously registered ids:
//! an unregistered id is a protocol-desync programming error, which these
//! operations exclude by precondition rather than recover from.

use vstd::prelude::*;
use vstd::pervasive::VecAdditionalExecFns;

verus! {

/// The garrison a wasteland region is forced to.
pub const WASTELAND_ARMIES: u64 = 6;

/// The garrison a freshly registered region starts with.
pub const INITIAL_ARMIES: u64 = 2;

/// Who holds a region.
#[derive(PartialEq, Eq, Structural, Clone, Copy, Debug)]
pub enum OwnerValue {
    Ally,
    Enemy,
    Neutral,
}

/// A cluster of regions granting a bonus to a player controlling all of it.
#[derive(Debug)]
pub struct SuperRegion {
    pub id: u64,
    pub value: u64,
    pub region_ids: Vec<u64>,
}

/// An atomic map territory.
#[derive(Debug)]
pub struct Region {
    pub id: u64,
    pub super_region_id: u64,
    pub neighbor_ids: Vec<u64>,
    pub armies: u64,
    pub owner: OwnerValue,
}

/// The mathematical value of a [`SuperRegion`].
pub struct SpecSuperRegion {
    pub id: u64,
    pub value: u64,
    pub region_ids: Seq<u64>,
}

/// The mathematical value of a [`Region`].
pub struct SpecRegion {
    pub id: u64,
    pub super_region_id: u64,
    pub neighbor_ids: Seq<u64>,
    pub armies: u64,
    pub owner: OwnerValue,
}

impl View for SuperRegion {
    type V = SpecSuperRegion;

    open spec fn view(&self) -> SpecSuperRegion {
        SpecSuperRegion { id: self.id, value: self.value, region_ids: self.region_ids@ }
    }
}

impl View for Region {
    type V = SpecRegion;

    open spec fn view(&self) -> SpecRegion {
        SpecRegion {
            id: self.id,
            super_region_id: self.super_region_id,
            neighbor_ids: self.neighbor_ids@,
            armies: self.armies,
            owner: self.owner,
        }
    }
}

/// The mutable graph of regions and super-regions.
#[derive(Debug)]
pub struct GameMap {
    super_regions: Vec<SuperRegion>,
    regions: Vec<Region>,
}

/// The ids appended to one region's adjacency list by the first half of
/// [`GameMap::add_region_neighbors`]: one copy of `id` for every occurrence
/// of that region's own id in `neighbor_ids`.
pub open spec fn appended_ids(neighbor_ids: Seq<u64>, target: u64, id: u64) -> Seq<u64>
    decreases neighbor_ids.len(),
{
    if neighbor_ids.len() == 0 {
        Seq::empty()
    } else {
        appended_ids(neighbor_ids.drop_last(), target, id) + (if neighbor_ids.last() == target {
            seq![id]
        } else {
            Seq::empty()
        })
    }
}

/// Whether a region with this id stands in the list.
pub open spec fn regs_has(regs: Seq<SpecRegion>, id: u64) -> bool {
    exists|i: int| 0 <= i < regs.len() && #[trigger] regs[i].id == id
}

/// The position of the region with this id.
pub open spec fn regs_idx(regs: Seq<SpecRegion>, id: u64) -> int {
    choose|i: int| 0 <= i < regs.len() && #[trigger] regs[i].id == id
}

/// Whether a super-region with this id stands in the list.
pub open spec fn srs_has(srs: Seq<SpecSuperRegion>, id: u64) -> bool {
    exists|i: int| 0 <= i < srs.len() && #[trigger] srs[i].id == id
}

/// The position of the super-region with this id.
pub open spec fn srs_idx(srs: Seq<SpecSuperRegion>, id: u64) -> int {
    choose|i: int| 0 <= i < srs.len() && #[trigger] srs[i].id == id
}

/// The mathematical value of a whole [`GameMap`].
#[verifier::ext_equal]
pub struct MapModel {
    pub srs: Seq<SpecSuperRegion>,
    pub regs: Seq<SpecRegion>,
}

/// What [`GameMap::add_super_region`] does to the model.
pub open spec fn m_add_super_region(m: MapModel, id: u64, value: u64) -> MapModel {
    let fresh = SpecSuperRegion { id, value, region_ids: Seq::empty() };
    if srs_has(m.srs, id) {
        MapModel { srs: m.srs.update(srs_idx(m.srs, id), fresh), ..m }
    } else {
        MapModel { srs: m.srs.push(fresh), ..m }
    }
}

/// What [`GameMap::add_region`] does to the model.
pub open spec fn m_add_region(m: MapModel, id: u64, super_region_id: u64) -> MapModel {
    let fresh = SpecRegion {
        id,
        super_region_id,
        neighbor_ids: Seq::empty(),
        armies: INITIAL_ARMIES,
        owner: OwnerValue::Neutral,
    };
    let k = srs_idx(m.srs, super_region_id);
    let srs = m.srs.update(
        k,
        SpecSuperRegion { region_ids: m.srs[k].region_ids.push(id), ..m.srs[k] },
    );
    if regs_has(m.regs, id) {
        MapModel { srs, regs: m.regs.update(regs_idx(m.regs, id), fresh) }
    } else {
        MapModel { srs, regs: m.regs.push(fresh) }
    }
}

/// What [`GameMap::add_region_neighbors`] does to the model.
pub open spec fn m_add_region_neighbors(m: MapModel, id: u64, neighbor_ids: Seq<u64>) -> MapModel {
    MapModel {
        regs: Seq::new(
            m.regs.len(),
            |j: int| (SpecRegion {
                neighbor_ids: m.regs[j].neighbor_ids + appended_ids(neighbor_ids, m.regs[j].id, id)
                    + (if m.regs[j].id == id {
                    neighbor_ids
                } else {
                    Seq::empty()
                }),
                ..m.regs[j]
            }),
        ),
        ..m
    }
}

/// What [`GameMap::upgrade_to_wasteland`] does to the model.
pub open spec fn m_upgrade_to_wasteland(m: MapModel, id: u64) -> MapModel {
    let k = regs_idx(m.regs, id);
    MapModel {
        regs: m.regs.update(
            k,
            SpecRegion { armies: WASTELAND_ARMIES, owner: OwnerValue::Neutral, ..m.regs[k] },
        ),
        ..m
    }
}

/// What [`GameMap::mark_as_enemy`] does to the model.
pub open spec fn m_mark_as_enemy(m: MapModel, id: u64) -> MapModel {
    let k = regs_idx(m.regs, id);
    MapModel {
        regs: m.regs.update(k, SpecRegion { owner: OwnerValue::Enemy, ..m.regs[k] }),
        ..m
    }
}

/// What [`GameMap::update_map`] does to the model.
pub open spec fn m_update_map(m: MapModel, id: u64, owner: OwnerValue, armies: u64) -> MapModel {
    let k = regs_idx(m.regs, id);
    MapModel { regs: m.regs.update(k, SpecRegion { owner, armies, ..m.regs[k] }), ..m }
}

/// What [`GameMap::update_fog`] does to the model.
pub open spec fn m_update_fog(m: MapModel, observed: Seq<u64>) -> MapModel {
    MapModel {
        regs: Seq::new(
            m.regs.len(),
            |j: int| (if m.regs[j].owner == OwnerValue::Ally && !observed.contains(m.regs[j].id) {
                SpecRegion { owner: OwnerValue::Enemy, ..m.regs[j] }
            } else {
                m.regs[j]
            }),
        ),
        ..m
    }
}

impl GameMap {
    /// The whole map as one mathematical value.
    pub open spec fn model(self) -> MapModel {
        MapModel { srs: self.srs(), regs: self.regs() }
    }

    /// The super-regions, in registration order.
    pub closed spec fn srs(self) -> Seq<SpecSuperRegion> {
        self.super_regions@.map_values(|s: SuperRegion| s@)
    }

    /// The regions, in registration order.
    pub closed spec fn regs(self) -> Seq<SpecRegion> {
        self.regions@.map_values(|r: Region| r@)
    }

    /// Well-formedness: region ids and super-region ids are unique.
    pub open spec fn wf(self) -> bool {
        (forall|i: int, j: int|
            0 <= i < j < self.regs().len() ==> #[trigger] self.regs()[i].id != #[trigger] self.regs()[j].id)
            && (forall|i: int, j: int|
            0 <= i < j < self.srs().len() ==> #[trigger] self.srs()[i].id
                != #[trigger] self.srs()[j].id)
    }

    /// Whether a region with this id is registered.
    pub open spec fn has_region(self, id: u64) -> bool {
        regs_has(self.regs(), id)
    }

    /// The position of the region with this id.
    pub open spec fn region_idx(self, id: u64) -> int {
        regs_idx(self.regs(), id)
    }

    /// The region with this id.
    pub open spec fn region_of(self, id: u64) -> SpecRegion {
        self.regs()[self.region_idx(id)]
    }

    /// Whether a super-region with this id is registered.
    pub open spec fn has_super_region(self, id: u64) -> bool {
        srs_has(self.srs(), id)
    }

    /// The position of the super-region with this id.
    pub open spec fn super_region_idx(self, id: u64) -> int {
        srs_idx(self.srs(), id)
    }

    /// The super-region with this id.
    pub open spec fn super_region_of(self, id: u64) -> SpecSuperRegion {
        self.srs()[self.super_region_idx(id)]
    }

    /// In a well-formed map, a region's position is determined by its id.
    pub proof fn lemma_region_idx(self, i: int)
        requires
            self.wf(),
            0 <= i < self.regs().len(),
        ensures
            self.has_region(self.regs()[i].id),
            self.region_idx(self.regs()[i].id) == i,
    {
        let id = self.regs()[i].id;
        assert(self.has_region(id));
        let j = self.region_idx(id);
        assert(0 <= j < self.regs().len() && self.regs()[j].id == id);
        if i < j {
            assert(self.regs()[i].id != self.regs()[j].id);
        } else if j < i {
            assert(self.regs()[j].id != self.regs()[i].id);
        }
    }

    /// In a well-formed map, a super-region's position is determined by its
    /// id.
    pub proof fn lemma_super_region_idx(self, i: int)
        requires
            self.wf(),
            0 <= i < self.srs().len(),
        ensures
            self.has_super_region(self.srs()[i].id),
            self.super_region_idx(self.srs()[i].id) == i,
    {
        let id = self.srs()[i].id;
        assert(self.has_super_region(id));
        let j = self.super_region_idx(id);
        assert(0 <= j < self.srs().len() && self.srs()[j].id == id);
        if i < j {
            assert(self.srs()[i].id != self.srs()[j].id);
        } else if j < i {
            assert(self.srs()[j].id != self.srs()[i].id);
        }
    }

    /// An empty map.
    pub fn new() -> (r: GameMap)
        ensures
            r.wf(),
            r.srs() == Seq::<SpecSuperRegion>::empty(),
            r.regs() == Seq::<SpecRegion>::empty(),
    {
        let r = GameMap { super_regions: Vec::new(), regions: Vec::new() };
        proof {
            assert(r.srs() =~= Seq::<SpecSuperRegion>::empty());
            assert(r.regs() =~= Seq::<SpecRegion>::empty());
        }
        r
    }

    /// The position of the region with this id, if it is registered.
    fn find_region_index(&self, id: u64) -> (r: Option<usize>)
        ensures
            match r {
                Some(i) => 0 <= i < self.regs().len() && self.regs()[i as int].id == id,
                None => !self.has_region(id),
            },
    {
        let mut i: usize = 0;
        while i < self.regions.len()
            invariant
                0 <= i <= self.regions@.len(),
                self.regs().len() == self.regions@.len(),
                forall|j: int| 0 <= j < i ==> #[trigger] self.regs()[j].id != id,
                forall|j: int|
                    0 <= j < self.regions@.len() ==> #[trigger] self.regs()[j]
                        == self.regions@[j]@,
            decreases self.regions@.len() - i,
        {
            if self.regions[i].id == id {
                return Some(i);
            }
            i = i + 1;
        }
        None
    }

    /// The position of the super-region with this id, if it is registered.
    fn find_super_region_index(&self, id: u64) -> (r: Option<usize>)
        ensures
            match r {
                Some(i) => 0 <= i < self.srs().len() && self.srs()[i as int].id == id,
                None => !self.has_super_region(id),
            },
    {
        let mut i: usize = 0;
        while i < self.super_regions.len()
            invariant
                0 <= i <= self.super_regions@.len(),
                self.srs().len() == self.super_regions@.len(),
                forall|j: int| 0 <= j < i ==> #[trigger] self.srs()[j].id != id,
                forall|j: int|
                    0 <= j < self.super_regions@.len() ==> #[trigger] self.srs()[j]
                        == self.super_regions@[j]@,
            decreases self.super_regions@.len() - i,
        {
            if self.super_regions[i].id == id {
                return Some(i);
            }
            i = i + 1;
        }
        None
    }

    /// Registers a super-region, or replaces it wholesale (member list
    /// included) when the id is already registered.
    pub fn add_super_region(&mut self, id: u64, value: u64)
        requires
            old(self).wf(),
        ensures
            final(self).wf(),
            final(self).model() == m_add_super_region(old(self).model(), id, value),
            final(self).regs() == old(self).regs(),
            old(self).has_super_region(id) ==> final(self).srs() == old(self).srs().update(
                old(self).super_region_idx(id),
                SpecSuperRegion { id, value, region_ids: Seq::empty() },
            ),
            !old(self).has_super_region(id) ==> final(self).srs() == old(self).srs().push(
                SpecSuperRegion { id, value, region_ids: Seq::empty() },
            ),
    {
        let fresh = SuperRegion { id, value, region_ids: Vec::new() };
        proof {
            assert(fresh@ =~= SpecSuperRegion { id, value, region_ids: Seq::empty() });
        }
        match self.find_super_region_index(id) {
            Some(i) => {
                proof {
                    old(self).lemma_super_region_idx(i as int);
                }
                self.super_regions.set(i, fresh);
                proof {
                    assert(final(self).srs() =~= old(self).srs().update(i as int, fresh@));
                    assert(final(self).regs() =~= old(self).regs());
                }
            },
            None => {
                self.super_regions.push(fresh);
                proof {
                    assert(final(self).srs() =~= old(self).srs().push(fresh@));
                    assert(final(self).regs() =~= old(self).regs());
                }
            },
        }
        proof {
            assert(self.model() =~~= m_add_super_region(old(self).model(), id, value));
        }
    }

    /// Registers a region under its super-region, or replaces it wholesale
    /// when the id is already registered; either way the id is appended to
    /// the super-region's member list.
    pub fn add_region(&mut self, id: u64, super_region_id: u64)
        requires
            old(self).wf(),
            old(self).has_super_region(super_region_id),
        ensures
            final(self).wf(),
            final(self).model() == m_add_region(old(self).model(), id, super_region_id),
            old(self).has_region(id) ==> final(self).regs() == old(self).regs().update(
                old(self).region_idx(id),
                SpecRegion {
                    id,
                    super_region_id,
                    neighbor_ids: Seq::empty(),
                    armies: INITIAL_ARMIES,
                    owner: OwnerValue::Neutral,
                },
            ),
            !old(self).has_region(id) ==> final(self).regs() == old(self).regs().push(
                SpecRegion {
                    id,
                    super_region_id,
                    neighbor_ids: Seq::empty(),
                    armies: INITIAL_ARMIES,
                    owner: OwnerValue::Neutral,
                },
            ),
            final(self).srs() == old(self).srs().update(
                old(self).super_region_idx(super_region_id),
                SpecSuperRegion {
                    region_ids: old(self).super_region_of(super_region_id).region_ids.push(id),
                    ..old(self).super_region_of(super_region_id)
                },
            ),
    {
        let fresh = Region {
            id,
            super_region_id,
            neighbor_ids: Vec::new(),
            armies: INITIAL_ARMIES,
            owner: OwnerValue::Neutral,
        };
        proof {
            assert(fresh@ =~= SpecRegion {
                id,
                super_region_id,
                neighbor_ids: Seq::empty(),
                armies: INITIAL_ARMIES,
                owner: OwnerValue::Neutral,
            });
        }
        match self.find_region_index(id) {
            Some(i) => {
                proof {
                    old(self).lemma_region_idx(i as int);
                }
                self.regions.set(i, fresh);
                proof {
                    assert(self.regs() =~= old(self).regs().update(i as int, fresh@));
                    assert(self.srs() =~= old(self).srs());
                }
            },
            None => {
                self.regions.push(fresh);
                proof {
                    assert(self.regs() =~= old(self).regs().push(fresh@));
                    assert(self.srs() =~= old(self).srs());
                }
            },
        }
        let ghost mid = *self;
        let k = match self.find_super_region_index(super_region_id) {
            Some(k) => k,
            None => {
                proof {
                    assert(false);
                }
                unreached()
            },
        };
        proof {
            mid.lemma_super_region_idx(k as int);
            old(self).lemma_super_region_idx(k as int);
        }
        let sr = &self.super_regions[k];
        let mut member_ids = copy_ids(&sr.region_ids);
        member_ids.push(id);
        let updated = SuperRegion { id: sr.id, value: sr.value, region_ids: member_ids };
        let ghost updatedv = updated@;
        self.super_regions.set(k, updated);
        proof {
            assert(self.regs() =~= mid.regs());
            assert(self.srs() =~= mid.srs().update(k as int, updatedv));
            assert(self.srs() =~= old(self).srs().update(
                old(self).super_region_idx(super_region_id),
                SpecSuperRegion {
                    region_ids: old(self).super_region_of(super_region_id).region_ids.push(id),
                    ..old(self).super_region_of(super_region_id)
                },
            ));
            assert(self.model() =~~= m_add_region(old(self).model(), id, super_region_id));
        }
    }

    /// Inserts `id` into each listed neighbor's adjacency list, and the
    /// whole list into `id`'s own, in the same call: the neighbor relation
    /// stays symmetric.
    pub fn add_region_neighbors(&mut self, id: u64, neighbor_ids: Vec<u64>)
        requires
            old(self).wf(),
            old(self).has_region(id),
            forall|t: int|
                0 <= t < neighbor_ids@.len() ==> old(self).has_region(#[trigger] neighbor_ids@[t]),
        ensures
            final(self).wf(),
            final(self).model() == m_add_region_neighbors(old(self).model(), id, neighbor_ids@),
            final(self).srs() == old(self).srs(),
            final(self).regs().len() == old(self).regs().len(),
            forall|j: int|
                0 <= j < old(self).regs().len() ==> #[trigger] final(self).regs()[j] == (SpecRegion {
                    neighbor_ids: old(self).regs()[j].neighbor_ids + appended_ids(
                        neighbor_ids@,
                        old(self).regs()[j].id,
                        id,
                    ) + (if old(self).regs()[j].id == id {
                        neighbor_ids@
                    } else {
                        Seq::empty()
                    }),
                    ..old(self).regs()[j]
                }),
    {
        let mut t: usize = 0;
        while t < neighbor_ids.len()
            invariant
                0 <= t <= neighbor_ids@.len(),
                self.wf(),
                self.srs() == old(self).srs(),
                self.regs().len() == old(self).regs().len(),
                self.has_region(id),
                forall|u: int|
                    0 <= u < neighbor_ids@.len() ==> self.has_region(#[trigger] neighbor_ids@[u]),
                forall|j: int|
                    0 <= j < old(self).regs().len() ==> #[trigger] self.regs()[j] == (SpecRegion {
                        neighbor_ids: old(self).regs()[j].neighbor_ids + appended_ids(
                            neighbor_ids@.subrange(0, t as int),
                            old(self).regs()[j].id,
                            id,
                        ),
                        ..old(self).regs()[j]
                    }),
            decreases neighbor_ids@.len() - t,
        {
            let n = neighbor_ids[t];
            let k = match self.find_region_index(n) {
                Some(k) => k,
                None => {
                    proof {
                        assert(false);
                    }
                    unreached()
                },
            };
            let reg = &self.regions[k];
            let mut nb = copy_ids(&reg.neighbor_ids);
            nb.push(id);
            let updated = Region {
                id: reg.id,
                super_region_id: reg.super_region_id,
                neighbor_ids: nb,
                armies: reg.armies,
                owner: reg.owner,
            };
            let ghost pre = *self;
            self.regions.set(k, updated);
            proof {
                assert(self.regs() =~= pre.regs().update(
                    k as int,
                    SpecRegion {
                        neighbor_ids: pre.regs()[k as int].neighbor_ids.push(id),
                        ..pre.regs()[k as int]
                    },
                ));
                let prefix = neighbor_ids@.subrange(0, t as int);
                let prefix1 = neighbor_ids@.subrange(0, t + 1);
                assert(prefix1.drop_last() =~= prefix);
                assert(prefix1.last() == n);
                assert forall|j: int| 0 <= j < old(self).regs().len() implies #[trigger] self.regs()[j]
                    == SpecRegion {
                    neighbor_ids: old(self).regs()[j].neighbor_ids + appended_ids(
                        prefix1,
                        old(self).regs()[j].id,
                        id,
                    ),
                    ..old(self).regs()[j]
                } by {
                    if j == k as int {
                        assert(old(self).regs()[j].id == n);
                        assert(appended_ids(prefix1, n, id) =~= appended_ids(prefix, n, id)
                            + seq![id]);
                        assert(self.regs()[j].neighbor_ids =~= old(self).regs()[j].neighbor_ids
                            + appended_ids(prefix1, old(self).regs()[j].id, id));
                    } else {
                        assert(old(self).regs()[j].id != n) by {
                            if old(self).regs()[j].id == n {
                                self.lemma_region_idx(j);
                                self.lemma_region_idx(k as int);
                            }
                        }
                        assert(appended_ids(prefix1, old(self).regs()[j].id, id) =~= appended_ids(
                            prefix,
                            old(self).regs()[j].id,
                            id,
                        ));
                        assert(self.regs()[j] == pre.regs()[j]);
                    }
                }
                assert forall|x: int| 0 <= x < pre.regs().len() implies #[trigger] self.regs()[x].id
                    == pre.regs()[x].id by {
                }
                assert(self.has_region(id)) by {
                    let w = choose|x: int|
                        0 <= x < pre.regs().len() && #[trigger] pre.regs()[x].id == id;
                    assert(self.regs()[w].id == id);
                }
                assert forall|u: int| 0 <= u < neighbor_ids@.len() implies self.has_region(
                    #[trigger] neighbor_ids@[u],
                ) by {
                    let w = choose|x: int|
                        0 <= x < pre.regs().len() && #[trigger] pre.regs()[x].id
                            == neighbor_ids@[u];
                    assert(self.regs()[w].id == neighbor_ids@[u]);
                }
            }
            t = t + 1;
        }
        proof {
            assert(neighbor_ids@.subrange(0, neighbor_ids@.len() as int) =~= neighbor_ids@);
        }
        let k = match self.find_region_index(id) {
            Some(k) => k,
            None => {
                proof {
                    assert(false);
                }
                unreached()
            },
        };
        let reg = &self.regions[k];
        let mut nb = copy_ids(&reg.neighbor_ids);
        let mut t: usize = 0;
        while t < neighbor_ids.len()
            invariant
                0 <= t <= neighbor_ids@.len(),
                nb@ == reg.neighbor_ids@ + neighbor_ids@.subrange(0, t as int),
            decreases neighbor_ids@.len() - t,
        {
            nb.push(neighbor_ids[t]);
            proof {
                assert(reg.neighbor_ids@ + neighbor_ids@.subrange(0, t + 1) =~= (reg.neighbor_ids@
                    + neighbor_ids@.subrange(0, t as int)).push(neighbor_ids@[t as int]));
            }
            t = t + 1;
        }
        proof {
            assert(neighbor_ids@.subrange(0, neighbor_ids@.len() as int) =~= neighbor_ids@);
        }
        let updated = Region {
            id: reg.id,
            super_region_id: reg.super_region_id,
            neighbor_ids: nb,
            armies: reg.armies,
            owner: reg.owner,
        };
        let ghost mid = *self;
        self.regions.set(k, updated);
        proof {
            assert(self.regs() =~= mid.regs().update(
                k as int,
                SpecRegion {
                    neighbor_ids: mid.regs()[k as int].neighbor_ids + neighbor_ids@,
                    ..mid.regs()[k as int]
                },
            ));
            assert forall|j: int| 0 <= j < old(self).regs().len() implies #[trigger] self.regs()[j]
                == SpecRegion {
                neighbor_ids: old(self).regs()[j].neighbor_ids + appended_ids(
                    neighbor_ids@,
                    old(self).regs()[j].id,
                    id,
                ) + (if old(self).regs()[j].id == id {
                    neighbor_ids@
                } else {
                    Seq::empty()
                }),
                ..old(self).regs()[j]
            } by {
                if j == k as int {
                    assert(mid.regs()[j].id == id);
                    assert(self.regs()[j].neighbor_ids =~= old(self).regs()[j].neighbor_ids
                        + appended_ids(neighbor_ids@, old(self).regs()[j].id, id) + neighbor_ids@);
                } else {
                    assert(mid.regs()[j].id != id) by {
                        if mid.regs()[j].id == id {
                            mid.lemma_region_idx(j);
                            mid.lemma_region_idx(k as int);
                        }
                    }
                    assert(self.regs()[j].neighbor_ids =~= old(self).regs()[j].neighbor_ids
                        + appended_ids(neighbor_ids@, old(self).regs()[j].id, id)
                        + Seq::<u64>::empty());
                }
            }
            assert(self.model().regs =~= m_add_region_neighbors(
                old(self).model(),
                id,
                neighbor_ids@,
            ).regs);
            assert(self.model() =~~= m_add_region_neighbors(old(self).model(), id, neighbor_ids@));
        }
    }

    /// Forces a region to the wasteland garrison under neutral ownership.
    pub fn upgrade_to_wasteland(&mut self, id: u64)
        requires
            old(self).wf(),
            old(self).has_region(id),
        ensures
            final(self).wf(),
            final(self).model() == m_upgrade_to_wasteland(old(self).model(), id),
            final(self).srs() == old(self).srs(),
            final(self).regs() == old(self).regs().update(
                old(self).region_idx(id),
                SpecRegion {
                    armies: WASTELAND_ARMIES,
                    owner: OwnerValue::Neutral,
                    ..old(self).region_of(id)
                },
            ),
    {
        let k = match self.find_region_index(id) {
            Some(k) => k,
            None => {
                proof {
                    assert(false);
                }
                unreached()
            },
        };
        proof {
            old(self).lemma_region_idx(k as int);
        }
        let reg = &self.regions[k];
        let nb = copy_ids(&reg.neighbor_ids);
        let updated = Region {
            id: reg.id,
            super_region_id: reg.super_region_id,
            neighbor_ids: nb,
            armies: WASTELAND_ARMIES,
            owner: OwnerValue::Neutral,
        };
        self.regions.set(k, updated);
        proof {
            assert(self.srs() =~= old(self).srs());
            assert(self.regs() =~= old(self).regs().update(
                old(self).region_idx(id),
                SpecRegion {
                    armies: WASTELAND_ARMIES,
                    owner: OwnerValue::Neutral,
                    ..old(self).region_of(id)
                },
            ));
            assert(self.model() =~~= m_upgrade_to_wasteland(old(self).model(), id));
        }
    }

    /// Marks a region as enemy-held: confirmed intel and fog downgrades
    /// share this operation.
    pub fn mark_as_enemy(&mut self, id: u64)
        requires
            old(self).wf(),
            old(self).has_region(id),
        ensures
            final(self).wf(),
            final(self).model() == m_mark_as_enemy(old(self).model(), id),
            final(self).srs() == old(self).srs(),
            final(self).regs() == old(self).regs().update(
                old(self).region_idx(id),
                SpecRegion { owner: OwnerValue::Enemy, ..old(self).region_of(id) },
            ),
    {
        let k = match self.find_region_index(id) {
            Some(k) => k,
            None => {
                proof {
                    assert(false);
                }
                unreached()
            },
        };
        proof {
            old(self).lemma_region_idx(k as int);
        }
        let reg = &self.regions[k];
        let nb = copy_ids(&reg.neighbor_ids);
        let updated = Region {
            id: reg.id,
            super_region_id: reg.super_region_id,
            neighbor_ids: nb,
            armies: reg.armies,
            owner: OwnerValue::Enemy,
        };
        self.regions.set(k, updated);
        proof {
            assert(self.srs() =~= old(self).srs());
            assert(self.regs() =~= old(self).regs().update(
                old(self).region_idx(id),
                SpecRegion { owner: OwnerValue::Enemy, ..old(self).region_of(id) },
            ));
            assert(self.model() =~~= m_mark_as_enemy(old(self).model(), id));
        }
    }

    /// Absolute overwrite of a region's owner and army count.
    pub fn update_map(&mut self, id: u64, owner: OwnerValue, armies: u64)
        requires
            old(self).wf(),
            old(self).has_region(id),
        ensures
            final(self).wf(),
            final(self).model() == m_update_map(old(self).model(), id, owner, armies),
            final(self).srs() == old(self).srs(),
            final(self).regs() == old(self).regs().update(
                old(self).region_idx(id),
                SpecRegion { owner, armies, ..old(self).region_of(id) },
            ),
    {
        let k = match self.find_region_index(id) {
            Some(k) => k,
            None => {
                proof {
                    assert(false);
                }
                unreached()
            },
        };
        proof {
            old(self).lemma_region_idx(k as int);
        }
        let reg = &self.regions[k];
        let nb = copy_ids(&reg.neighbor_ids);
        let updated = Region {
            id: reg.id,
            super_region_id: reg.super_region_id,
            neighbor_ids: nb,
            armies,
            owner,
        };
        self.regions.set(k, updated);
        proof {
            assert(self.srs() =~= old(self).srs());
            assert(self.regs() =~= old(self).regs().update(
                old(self).region_idx(id),
                SpecRegion { owner, armies, ..old(self).region_of(id) },
            ));
            assert(self.model() =~~= m_update_map(old(self).model(), id, owner, armies));
        }
    }

    /// Fog reconciliation: every region that the latest update batch did not
    /// observe, and that is currently believed ally-held, flips to enemy.
    /// Presumed-ally regions are never silently retained.
    pub fn update_fog(&mut self, observed: Vec<u64>)
        requires
            old(self).wf(),
        ensures
            final(self).wf(),
            final(self).model() == m_update_fog(old(self).model(), observed@),
            final(self).srs() == old(self).srs(),
            final(self).regs().len() == old(self).regs().len(),
            forall|j: int|
                0 <= j < old(self).regs().len() ==> #[trigger] final(self).regs()[j] == (if old(
                    self,
                ).regs()[j].owner == OwnerValue::Ally && !observed@.contains(
                    old(self).regs()[j].id,
                ) {
                    SpecRegion { owner: OwnerValue::Enemy, ..old(self).regs()[j] }
                } else {
                    old(self).regs()[j]
                }),
    {
        let mut j: usize = 0;
        while j < self.regions.len()
            invariant
                0 <= j <= self.regions@.len(),
                self.wf(),
                self.srs() == old(self).srs(),
                self.regs().len() == old(self).regs().len(),
                self.regions@.len() == old(self).regs().len(),
                forall|x: int|
                    0 <= x < j ==> #[trigger] self.regs()[x] == (if old(self).regs()[x].owner
                        == OwnerValue::Ally && !observed@.contains(old(self).regs()[x].id) {
                        SpecRegion { owner: OwnerValue::Enemy, ..old(self).regs()[x] }
                    } else {
                        old(self).regs()[x]
                    }),
                forall|x: int|
                    j <= x < old(self).regs().len() ==> #[trigger] self.regs()[x] == old(
                        self,
                    ).regs()[x],
            decreases self.regions@.len() - j,
        {
            let is_ally = match self.regions[j].owner {
                OwnerValue::Ally => true,
                _ => false,
            };
            if is_ally && !contains_u64(&observed, self.regions[j].id) {
                let reg = &self.regions[j];
                let nb = copy_ids(&reg.neighbor_ids);
                let updated = Region {
                    id: reg.id,
                    super_region_id: reg.super_region_id,
                    neighbor_ids: nb,
                    armies: reg.armies,
                    owner: OwnerValue::Enemy,
                };
                let ghost pre = *self;
                self.regions.set(j, updated);
                proof {
                    assert(self.regs() =~= pre.regs().update(
                        j as int,
                        SpecRegion { owner: OwnerValue::Enemy, ..pre.regs()[j as int] },
                    ));
                }
            }
            j = j + 1;
        }
        proof {
            assert(self.model().regs =~= m_update_fog(old(self).model(), observed@).regs);
            assert(self.model() =~~= m_update_fog(old(self).model(), observed@));
        }
    }

    /// Whether a region with this id is registered.
    pub fn contains_region(&self, id: u64) -> (r: bool)
        ensures
            r == self.has_region(id),
    {
        match self.find_region_index(id) {
            Some(_) => true,
            None => false,
        }
    }

    /// Whether a super-region with this id is registered.
    pub fn contains_super_region(&self, id: u64) -> (r: bool)
        ensures
            r == self.has_super_region(id),
    {
        match self.find_super_region_index(id) {
            Some(_) => true,
            None => false,
        }
    }

    /// The super-region id of a registered region.
    pub fn super_region_id_of(&self, region_id: u64) -> (r: u64)
        requires
            self.wf(),
            self.has_region(region_id),
        ensures
            r == self.region_of(region_id).super_region_id,
    {
        let k = match self.find_region_index(region_id) {
            Some(k) => k,
            None => {
                proof {
                    assert(false);
                }
                unreached()
            },
        };
        proof {
            self.lemma_region_idx(k as int);
        }
        self.regions[k].super_region_id
    }

    /// Whether the army total across a region's super-region fits in 64
    /// bits, so that [`GameMap::starting_pick_value`] can report it.
    pub fn super_armies_fit(&self, region_id: u64) -> (r: bool)
        requires
            self.wf(),
            self.has_region(region_id),
            self.has_super_region(self.region_of(region_id).super_region_id),
        ensures
            r == (sum_armies(
                self.regs(),
                self.super_region_of(self.region_of(region_id).super_region_id).region_ids,
            ) <= u64::MAX),
    {
        let k = match self.find_region_index(region_id) {
            Some(k) => k,
            None => {
                proof {
                    assert(false);
                }
                unreached()
            },
        };
        proof {
            self.lemma_region_idx(k as int);
        }
        let srid = self.regions[k].super_region_id;
        let sk = match self.find_super_region_index(srid) {
            Some(sk) => sk,
            None => {
                proof {
                    assert(false);
                }
                unreached()
            },
        };
        proof {
            self.lemma_super_region_idx(sk as int);
        }
        let sr = &self.super_regions[sk];
        let ghost members = self.super_region_of(
            self.region_of(region_id).super_region_id,
        ).region_ids;
        proof {
            assert(sr.region_ids@ == members);
        }
        let mut armies: u64 = 0;
        let mut j: usize = 0;
        proof {
            assert(self.regs().subrange(0, 0) =~= Seq::<SpecRegion>::empty());
        }
        while j < self.regions.len()
            invariant
                0 <= j <= self.regions@.len(),
                self.regs().len() == self.regions@.len(),
                forall|x: int|
                    0 <= x < self.regions@.len() ==> #[trigger] self.regs()[x]
                        == self.regions@[x]@,
                sr.region_ids@ == members,
                members == self.super_region_of(
                    self.region_of(region_id).super_region_id,
                ).region_ids,
                armies == sum_armies(self.regs().subrange(0, j as int), members),
            decreases self.regions@.len() - j,
        {
            let ghost prefix = self.regs().subrange(0, j as int);
            let ghost prefix1 = self.regs().subrange(0, j + 1);
            proof {
                assert(prefix1.drop_last() =~= prefix);
                assert(prefix1.last() == self.regs()[j as int]);
                lemma_sum_armies_nonneg(prefix, members);
            }
            if contains_u64(&sr.region_ids, self.regions[j].id) {
                let wide: u128 = armies as u128 + self.regions[j].armies as u128;
                if wide > u64::MAX as u128 {
                    proof {
                        assert(members.contains(self.regs()[j as int].id));
                        assert(sum_armies(prefix1, members) == armies
                            + self.regs()[j as int].armies);
                        lemma_sum_armies_prefix_le(self.regs(), members, j + 1);
                    }
                    return false;
                }
                armies = wide as u64;
            }
            j = j + 1;
        }
        proof {
            assert(self.regs().subrange(0, self.regs().len() as int) =~= self.regs());
            lemma_sum_armies_nonneg(self.regs(), members);
        }
        true
    }

    /// The desirability of a region for the initial pick, as the exact
    /// rational bonus-per-army: the super-region's bonus value over the
    /// total armies across that super-region's member regions.  The caller
    /// interprets a zero denominator as a score of positive infinity when
    /// the bonus is positive, and as no preference when it is zero.
    pub fn starting_pick_value(&self, region_id: u64) -> (r: (u64, u64))
        requires
            self.wf(),
            self.has_region(region_id),
            self.has_super_region(self.region_of(region_id).super_region_id),
            sum_armies(
                self.regs(),
                self.super_region_of(self.region_of(region_id).super_region_id).region_ids,
            ) <= u64::MAX,
        ensures
            r.0 == self.super_region_of(self.region_of(region_id).super_region_id).value,
            r.1 == sum_armies(
                self.regs(),
                self.super_region_of(self.region_of(region_id).super_region_id).region_ids,
            ),
    {
        let k = match self.find_region_index(region_id) {
            Some(k) => k,
            None => {
                proof {
                    assert(false);
                }
                unreached()
            },
        };
        proof {
            self.lemma_region_idx(k as int);
        }
        let srid = self.regions[k].super_region_id;
        let sk = match self.find_super_region_index(srid) {
            Some(sk) => sk,
            None => {
                proof {
                    assert(false);
                }
                unreached()
            },
        };
        proof {
            self.lemma_super_region_idx(sk as int);
        }
        let sr = &self.super_regions[sk];
        let ghost members = self.super_region_of(
            self.region_of(region_id).super_region_id,
        ).region_ids;
        proof {
            assert(sr.region_ids@ == members);
        }
        let mut armies: u64 = 0;
        let mut j: usize = 0;
        proof {
            assert(self.regs().subrange(0, 0) =~= Seq::<SpecRegion>::empty());
        }
        while j < self.regions.len()
            invariant
                0 <= j <= self.regions@.len(),
                self.regs().len() == self.regions@.len(),
                forall|x: int|
                    0 <= x < self.regions@.len() ==> #[trigger] self.regs()[x]
                        == self.regions@[x]@,
                sr.region_ids@ == members,
                sum_armies(self.regs(), members) <= u64::MAX,
                armies == sum_armies(self.regs().subrange(0, j as int), members),
            decreases self.regions@.len() - j,
        {
            let ghost prefix = self.regs().subrange(0, j as int);
            let ghost prefix1 = self.regs().subrange(0, j + 1);
            proof {
                assert(prefix1.drop_last() =~= prefix);
                assert(prefix1.last() == self.regs()[j as int]);
                lemma_sum_armies_prefix_le(self.regs(), members, j + 1);
                lemma_sum_armies_nonneg(prefix, members);
            }
            if contains_u64(&sr.region_ids, self.regions[j].id) {
                armies = armies + self.regions[j].armies;
            }
            j = j + 1;
        }
        proof {
            assert(self.regs().subrange(0, self.regs().len() as int) =~= self.regs());
        }
        (sr.value, armies)
    }

    /// A snapshot of the region with this id, if it is registered.
    pub fn get_region(&self, id: u64) -> (r: Option<Region>)
        requires
            self.wf(),
        ensures
            (match r {
                Some(reg) => self.has_region(id) && reg@ == self.region_of(id),
                None => !self.has_region(id),
            }),
    {
        match self.find_region_index(id) {
            Some(i) => {
                proof {
                    self.lemma_region_idx(i as int);
                }
                let reg = &self.regions[i];
                let nb = copy_ids(&reg.neighbor_ids);
                Some(
                    Region {
                        id: reg.id,
                        super_region_id: reg.super_region_id,
                        neighbor_ids: nb,
                        armies: reg.armies,
                        owner: reg.owner,
                    },
                )
            },
            None => None,
        }
    }

    /// A snapshot of every ally-held region, in registration order.
    pub fn allies(&self) -> (r: Vec<Region>)
        ensures
            r@.map_values(|x: Region| x@) == allies_of(self.regs()),
    {
        let mut r: Vec<Region> = Vec::new();
        let mut j: usize = 0;
        proof {
            assert(self.regs().subrange(0, 0) =~= Seq::<SpecRegion>::empty());
            assert(r@.map_values(|x: Region| x@) =~= allies_of(self.regs().subrange(0, 0)));
        }
        while j < self.regions.len()
            invariant
                0 <= j <= self.regions@.len(),
                self.regs().len() == self.regions@.len(),
                forall|x: int|
                    0 <= x < self.regions@.len() ==> #[trigger] self.regs()[x]
                        == self.regions@[x]@,
                r@.map_values(|x: Region| x@) == allies_of(self.regs().subrange(0, j as int)),
            decreases self.regions@.len() - j,
        {
            let ghost prefix = self.regs().subrange(0, j as int);
            let ghost prefix1 = self.regs().subrange(0, j + 1);
            proof {
                assert(prefix1.drop_last() =~= prefix);
                assert(prefix1.last() == self.regs()[j as int]);
            }
            let is_ally = match self.regions[j].owner {
                OwnerValue::Ally => true,
                _ => false,
            };
            if is_ally {
                let reg = &self.regions[j];
                let nb = copy_ids(&reg.neighbor_ids);
                let ghost prevmap = r@.map_values(|x: Region| x@);
                r.push(
                    Region {
                        id: reg.id,
                        super_region_id: reg.super_region_id,
                        neighbor_ids: nb,
                        armies: reg.armies,
                        owner: reg.owner,
                    },
                );
                proof {
                    assert(r@.map_values(|x: Region| x@) =~= prevmap.push(self.regs()[j as int]));
                    assert(allies_of(prefix1) =~= allies_of(prefix).push(self.regs()[j as int]));
                }
            } else {
                proof {
                    assert(allies_of(prefix1) =~= allies_of(prefix));
                }
            }
            j = j + 1;
        }
        proof {
            assert(self.regs().subrange(0, self.regs().len() as int) =~= self.regs());
        }
        r
    }
}

/// The ally-held regions of a region list, in order.
pub open spec fn allies_of(regions: Seq<SpecRegion>) -> Seq<SpecRegion>
    decreases regions.len(),
{
    if regions.len() == 0 {
        Seq::empty()
    } else {
        allies_of(regions.drop_last()) + (if regions.last().owner == OwnerValue::Ally {
            seq![regions.last()]
        } else {
            Seq::empty()
        })
    }
}

/// The total army count over the regions whose id stands in `members`.
pub open spec fn sum_armies(regions: Seq<SpecRegion>, members: Seq<u64>) -> int
    decreases regions.len(),
{
    if regions.len() == 0 {
        0
    } else {
        sum_armies(regions.drop_last(), members) + (if members.contains(regions.last().id) {
            regions.last().armies as int
        } else {
            0
        })
    }
}

/// An army sum over a prefix never exceeds the sum over the whole list.
pub proof fn lemma_sum_armies_prefix_le(regions: Seq<SpecRegion>, members: Seq<u64>, i: int)
    requires
        0 <= i <= regions.len(),
    ensures
        0 <= sum_armies(regions.subrange(0, i), members) <= sum_armies(regions, members),
    decreases regions.len() - i,
{
    if i == regions.len() {
        assert(regions.subrange(0, i) =~= regions);
        lemma_sum_armies_nonneg(regions, members);
    } else {
        let p = regions.subrange(0, i);
        let q = regions.subrange(0, i + 1);
        assert(q.drop_last() =~= p);
        assert(q.last() == regions[i]);
        lemma_sum_armies_nonneg(p, members);
        lemma_sum_armies_prefix_le(regions, members, i + 1);
    }
}

/// An army sum is never negative.
pub proof fn lemma_sum_armies_nonneg(regions: Seq<SpecRegion>, members: Seq<u64>)
    ensures
        sum_armies(regions, members) >= 0,
    decreases regions.len(),
{
    if regions.len() > 0 {
        lemma_sum_armies_nonneg(regions.drop_last(), members);
    }
}

/// Inserting neighbors for `target` appends `id` to its list.
proof fn lemma_appended_contains(list: Seq<u64>, target: u64, id: u64)
    requires
        list.contains(target),
    ensures
        appended_ids(list, target, id).contains(id),
    decreases list.len(),
{
    let w = choose|i: int| 0 <= i < list.len() && list[i] == target;
    if list.last() == target {
        let a = appended_ids(list.drop_last(), target, id);
        assert((a + seq![id])[a.len() as int] == id);
    } else {
        assert(list.drop_last()[w] == target);
        lemma_appended_contains(list.drop_last(), target, id);
        assert(appended_ids(list, target, id) =~= appended_ids(list.drop_last(), target, id));
    }
}

/// Symmetry of the neighbor relation: one `add_region_neighbors(id, ns)`
/// call, described by its contract as the step from `pre` to `post`, leaves
/// `id` in the adjacency list of every region of `ns`, and every region of
/// `ns` in the adjacency list of `id`.
pub proof fn lemma_neighbor_symmetry(pre: GameMap, post: GameMap, id: u64, neighbor_ids: Seq<u64>)
    requires
        pre.wf(),
        pre.has_region(id),
        forall|t: int| 0 <= t < neighbor_ids.len() ==> pre.has_region(#[trigger] neighbor_ids[t]),
        post.wf(),
        post.regs().len() == pre.regs().len(),
        forall|j: int|
            0 <= j < pre.regs().len() ==> #[trigger] post.regs()[j] == (SpecRegion {
                neighbor_ids: pre.regs()[j].neighbor_ids + appended_ids(
                    neighbor_ids,
                    pre.regs()[j].id,
                    id,
                ) + (if pre.regs()[j].id == id {
                    neighbor_ids
                } else {
                    Seq::empty()
                }),
                ..pre.regs()[j]
            }),
    ensures
        forall|t: int|
            0 <= t < neighbor_ids.len() ==> post.region_of(
                #[trigger] neighbor_ids[t],
            ).neighbor_ids.contains(id),
        forall|t: int|
            0 <= t < neighbor_ids.len() ==> post.region_of(id).neighbor_ids.contains(
                #[trigger] neighbor_ids[t],
            ),
{
    assert forall|t: int| 0 <= t < neighbor_ids.len() implies post.region_of(
        #[trigger] neighbor_ids[t],
    ).neighbor_ids.contains(id) by {
        let n = neighbor_ids[t];
        let w = choose|x: int| 0 <= x < pre.regs().len() && #[trigger] pre.regs()[x].id == n;
        assert(post.regs()[w].id == n);
        post.lemma_region_idx(w);
        assert(post.region_of(n) == post.regs()[w]);
        assert(neighbor_ids.contains(n));
        lemma_appended_contains(neighbor_ids, n, id);
        let a = pre.regs()[w].neighbor_ids;
        let b = appended_ids(neighbor_ids, n, id);
        let v = choose|x: int| 0 <= x < b.len() && b[x] == id;
        assert(post.regs()[w].neighbor_ids[a.len() + v] == id);
    }
    assert forall|t: int| 0 <= t < neighbor_ids.len() implies post.region_of(
        id,
    ).neighbor_ids.contains(#[trigger] neighbor_ids[t]) by {
        let w = choose|x: int| 0 <= x < pre.regs().len() && #[trigger] pre.regs()[x].id == id;
        assert(post.regs()[w].id == id);
        post.lemma_region_idx(w);
        assert(post.region_of(id) == post.regs()[w]);
        let a = pre.regs()[w].neighbor_ids + appended_ids(neighbor_ids, id, id);
        assert(post.regs()[w].neighbor_ids[a.len() + t] == neighbor_ids[t]);
    }
}

/// Copies a vector of ids.
pub(crate) fn copy_ids(v: &Vec<u64>) -> (r: Vec<u64>)
    ensures
        r@ == v@,
{
    let mut r: Vec<u64> = Vec::new();
    let mut i: usize = 0;
    while i < v.len()
        invariant
            0 <= i <= v@.len(),
            r@ == v@.subrange(0, i as int),
        decreases v@.len() - i,
    {
        r.push(v[i]);
        proof {
            assert(v@.subrange(0, i + 1) =~= v@.subrange(0, i as int).push(v@[i as int]));
        }
        i = i + 1;
    }
    proof {
        assert(v@.subrange(0, v@.len() as int) =~= v@);
    }
    r
}

/// Whether a vector of ids contains `x`.
fn contains_u64(v: &Vec<u64>, x: u64) -> (r: bool)
    ensures
        r == v@.contains(x),
{
    let mut i: usize = 0;
    while i < v.len()
        invariant
            0 <= i <= v@.len(),
            forall|j: int| 0 <= j < i ==> v@[j] != x,
        decreases v@.len() - i,
    {
        if v[i] == x {
            return true;
        }
        i = i + 1;
    }
    false
}

} // verus!
