//! Generic resource demand retained by each world, and owned upload ingress.
//! Every authored component records the resource sources it demands; each
//! source counts the components demanding it, and a source is retained
//! exactly while that count is positive.

use crate::ids::{EntityId, ErrorReason, SystemId, WorldId};
use vstd::string::StringSliceAdditionalSpecFns;
use vstd::utf8::encode_utf8;
use crate::systems::SystemDependency;
use crate::world::{BOUNDING_GEOMETRY, MESH_INSTANCE, PICKING_GEOMETRY};
use std::collections::VecDeque;
use vstd::prelude::*;

verus! {

/// Resource type identity.
#[derive(Clone, Copy, Debug, PartialEq, Eq, Structural)]
pub struct AssetTypeId(pub u32);

/// Shared Host resource identity.
#[derive(Clone, Copy, Debug, PartialEq, Eq, Structural)]
pub struct AssetKey(pub u64);

/// A producer's upload identity: resource type, producer-local asset number and variant.
#[derive(Clone, Copy, Debug, PartialEq, Eq, Structural)]
pub struct AssetUploadIdentity {
    pub kind: AssetTypeId,
    pub asset: u64,
    pub variant: u32,
}

/// Producer bytes queued for the next ingress boundary.
pub struct AssetUpload {
    pub id: u64,
    pub key: AssetUploadIdentity,
    pub bytes: Vec<u8>,
}

/// A demanded resource source: type, source text and variant.
#[derive(Debug)]
pub struct AssetDemandSelection {
    pub kind: AssetTypeId,
    pub source: String,
    pub variant: u32,
}

/// Value of a selection: type, source characters and variant.
pub type SelectionView = (AssetTypeId, Seq<char>, u32);

impl View for AssetDemandSelection {
    type V = SelectionView;

    open spec fn view(&self) -> SelectionView {
        (self.kind, self.source@, self.variant)
    }
}

impl AssetDemandSelection {
    pub fn new(kind: AssetTypeId, source: &str, variant: u32) -> (r: Self)
        ensures
            r@ == (kind, source@, variant),
    {
        AssetDemandSelection { kind, source: source.to_owned(), variant }
    }

    /// Whether two selections name the same source.
    pub fn same(&self, other: &AssetDemandSelection) -> (r: bool)
        ensures
            r == (self@ == other@),
    {
        self.kind == other.kind && self.variant == other.variant && self.source == other.source
    }

    /// An equal copy.
    pub fn duplicate(&self) -> (r: AssetDemandSelection)
        ensures
            r@ == self@,
    {
        AssetDemandSelection { kind: self.kind, source: self.source.clone(), variant: self.variant }
    }
}

/// Values of a sequence of selections.
pub open spec fn views(v: Seq<AssetDemandSelection>) -> Seq<SelectionView> {
    v.map_values(|s: AssetDemandSelection| s@)
}

/// Demand of each component key, by value.
pub open spec fn demand_entries(v: Seq<((EntityId, u16), Vec<AssetDemandSelection>)>) -> Seq<((EntityId, u16), Seq<SelectionView>)> {
    v.map_values(|e: ((EntityId, u16), Vec<AssetDemandSelection>)| (e.0, views(e.1@)))
}

/// Number of component keys whose demand contains a source.
pub open spec fn demand_count(entries: Seq<((EntityId, u16), Seq<SelectionView>)>, s: SelectionView) -> nat
    decreases entries.len(),
{
    if entries.len() == 0 {
        0
    } else {
        demand_count(entries.drop_last(), s) + if entries.last().1.contains(s) {
            1nat
        } else {
            0nat
        }
    }
}

/// Count recorded for a source (the last entry naming it); zero when absent.
pub open spec fn users_of(users: Seq<(AssetDemandSelection, usize)>, s: SelectionView) -> nat
    decreases users.len(),
{
    if users.len() == 0 {
        0
    } else if users.last().0@ == s {
        users.last().1 as nat
    } else {
        users_of(users.drop_last(), s)
    }
}

/// Demand recorded for a component key (the last entry naming it).
pub open spec fn demand_of(entries: Seq<((EntityId, u16), Seq<SelectionView>)>, key: (EntityId, u16)) -> Option<Seq<SelectionView>>
    decreases entries.len(),
{
    if entries.len() == 0 {
        None
    } else if entries.last().0 == key {
        Some(entries.last().1)
    } else {
        demand_of(entries.drop_last(), key)
    }
}

pub proof fn lemma_demand_count_remove(entries: Seq<((EntityId, u16), Seq<SelectionView>)>, i: int, s: SelectionView)
    requires
        0 <= i < entries.len(),
    ensures
        demand_count(entries, s) == demand_count(entries.remove(i), s) + if entries[i].1.contains(s) {
            1nat
        } else {
            0nat
        },
    decreases entries.len(),
{
    if i < entries.len() - 1 {
        let rest = entries.drop_last();
        lemma_demand_count_remove(rest, i, s);
        assert(entries.remove(i).drop_last() =~= rest.remove(i));
        assert(entries.remove(i).last() == entries.last());
    } else {
        assert(entries.remove(i) =~= entries.drop_last());
    }
}

pub proof fn lemma_demand_count_bound(entries: Seq<((EntityId, u16), Seq<SelectionView>)>, s: SelectionView)
    ensures
        demand_count(entries, s) <= entries.len(),
    decreases entries.len(),
{
    if entries.len() > 0 {
        lemma_demand_count_bound(entries.drop_last(), s);
    }
}

pub proof fn lemma_demand_of_remove(entries: Seq<((EntityId, u16), Seq<SelectionView>)>, i: int, key: (EntityId, u16))
    requires
        0 <= i < entries.len(),
        forall|a: int, b: int| 0 <= a < b < entries.len() ==> entries[a].0 != entries[b].0,
    ensures
        demand_of(entries.remove(i), key) == if key == entries[i].0 {
            None
        } else {
            demand_of(entries, key)
        },
        demand_of(entries, entries[i].0) == Some(entries[i].1),
    decreases entries.len(),
{
    let rest = entries.drop_last();
    if i < entries.len() - 1 {
        lemma_demand_of_remove(rest, i, key);
        assert(entries.remove(i).drop_last() =~= rest.remove(i));
        assert(entries.remove(i).last() == entries.last());
        assert(entries.last().0 != entries[i].0);
    } else {
        assert(entries.remove(i) =~= rest);
        lemma_demand_of_absent(rest, entries[i].0);
    }
}

pub proof fn lemma_demand_of_absent(entries: Seq<((EntityId, u16), Seq<SelectionView>)>, key: (EntityId, u16))
    requires
        forall|a: int| 0 <= a < entries.len() ==> entries[a].0 != key,
    ensures
        demand_of(entries, key) is None,
    decreases entries.len(),
{
    if entries.len() > 0 {
        lemma_demand_of_absent(entries.drop_last(), key);
    }
}

pub proof fn lemma_users_remove(users: Seq<(AssetDemandSelection, usize)>, i: int, s: SelectionView)
    requires
        0 <= i < users.len(),
        forall|a: int, b: int| 0 <= a < b < users.len() ==> users[a].0@ != users[b].0@,
    ensures
        users_of(users.remove(i), s) == if s == users[i].0@ {
            0
        } else {
            users_of(users, s)
        },
        users_of(users, users[i].0@) == users[i].1,
    decreases users.len(),
{
    let rest = users.drop_last();
    if i < users.len() - 1 {
        lemma_users_remove(rest, i, s);
        assert(users.remove(i).drop_last() =~= rest.remove(i));
        assert(users.remove(i).last() == users.last());
        assert(users.last().0@ != users[i].0@);
    } else {
        assert(users.remove(i) =~= rest);
        lemma_users_absent(rest, users[i].0@);
    }
}

pub proof fn lemma_users_insert(users: Seq<(AssetDemandSelection, usize)>, i: int, e: (AssetDemandSelection, usize), s: SelectionView)
    requires
        0 <= i <= users.len(),
        forall|a: int| 0 <= a < users.len() ==> users[a].0@ != e.0@,
    ensures
        users_of(users.insert(i, e), s) == if s == e.0@ {
            e.1 as nat
        } else {
            users_of(users, s)
        },
    decreases users.len(),
{
    if i < users.len() {
        let rest = users.drop_last();
        lemma_users_insert(rest, i, e, s);
        assert(users.insert(i, e).drop_last() =~= rest.insert(i, e));
        assert(users.insert(i, e).last() == users.last());
    } else {
        assert(users.insert(i, e) =~= users.push(e));
        assert(users.push(e).drop_last() =~= users);
    }
}

pub proof fn lemma_users_absent(users: Seq<(AssetDemandSelection, usize)>, s: SelectionView)
    requires
        forall|a: int| 0 <= a < users.len() ==> users[a].0@ != s,
    ensures
        users_of(users, s) == 0,
    decreases users.len(),
{
    if users.len() > 0 {
        lemma_users_absent(users.drop_last(), s);
    }
}

pub proof fn lemma_users_present(users: Seq<(AssetDemandSelection, usize)>, i: int)
    requires
        0 <= i < users.len(),
        forall|a: int, b: int| 0 <= a < b < users.len() ==> users[a].0@ != users[b].0@,
    ensures
        users_of(users, users[i].0@) == users[i].1,
{
    lemma_users_remove(users, i, users[i].0@);
}

/// Queued uploads, upload outcomes and the world's retained resource dependencies.
pub struct AssetDependencySystemState {
    pub evaluation_meshes_initialized: bool,
    pub changed_sources: Vec<AssetDemandSelection>,
    pub animation_sources: Vec<AssetDemandSelection>,
    pub component_sources: Vec<((EntityId, u16), Vec<AssetDemandSelection>)>,
    pub source_users: Vec<(AssetDemandSelection, usize)>,
    pub asset_queue: VecDeque<AssetUpload>,
    pub asset_pending: Vec<PendingAssetUpload>,
}

/// Local producer correlation and its shared Host resource identity.
pub struct PendingAssetUpload {
    pub request_id: u64,
    pub producer_key: AssetUploadIdentity,
    pub resource_key: Option<AssetKey>,
    pub error: Option<String>,
}

/// No two selections of a sequence name the same source.
pub open spec fn distinct(v: Seq<SelectionView>) -> bool {
    forall|a: int, b: int| 0 <= a < b < v.len() ==> v[a] != v[b]
}

impl AssetDependencySystemState {
    /// Component keys are unique and each demands a nonempty set; each source
    /// is recorded once, with the positive number of components demanding it.
    pub open spec fn wf(&self) -> bool {
        let entries = demand_entries(self.component_sources@);
        &&& forall|a: int, b: int| 0 <= a < b < entries.len() ==> entries[a].0 != entries[b].0
        &&& forall|a: int| 0 <= a < entries.len() ==> distinct(#[trigger] entries[a].1) && entries[a].1.len() > 0
        &&& forall|a: int, b: int| 0 <= a < b < self.source_users@.len() ==> self.source_users@[a].0@ != self.source_users@[b].0@
        &&& forall|a: int| 0 <= a < self.source_users@.len() ==> #[trigger] self.source_users@[a].1 > 0
        &&& forall|s: SelectionView| #[trigger] users_of(self.source_users@, s) == demand_count(entries, s)
        &&& distinct(views(self.changed_sources@))
        &&& distinct(views(self.animation_sources@))
    }

    /// Demand recorded for a component key.
    pub open spec fn demand(&self, key: (EntityId, u16)) -> Option<Seq<SelectionView>> {
        demand_of(demand_entries(self.component_sources@), key)
    }

    /// Number of components demanding a source.
    pub open spec fn users(&self, s: SelectionView) -> nat {
        users_of(self.source_users@, s)
    }

    /// Fresh state: no demand, no changed or animation sources, no queued
    /// uploads or receipts, evaluation mesh demand not yet built.
    pub fn new() -> (r: Self)
        ensures
            r.wf(),
            forall|s: SelectionView| r.users(s) == 0,
            forall|k: (EntityId, u16)| r.demand(k) is None,
            !r.evaluation_meshes_initialized,
            r.changed_sources@.len() == 0,
            r.animation_sources@.len() == 0,
            r.component_sources@.len() == 0,
            r.source_users@.len() == 0,
            r.asset_queue@.len() == 0,
            r.asset_pending@.len() == 0,
    {
        let r = AssetDependencySystemState {
            evaluation_meshes_initialized: false,
            changed_sources: Vec::new(),
            animation_sources: Vec::new(),
            component_sources: Vec::new(),
            source_users: Vec::new(),
            asset_queue: VecDeque::new(),
            asset_pending: Vec::new(),
        };
        proof {
            assert(demand_entries(r.component_sources@) =~= Seq::empty());
            assert(views(r.changed_sources@) =~= Seq::empty());
            assert(views(r.animation_sources@) =~= Seq::empty());
        }
        r
    }

    /// Replace the demand recorded for a component key. Each source the
    /// previous demand named loses one user and each source of the new demand
    /// gains one; both are marked changed. Equal demand changes nothing, and an
    /// empty demand forgets the key.
    pub fn replace_component_sources(&mut self, key: (EntityId, u16), demand: Vec<AssetDemandSelection>)
        requires
            old(self).wf(),
            distinct(views(demand@)),
            old(self).component_sources@.len() < usize::MAX,
        ensures
            final(self).wf(),
            final(self).component_sources@.len() <= old(self).component_sources@.len() + 1,
            match final(self).demand(key) {
                None => demand@.len() == 0,
                Some(d) => d.to_set() == views(demand@).to_set(),
            },
            forall|k: (EntityId, u16)| k != key ==> #[trigger] final(self).demand(k) == old(self).demand(k),
            forall|s: SelectionView| #[trigger] final(self).users(s) + (if old(self).demand(key) matches Some(p) && p.contains(s) {
                1nat
            } else {
                0nat
            }) == old(self).users(s) + if views(demand@).contains(s) {
                1nat
            } else {
                0nat
            },
            if old(self).demand(key) matches Some(p) && p.to_set() == views(demand@).to_set() {
                final(self).changed_sources@ == old(self).changed_sources@
            } else {
                views(final(self).changed_sources@).to_set() == views(old(self).changed_sources@).to_set()
                    + (match old(self).demand(key) {
                    Some(p) => p.to_set(),
                    None => Set::empty(),
                }) + views(demand@).to_set()
            },
            final(self).asset_queue@ == old(self).asset_queue@,
            final(self).asset_pending@ == old(self).asset_pending@,
            final(self).animation_sources@ == old(self).animation_sources@,
            final(self).evaluation_meshes_initialized == old(self).evaluation_meshes_initialized,
    {
        let ghost e0 = demand_entries(self.component_sources@);
        let ghost c0 = views(self.changed_sources@).to_set();
        let found = self.find_component(key);
        if let Some(i) = found {
            if Self::same_sources(&self.component_sources[i].1, &demand) {
                proof {
                    assert(e0[i as int] == (key, views(self.component_sources@[i as int].1@)));
                    lemma_demand_of_remove(e0, i as int, key);
                    assert forall|s: SelectionView| #[trigger] views(demand@).contains(s) == e0[i as int].1.contains(s) by {
                        assert(views(demand@).to_set().contains(s) == e0[i as int].1.to_set().contains(s));
                    }
                }
                return;
            }
        }
        proof {
            if found is None {
                lemma_demand_of_absent(e0, key);
            }
        }
        if let Some(i) = found {
            let ghost u0 = self.source_users@;
            let (_, previous) = self.component_sources.remove(i);
            let ghost e1 = demand_entries(self.component_sources@);
            let ghost pv = views(previous@);
            proof {
                assert(e1 =~= e0.remove(i as int));
                assert(e0[i as int] == (key, pv));
                lemma_demand_of_remove(e0, i as int, key);
                assert forall|s: SelectionView| #[trigger] users_of(self.source_users@, s) == demand_count(e1, s) + if pv.contains(s) {
                    1nat
                } else {
                    0nat
                } by {
                    lemma_demand_count_remove(e0, i as int, s);
                }
                assert forall|s: SelectionView| pv.contains(s) <==> exists|m: int| 0 <= m < pv.len() && #[trigger] pv[m] == s by {}
            }
            let mut k: usize = 0;
            while k < previous.len()
                invariant
                    k <= previous@.len(),
                    pv == views(previous@),
                    distinct(pv),
                    demand_entries(self.component_sources@) == e1,
                    forall|a: int, b: int| 0 <= a < b < self.source_users@.len() ==> self.source_users@[a].0@ != self.source_users@[b].0@,
                    forall|a: int| 0 <= a < self.source_users@.len() ==> #[trigger] self.source_users@[a].1 > 0,
                    forall|s: SelectionView| #[trigger] users_of(self.source_users@, s) == demand_count(e1, s) + if exists|m: int|
                        k <= m < pv.len() && #[trigger] pv[m] == s {
                        1nat
                    } else {
                        0nat
                    },
                    distinct(views(self.changed_sources@)),
                    views(self.changed_sources@).to_set() == c0 + pv.subrange(0, k as int).to_set(),
                    self.asset_queue@ == old(self).asset_queue@,
                    self.asset_pending@ == old(self).asset_pending@,
                    self.animation_sources@ == old(self).animation_sources@,
                    self.evaluation_meshes_initialized == old(self).evaluation_meshes_initialized,
                decreases previous@.len() - k,
            {
                let ghost cb = views(self.changed_sources@).to_set();
                self.mark_changed(&previous[k]);
                let ghost sk = previous@[k as int]@;
                proof {
                    assert(pv[k as int] == sk);
                    assert(pv.subrange(0, k + 1) =~= pv.subrange(0, k as int).push(sk));
                    pv.subrange(0, k as int).lemma_push_to_set_commute(sk);
                    assert(views(self.changed_sources@).to_set() =~= c0 + pv.subrange(0, k + 1).to_set());
                }
                let j = match self.find_user(&previous[k]) {
                    Some(j) => j,
                    None => {
                        proof {
                            lemma_users_absent(self.source_users@, sk);
                            assert(users_of(self.source_users@, sk) >= 1);
                        }
                        return;
                    },
                };
                let ghost u1 = self.source_users@;
                let (sel, n) = self.source_users.remove(j);
                proof {
                    lemma_users_remove(u1, j as int, sk);
                    assert forall|s: SelectionView| #[trigger] users_of(self.source_users@, s) == if s == sk {
                        0
                    } else {
                        users_of(u1, s)
                    } by {
                        lemma_users_remove(u1, j as int, s);
                    }
                }
                if n > 1 {
                    let ghost u2 = self.source_users@;
                    self.source_users.insert(j, (sel, n - 1));
                    proof {
                        assert forall|s: SelectionView| #[trigger] users_of(self.source_users@, s) == if s == sk {
                            (n - 1) as nat
                        } else {
                            users_of(u2, s)
                        } by {
                            lemma_users_insert(u2, j as int, (sel, (n - 1) as usize), s);
                        }
                    }
                }
                proof {
                    assert forall|s: SelectionView| #[trigger] users_of(self.source_users@, s) == demand_count(e1, s) + if exists|m: int|
                        k + 1 <= m < pv.len() && #[trigger] pv[m] == s {
                        1nat
                    } else {
                        0nat
                    } by {
                        if s == sk {
                            assert(pv[k as int] == s);
                            assert(!exists|m: int| k + 1 <= m < pv.len() && #[trigger] pv[m] == s);
                        } else {
                            if exists|m: int| k <= m < pv.len() && #[trigger] pv[m] == s {
                                let m = choose|m: int| k <= m < pv.len() && #[trigger] pv[m] == s;
                                assert(m != k);
                            }
                        }
                    }
                }
                k = k + 1;
            }
            proof {
                assert(pv.subrange(0, pv.len() as int) =~= pv);
            }
        }
        let ghost e1 = demand_entries(self.component_sources@);
        let ghost prev_set: Set<SelectionView> = match demand_of(e0, key) {
            Some(p) => p.to_set(),
            None => Set::empty(),
        };
        proof {
            assert(views(self.changed_sources@).to_set() == c0 + prev_set);
            assert forall|s: SelectionView| #[trigger] users_of(self.source_users@, s) == demand_count(e1, s) by {}
        }
        let ghost dv = views(demand@);
        let mut k: usize = 0;
        while k < demand.len()
            invariant
                k <= demand@.len(),
                dv == views(demand@),
                distinct(dv),
                demand_entries(self.component_sources@) == e1,
                e1.len() < usize::MAX,
                forall|a: int, b: int| 0 <= a < b < self.source_users@.len() ==> self.source_users@[a].0@ != self.source_users@[b].0@,
                forall|a: int| 0 <= a < self.source_users@.len() ==> #[trigger] self.source_users@[a].1 > 0,
                forall|s: SelectionView| #[trigger] users_of(self.source_users@, s) == demand_count(e1, s) + if exists|m: int|
                    0 <= m < k && #[trigger] dv[m] == s {
                    1nat
                } else {
                    0nat
                },
                distinct(views(self.changed_sources@)),
                views(self.changed_sources@).to_set() == c0 + prev_set + dv.subrange(0, k as int).to_set(),
                self.asset_queue@ == old(self).asset_queue@,
                self.asset_pending@ == old(self).asset_pending@,
                self.animation_sources@ == old(self).animation_sources@,
                self.evaluation_meshes_initialized == old(self).evaluation_meshes_initialized,
            decreases demand@.len() - k,
        {
            self.mark_changed(&demand[k]);
            let ghost sk = demand@[k as int]@;
            proof {
                assert(dv[k as int] == sk);
                assert(dv.subrange(0, k + 1) =~= dv.subrange(0, k as int).push(sk));
                dv.subrange(0, k as int).lemma_push_to_set_commute(sk);
                assert(views(self.changed_sources@).to_set() =~= c0 + prev_set + dv.subrange(0, k + 1).to_set());
                assert(!exists|m: int| 0 <= m < k && #[trigger] dv[m] == sk);
            }
            let ghost u1 = self.source_users@;
            match self.find_user(&demand[k]) {
                Some(j) => {
                    let (sel, n) = self.source_users.remove(j);
                    proof {
                        lemma_users_present(u1, j as int);
                        lemma_demand_count_bound(e1, sk);
                    }
                    let ghost u2 = self.source_users@;
                    self.source_users.insert(j, (sel, n + 1));
                    proof {
                        assert forall|s: SelectionView| #[trigger] users_of(self.source_users@, s) == if s == sk {
                            (n + 1) as nat
                        } else {
                            users_of(u1, s)
                        } by {
                            lemma_users_remove(u1, j as int, s);
                            lemma_users_insert(u2, j as int, (sel, (n + 1) as usize), s);
                        }
                    }
                },
                None => {
                    self.source_users.push((demand[k].duplicate(), 1));
                    proof {
                        assert forall|s: SelectionView| #[trigger] users_of(self.source_users@, s) == if s == sk {
                            1nat
                        } else {
                            users_of(u1, s)
                        } by {
                            assert(self.source_users@.drop_last() =~= u1);
                        }
                        lemma_users_absent(u1, sk);
                    }
                },
            }
            proof {
                assert forall|s: SelectionView| #[trigger] users_of(self.source_users@, s) == demand_count(e1, s) + if exists|m: int|
                    0 <= m < k + 1 && #[trigger] dv[m] == s {
                    1nat
                } else {
                    0nat
                } by {
                    if s == sk {
                        assert(dv[k as int] == s);
                    } else {
                        if exists|m: int| 0 <= m < k + 1 && #[trigger] dv[m] == s {
                            let m = choose|m: int| 0 <= m < k + 1 && #[trigger] dv[m] == s;
                            assert(m != k);
                        }
                    }
                }
            }
            k = k + 1;
        }
        proof {
            assert(dv.subrange(0, dv.len() as int) =~= dv);
            assert forall|s: SelectionView| dv.contains(s) <==> exists|m: int| 0 <= m < dv.len() && #[trigger] dv[m] == s by {}
        }
        if demand.len() > 0 {
            self.component_sources.push((key, demand));
            proof {
                let e2 = demand_entries(self.component_sources@);
                assert(e2 =~= e1.push((key, dv)));
                assert(e2.drop_last() =~= e1);
                assert forall|s: SelectionView| #[trigger] users_of(self.source_users@, s) == demand_count(e2, s) by {}
                assert forall|k2: (EntityId, u16)| k2 != key implies #[trigger] demand_of(e2, k2) == demand_of(e1, k2) by {}
            }
        }
        proof {
            let e2 = demand_entries(self.component_sources@);
            assert forall|k2: (EntityId, u16)| k2 != key implies #[trigger] demand_of(e2, k2) == demand_of(e0, k2) by {
                if let Some(i) = found {
                    lemma_demand_of_remove(e0, i as int, k2);
                }
            }
            assert forall|s: SelectionView| #[trigger] users_of(self.source_users@, s) + (if demand_of(e0, key) matches Some(p) && p.contains(s) {
                1nat
            } else {
                0nat
            }) == users_of(old(self).source_users@, s) + if dv.contains(s) {
                1nat
            } else {
                0nat
            } by {
                assert(users_of(old(self).source_users@, s) == demand_count(e0, s));
                if let Some(i) = found {
                    lemma_demand_count_remove(e0, i as int, s);
                    lemma_demand_of_remove(e0, i as int, key);
                }
            }
        }
    }

    fn find_component(&self, key: (EntityId, u16)) -> (r: Option<usize>)
        ensures
            r matches Some(i) ==> i < self.component_sources@.len() && self.component_sources@[i as int].0 == key,
            r is None ==> forall|a: int| 0 <= a < self.component_sources@.len() ==> self.component_sources@[a].0 != key,
    {
        let mut i: usize = 0;
        while i < self.component_sources.len()
            invariant
                i <= self.component_sources@.len(),
                forall|a: int| 0 <= a < i ==> self.component_sources@[a].0 != key,
            decreases self.component_sources@.len() - i,
        {
            let k = self.component_sources[i].0;
            if k.0 == key.0 && k.1 == key.1 {
                return Some(i);
            }
            i = i + 1;
        }
        None
    }

    fn find_user(&self, s: &AssetDemandSelection) -> (r: Option<usize>)
        ensures
            r matches Some(i) ==> i < self.source_users@.len() && self.source_users@[i as int].0@ == s@,
            r is None ==> forall|a: int| 0 <= a < self.source_users@.len() ==> self.source_users@[a].0@ != s@,
    {
        let mut i: usize = 0;
        while i < self.source_users.len()
            invariant
                i <= self.source_users@.len(),
                forall|a: int| 0 <= a < i ==> self.source_users@[a].0@ != s@,
            decreases self.source_users@.len() - i,
        {
            if self.source_users[i].0.same(s) {
                return Some(i);
            }
            i = i + 1;
        }
        None
    }

    /// Record a source as changed for the next demand delta.
    fn mark_changed(&mut self, s: &AssetDemandSelection)
        requires
            distinct(views(old(self).changed_sources@)),
        ensures
            distinct(views(final(self).changed_sources@)),
            views(final(self).changed_sources@).to_set() == views(old(self).changed_sources@).to_set().insert(s@),
            final(self).component_sources@ == old(self).component_sources@,
            final(self).source_users@ == old(self).source_users@,
            final(self).animation_sources@ == old(self).animation_sources@,
            final(self).asset_queue@ == old(self).asset_queue@,
            final(self).asset_pending@ == old(self).asset_pending@,
            final(self).evaluation_meshes_initialized == old(self).evaluation_meshes_initialized,
    {
        let mut i: usize = 0;
        while i < self.changed_sources.len()
            invariant
                i <= self.changed_sources@.len(),
                self.changed_sources@ == old(self).changed_sources@,
                distinct(views(self.changed_sources@)),
                forall|a: int| 0 <= a < i ==> self.changed_sources@[a]@ != s@,
            decreases self.changed_sources@.len() - i,
        {
            if self.changed_sources[i].same(s) {
                proof {
                    assert(views(self.changed_sources@)[i as int] == s@);
                    assert(views(self.changed_sources@).to_set() =~= views(self.changed_sources@).to_set().insert(s@));
                }
                return;
            }
            i = i + 1;
        }
        let ghost before = views(self.changed_sources@);
        self.changed_sources.push(s.duplicate());
        proof {
            assert(views(self.changed_sources@) =~= before.push(s@));
            before.lemma_push_to_set_commute(s@);
        }
    }

    /// Set equality of two selection sequences.
    fn same_sources(a: &Vec<AssetDemandSelection>, b: &Vec<AssetDemandSelection>) -> (r: bool)
        ensures
            r == (views(a@).to_set() == views(b@).to_set()),
    {
        let x = Self::covers(a, b);
        let y = Self::covers(b, a);
        proof {
            if x && y {
                assert(views(a@).to_set() =~= views(b@).to_set());
            }
            if views(a@).to_set() == views(b@).to_set() {
                assert forall|i: int| 0 <= i < a@.len() implies views(b@).contains(#[trigger] a@[i]@) by {
                    assert(views(a@).to_set().contains(views(a@)[i]));
                }
                assert forall|i: int| 0 <= i < b@.len() implies views(a@).contains(#[trigger] b@[i]@) by {
                    assert(views(b@).to_set().contains(views(b@)[i]));
                }
            }
        }
        x && y
    }

    /// Whether every selection of `a` occurs in `b`.
    fn covers(a: &Vec<AssetDemandSelection>, b: &Vec<AssetDemandSelection>) -> (r: bool)
        ensures
            r == forall|i: int| 0 <= i < a@.len() ==> views(b@).contains(#[trigger] a@[i]@),
    {
        let mut i: usize = 0;
        while i < a.len()
            invariant
                i <= a@.len(),
                forall|k: int| 0 <= k < i ==> views(b@).contains(#[trigger] a@[k]@),
            decreases a@.len() - i,
        {
            let mut j: usize = 0;
            let mut found = false;
            while j < b.len()
                invariant
                    j <= b@.len(),
                    i < a@.len(),
                    found ==> views(b@).contains(a@[i as int]@),
                    !found ==> forall|k: int| 0 <= k < j ==> b@[k]@ != a@[i as int]@,
                decreases b@.len() - j,
            {
                if b[j].same(&a[i]) {
                    proof {
                        assert(views(b@)[j as int] == a@[i as int]@);
                    }
                    found = true;
                }
                j = j + 1;
            }
            if !found {
                proof {
                    assert(!views(b@).contains(a@[i as int]@)) by {
                        if views(b@).contains(a@[i as int]@) {
                            let k = choose|k: int| 0 <= k < views(b@).len() && views(b@)[k] == a@[i as int]@;
                            assert(b@[k]@ == a@[i as int]@);
                        }
                    }
                }
                return false;
            }
            i = i + 1;
        }
        true
    }
}

/// Whether a sequence of selections names a source.
pub open spec fn names(v: Seq<AssetDemandSelection>, s: SelectionView) -> bool {
    exists|i: int| 0 <= i < v.len() && #[trigger] v[i]@ == s
}

/// The demand the last listed entry of a key gives it, as a set.
pub open spec fn last_demand(demands: Seq<((EntityId, u16), Vec<AssetDemandSelection>)>, k: (EntityId, u16)) -> Option<
    Set<SelectionView>,
>
    decreases demands.len(),
{
    if demands.len() == 0 {
        None
    } else if demands.last().0 == k {
        Some(views(demands.last().1@).to_set())
    } else {
        last_demand(demands.drop_last(), k)
    }
}

/// A recorded demand as a set; no demand is the empty set.
pub open spec fn demand_set(d: Option<Seq<SelectionView>>) -> Set<SelectionView> {
    match d {
        Some(p) => p.to_set(),
        None => Set::empty(),
    }
}

/// A source some listed entry names, or that a listed key demanded before.
pub open spec fn touched_named(
    before: AssetDependencySystemState,
    demands: Seq<((EntityId, u16), Vec<AssetDemandSelection>)>,
    s: SelectionView,
) -> bool {
    exists|i: int|
        0 <= i < demands.len() && (views((#[trigger] demands[i]).1@).contains(s) || demand_set(
            before.demand(demands[i].0),
        ).contains(s))
}

proof fn lemma_last_demand_entry(demands: Seq<((EntityId, u16), Vec<AssetDemandSelection>)>, k: (EntityId, u16))
    ensures
        last_demand(demands, k) matches Some(d) ==> exists|i: int|
            0 <= i < demands.len() && (#[trigger] demands[i]).0 == k && views(demands[i].1@).to_set() == d,
        last_demand(demands, k) is None ==> forall|i: int| 0 <= i < demands.len() ==> (#[trigger] demands[i]).0 != k,
    decreases demands.len(),
{
    if demands.len() > 0 {
        lemma_last_demand_entry(demands.drop_last(), k);
        if demands.last().0 != k {
            if let Some(d) = last_demand(demands, k) {
                let i = choose|i: int|
                    0 <= i < demands.drop_last().len() && (#[trigger] demands.drop_last()[i]).0 == k && views(
                        demands.drop_last()[i].1@,
                    ).to_set() == d;
                assert(demands[i] == demands.drop_last()[i]);
            } else {
                assert forall|i: int| 0 <= i < demands.len() implies (#[trigger] demands[i]).0 != k by {
                    if i < demands.len() - 1 {
                        assert(demands[i] == demands.drop_last()[i]);
                    }
                }
            }
        } else {
            assert(demands[demands.len() - 1] == demands.last());
        }
    }
}

proof fn lemma_touched_named_grows(
    before: AssetDependencySystemState,
    pre: Seq<((EntityId, u16), Vec<AssetDemandSelection>)>,
    post: Seq<((EntityId, u16), Vec<AssetDemandSelection>)>,
    s: SelectionView,
)
    requires
        post.drop_last() == pre,
        post.len() == pre.len() + 1,
    ensures
        touched_named(before, pre, s) ==> touched_named(before, post, s),
{
    if touched_named(before, pre, s) {
        let i = choose|i: int|
            0 <= i < pre.len() && (views((#[trigger] pre[i]).1@).contains(s) || demand_set(before.demand(pre[i].0)).contains(
                s,
            ));
        assert(post[i] == pre[i]);
    }
}

impl AssetDependencySystemState {
    /// Every source some component currently demands, each once.
    pub fn authored_demand(&self) -> (r: Vec<AssetDemandSelection>)
        requires
            self.wf(),
        ensures
            distinct(views(r@)),
            forall|s: SelectionView| views(r@).contains(s) <==> #[trigger] self.users(s) > 0,
    {
        let mut out: Vec<AssetDemandSelection> = Vec::new();
        let mut i: usize = 0;
        while i < self.source_users.len()
            invariant
                self.wf(),
                i <= self.source_users@.len(),
                out@.len() == i,
                forall|k: int| 0 <= k < i ==> (#[trigger] out@[k])@ == self.source_users@[k].0@,
            decreases self.source_users@.len() - i,
        {
            out.push(self.source_users[i].0.duplicate());
            i = i + 1;
        }
        proof {
            let u = self.source_users@;
            assert forall|a: int, b: int| 0 <= a < b < views(out@).len() implies views(out@)[a] != views(out@)[b] by {
                assert(out@[a]@ == u[a].0@);
                assert(out@[b]@ == u[b].0@);
            }
            assert forall|s: SelectionView| views(out@).contains(s) <==> #[trigger] self.users(s) > 0 by {
                if views(out@).contains(s) {
                    let k = choose|k: int| 0 <= k < views(out@).len() && views(out@)[k] == s;
                    assert(out@[k]@ == u[k].0@);
                    lemma_users_present(u, k);
                } else {
                    assert forall|a: int| 0 <= a < u.len() implies u[a].0@ != s by {
                        assert(out@[a]@ == u[a].0@);
                        assert(views(out@)[a] == u[a].0@);
                    }
                    lemma_users_absent(u, s);
                }
            }
        }
        out
    }

    /// Replace the demand of each listed component key, in order; returns every
    /// source the new demand names. Each listed key ends with the demand of its
    /// last entry; every source a touched key named before or after is marked
    /// changed unless that key's demand stayed equal.
    pub fn update_authored_demand(&mut self, demands: Vec<((EntityId, u16), Vec<AssetDemandSelection>)>) -> (r: Vec<AssetDemandSelection>)
        requires
            old(self).wf(),
            forall|i: int| 0 <= i < demands@.len() ==> distinct(views(#[trigger] demands@[i].1@)),
            old(self).component_sources@.len() + demands@.len() < usize::MAX,
        ensures
            final(self).wf(),
            forall|k: (EntityId, u16)| (forall|i: int| 0 <= i < demands@.len() ==> #[trigger] demands@[i].0 != k)
                ==> #[trigger] final(self).demand(k) == old(self).demand(k),
            forall|s: SelectionView| #[trigger] views(r@).contains(s) <==> exists|i: int|
                0 <= i < demands@.len() && views(#[trigger] demands@[i].1@).contains(s),
            forall|k: (EntityId, u16)| #[trigger] last_demand(demands@, k) matches Some(d) ==> demand_set(
                final(self).demand(k),
            ) == d,
            views(old(self).changed_sources@).to_set().subset_of(views(final(self).changed_sources@).to_set()),
            forall|s: SelectionView| #[trigger] views(final(self).changed_sources@).contains(s) ==> views(
                old(self).changed_sources@,
            ).contains(s) || touched_named(*old(self), demands@, s),
            final(self).asset_queue@ == old(self).asset_queue@,
            final(self).asset_pending@ == old(self).asset_pending@,
            final(self).animation_sources@ == old(self).animation_sources@,
            final(self).evaluation_meshes_initialized == old(self).evaluation_meshes_initialized,
    {
        let mut changed: Vec<AssetDemandSelection> = Vec::new();
        let mut demands = demands;
        let ghost all = demands@;
        let mut done: usize = 0;
        while demands.len() > 0
            invariant
                self.wf(),
                done + demands@.len() == all.len(),
                demands@ == all.subrange(done as int, all.len() as int),
                forall|i: int| 0 <= i < all.len() ==> distinct(views(#[trigger] all[i].1@)),
                self.component_sources@.len() <= old(self).component_sources@.len() + done,
                old(self).component_sources@.len() + all.len() < usize::MAX,
                forall|k: (EntityId, u16)| (forall|i: int| 0 <= i < done ==> #[trigger] all[i].0 != k)
                    ==> #[trigger] self.demand(k) == old(self).demand(k),
                forall|s: SelectionView| #[trigger] views(changed@).contains(s) <==> exists|i: int|
                    0 <= i < done && views(#[trigger] all[i].1@).contains(s),
                self.asset_queue@ == old(self).asset_queue@,
                self.asset_pending@ == old(self).asset_pending@,
                self.animation_sources@ == old(self).animation_sources@,
                self.evaluation_meshes_initialized == old(self).evaluation_meshes_initialized,
                forall|k: (EntityId, u16)| #[trigger] last_demand(all.subrange(0, done as int), k) matches Some(d)
                    ==> demand_set(self.demand(k)) == d,
                views(old(self).changed_sources@).to_set().subset_of(views(self.changed_sources@).to_set()),
                forall|s: SelectionView| #[trigger] views(self.changed_sources@).contains(s) ==> views(
                    old(self).changed_sources@,
                ).contains(s) || touched_named(*old(self), all.subrange(0, done as int), s),
            decreases demands@.len(),
        {
            let (key, demand) = demands.remove(0);
            proof {
                assert(all[done as int] == (key, demand));
            }
            let mut j: usize = 0;
            let ghost c0 = changed@;
            proof {
                assert forall|s: SelectionView| #[trigger] views(c0).contains(s) <==> exists|i: int|
                    0 <= i < done && views(#[trigger] all[i].1@).contains(s) by {}
            }
            while j < demand.len()
                invariant
                    j <= demand@.len(),
                    changed@.len() == c0.len() + j,
                    forall|k: int| 0 <= k < c0.len() ==> #[trigger] changed@[k] == c0[k],
                    forall|k: int| 0 <= k < j ==> (#[trigger] changed@[c0.len() + k])@ == demand@[k]@,
                decreases demand@.len() - j,
            {
                changed.push(demand[j].duplicate());
                j = j + 1;
            }
            let ghost before = *self;
            let ghost dv = views(demand@);
            self.replace_component_sources(key, demand);
            proof {
                let pre = all.subrange(0, done as int);
                let post = all.subrange(0, done + 1);
                assert(post.drop_last() =~= pre);
                assert(post.last() == all[done as int]);
                assert forall|k: (EntityId, u16)| #[trigger] last_demand(post, k) is Some implies demand_set(
                    self.demand(k),
                ) == last_demand(post, k)->0 by {
                    if k == key {
                        assert(last_demand(post, k) == Some(dv.to_set()));
                        if self.demand(k) is None {
                            assert(dv.len() == 0);
                            assert(dv.to_set() =~= Set::<SelectionView>::empty());
                        }
                    } else {
                        assert(last_demand(post, k) == last_demand(pre, k));
                    }
                }
                assert forall|s: SelectionView| #[trigger] views(self.changed_sources@).contains(s) implies views(
                    old(self).changed_sources@,
                ).contains(s) || touched_named(*old(self), post, s) by {
                    lemma_touched_named_grows(*old(self), pre, post, s);
                    if !views(before.changed_sources@).contains(s) {
                        assert(views(self.changed_sources@).to_set().contains(s));
                        if dv.contains(s) {
                            assert(post[done as int] == all[done as int]);
                            assert(views(post[done as int].1@).contains(s));
                        } else {
                            assert(demand_set(before.demand(key)).contains(s));
                            lemma_last_demand_entry(pre, key);
                            match last_demand(pre, key) {
                                Some(d) => {
                                    let i = choose|i: int| 0 <= i < pre.len() && (#[trigger] pre[i]).0 == key && views(pre[i].1@).to_set() == d;
                                    assert(d.contains(s));
                                    assert(views(pre[i].1@).to_set().contains(s));
                                    assert(views(post[i].1@).contains(s));
                                },
                                None => {
                                    assert forall|i: int| 0 <= i < done implies #[trigger] all[i].0 != key by {
                                        assert(pre[i] == all[i]);
                                    }
                                    assert(before.demand(key) == old(self).demand(key));
                                    assert(post[done as int].0 == key);
                                    assert(demand_set(old(self).demand(post[done as int].0)).contains(s));
                                },
                            }
                        }
                    } else {
                        assert(views(before.changed_sources@).to_set().contains(s));
                    }
                }
            }
            proof {
                assert forall|k: (EntityId, u16)| (forall|i: int| 0 <= i < done + 1 ==> #[trigger] all[i].0 != k)
                    implies #[trigger] self.demand(k) == old(self).demand(k) by {
                    assert(all[done as int].0 != k);
                    assert(before.demand(k) == old(self).demand(k));
                }
                assert forall|s: SelectionView| #[trigger] views(changed@).contains(s) <==> exists|i: int|
                    0 <= i < done + 1 && views(#[trigger] all[i].1@).contains(s) by {
                    let dv = views(all[done as int].1@);
                    if views(changed@).contains(s) {
                        let m = choose|m: int| 0 <= m < views(changed@).len() && views(changed@)[m] == s;
                        if m >= c0.len() {
                            assert(changed@[c0.len() + (m - c0.len())]@ == demand@[m - c0.len()]@);
                            assert(dv[m - c0.len()] == s);
                        } else {
                            assert(changed@[m] == c0[m]);
                            assert(views(c0)[m] == s);
                            assert(views(c0).contains(s));
                        }
                    }
                    if exists|i: int| 0 <= i < done + 1 && views(#[trigger] all[i].1@).contains(s) {
                        let i = choose|i: int| 0 <= i < done + 1 && views(#[trigger] all[i].1@).contains(s);
                        if i == done {
                            let m = choose|m: int| 0 <= m < dv.len() && dv[m] == s;
                            assert(changed@[c0.len() + m]@ == demand@[m]@);
                            assert(views(changed@)[c0.len() + m] == s);
                        } else {
                            assert(views(c0).contains(s));
                            let m = choose|m: int| 0 <= m < views(c0).len() && views(c0)[m] == s;
                            assert(changed@[m] == c0[m]);
                            assert(views(changed@)[m] == s);
                        }
                    }
                }
            }
            done = done + 1;
            proof {
                assert(demands@ =~= all.subrange(done as int, all.len() as int));
            }
        }
        proof {
            assert(all.subrange(0, done as int) =~= all);
        }
        changed
    }

    /// Forget every component's demand, as before a rebuild from authored state.
    pub fn clear_authored_demand(&mut self)
        requires
            old(self).wf(),
        ensures
            final(self).wf(),
            forall|k: (EntityId, u16)| #[trigger] final(self).demand(k) is None,
            forall|s: SelectionView| #[trigger] final(self).users(s) == 0,
            final(self).asset_queue@ == old(self).asset_queue@,
            final(self).asset_pending@ == old(self).asset_pending@,
    {
        self.component_sources = Vec::new();
        self.source_users = Vec::new();
        proof {
            assert(demand_entries(self.component_sources@) =~= Seq::empty());
        }
    }

    /// Replace the sources animation demands; sources that entered or left are
    /// marked changed.
    pub fn set_animation_sources(&mut self, sources: Vec<AssetDemandSelection>)
        requires
            old(self).wf(),
            distinct(views(sources@)),
        ensures
            final(self).wf(),
            views(final(self).animation_sources@) == views(sources@),
            forall|s: SelectionView| #[trigger] views(final(self).changed_sources@).contains(s) <==> views(
                old(self).changed_sources@,
            ).contains(s) || (names(old(self).animation_sources@, s) != names(sources@, s)),
            forall|s: SelectionView| #[trigger] final(self).users(s) == old(self).users(s),
            forall|k: (EntityId, u16)| #[trigger] final(self).demand(k) == old(self).demand(k),
            final(self).asset_queue@ == old(self).asset_queue@,
            final(self).asset_pending@ == old(self).asset_pending@,
    {
        let ghost c0 = views(self.changed_sources@).to_set();
        let mut i: usize = 0;
        while i < sources.len()
            invariant
                self.wf(),
                i <= sources@.len(),
                self.animation_sources@ == old(self).animation_sources@,
                self.component_sources@ == old(self).component_sources@,
                self.source_users@ == old(self).source_users@,
                self.asset_queue@ == old(self).asset_queue@,
                self.asset_pending@ == old(self).asset_pending@,
                forall|s: SelectionView| #[trigger] views(self.changed_sources@).to_set().contains(s) <==> c0.contains(s)
                    || (exists|m: int| 0 <= m < i && #[trigger] sources@[m]@ == s && !names(old(self).animation_sources@, s)),
            decreases sources@.len() - i,
        {
            if !Self::named(&self.animation_sources, &sources[i]) {
                self.mark_changed(&sources[i]);
            }
            proof {
                assert forall|s: SelectionView| #[trigger] views(self.changed_sources@).to_set().contains(s) <==> c0.contains(s)
                    || (exists|m: int| 0 <= m < i + 1 && #[trigger] sources@[m]@ == s && !names(old(self).animation_sources@, s)) by {
                    if s == sources@[i as int]@ {
                        assert(0 <= i < i + 1 && sources@[i as int]@ == s);
                    }
                    if exists|m: int| 0 <= m < i + 1 && #[trigger] sources@[m]@ == s && !names(old(self).animation_sources@, s) {
                        let m = choose|m: int| 0 <= m < i + 1 && #[trigger] sources@[m]@ == s && !names(old(self).animation_sources@, s);
                        if m < i {
                        }
                    }
                }
            }
            i = i + 1;
        }
        let mut j: usize = 0;
        while j < self.animation_sources.len()
            invariant
                self.wf(),
                j <= self.animation_sources@.len(),
                self.animation_sources@ == old(self).animation_sources@,
                self.component_sources@ == old(self).component_sources@,
                self.source_users@ == old(self).source_users@,
                self.asset_queue@ == old(self).asset_queue@,
                self.asset_pending@ == old(self).asset_pending@,
                forall|s: SelectionView| #[trigger] views(self.changed_sources@).to_set().contains(s) <==> c0.contains(s)
                    || (exists|m: int| 0 <= m < sources@.len() && #[trigger] sources@[m]@ == s && !names(old(self).animation_sources@, s))
                    || (exists|m: int| 0 <= m < j && #[trigger] self.animation_sources@[m]@ == s && !names(sources@, s)),
            decreases self.animation_sources@.len() - j,
        {
            let old_source = self.animation_sources[j].duplicate();
            if !Self::named(&sources, &old_source) {
                self.mark_changed(&old_source);
            }
            proof {
                assert forall|s: SelectionView| #[trigger] views(self.changed_sources@).to_set().contains(s) <==> c0.contains(s)
                    || (exists|m: int| 0 <= m < sources@.len() && #[trigger] sources@[m]@ == s && !names(old(self).animation_sources@, s))
                    || (exists|m: int| 0 <= m < j + 1 && #[trigger] self.animation_sources@[m]@ == s && !names(sources@, s)) by {
                    if s == self.animation_sources@[j as int]@ {
                        assert(0 <= j < j + 1 && self.animation_sources@[j as int]@ == s);
                    }
                }
            }
            j = j + 1;
        }
        self.animation_sources = sources;
        proof {
            assert forall|s: SelectionView| #[trigger] views(self.changed_sources@).contains(s) <==> views(
                old(self).changed_sources@,
            ).contains(s) || (names(old(self).animation_sources@, s) != names(self.animation_sources@, s)) by {
                assert(views(self.changed_sources@).contains(s) == views(self.changed_sources@).to_set().contains(s));
                assert(c0.contains(s) == views(old(self).changed_sources@).contains(s));
            }
        }
    }

    fn named(v: &Vec<AssetDemandSelection>, s: &AssetDemandSelection) -> (r: bool)
        ensures
            r == names(v@, s@),
    {
        let mut i: usize = 0;
        while i < v.len()
            invariant
                i <= v@.len(),
                forall|a: int| 0 <= a < i ==> v@[a]@ != s@,
            decreases v@.len() - i,
        {
            if v[i].same(s) {
                return true;
            }
            i = i + 1;
        }
        false
    }

    /// Drain the changed sources, each with whether component or animation
    /// demand still retains it.
    pub fn take_source_deltas(&mut self) -> (r: Vec<(AssetDemandSelection, bool)>)
        requires
            old(self).wf(),
        ensures
            final(self).wf(),
            final(self).changed_sources@.len() == 0,
            r@.len() == old(self).changed_sources@.len(),
            forall|i: int| 0 <= i < r@.len() ==> (#[trigger] r@[i]).0@ == old(self).changed_sources@[i]@
                && r@[i].1 == (old(self).users(r@[i].0@) > 0 || names(old(self).animation_sources@, r@[i].0@)),
            final(self).component_sources@ == old(self).component_sources@,
            final(self).source_users@ == old(self).source_users@,
            final(self).animation_sources@ == old(self).animation_sources@,
            final(self).asset_queue@ == old(self).asset_queue@,
            final(self).asset_pending@ == old(self).asset_pending@,
    {
        let mut out: Vec<(AssetDemandSelection, bool)> = Vec::new();
        let mut i: usize = 0;
        while i < self.changed_sources.len()
            invariant
                self.wf(),
                *self == *old(self),
                i <= self.changed_sources@.len(),
                out@.len() == i,
                forall|k: int| 0 <= k < i ==> (#[trigger] out@[k]).0@ == self.changed_sources@[k]@
                    && out@[k].1 == (self.users(out@[k].0@) > 0 || names(self.animation_sources@, out@[k].0@)),
            decreases self.changed_sources@.len() - i,
        {
            let source = self.changed_sources[i].duplicate();
            let retained = match self.find_user(&source) {
                Some(j) => {
                    proof {
                        lemma_users_present(self.source_users@, j as int);
                    }
                    true
                },
                None => {
                    proof {
                        lemma_users_absent(self.source_users@, source@);
                    }
                    Self::named(&self.animation_sources, &source)
                },
            };
            out.push((source, retained));
            i = i + 1;
        }
        self.changed_sources = Vec::new();
        proof {
            assert(views(self.changed_sources@) =~= Seq::empty());
        }
        out
    }
}

/// The pending record of an accepted upload, given the Host's answer.
pub open spec fn pending_of(u: AssetUpload, answer: Result<AssetKey, String>) -> PendingAssetUpload {
    match answer {
        Ok(key) => PendingAssetUpload { request_id: u.id, producer_key: u.key, resource_key: Some(key), error: None },
        Err(e) => PendingAssetUpload { request_id: u.id, producer_key: u.key, resource_key: None, error: Some(e) },
    }
}

/// Request identity out of the producer-local range.
pub open spec fn producer_asset_valid(key: AssetUploadIdentity) -> bool {
    key.asset < 0x8000_0000_0000_0000
}

impl AssetDependencySystemState {
    /// Queue producer bytes for the next ingress boundary. Asset numbers with
    /// the top bit set are reserved for Host resources.
    pub fn enqueue_asset(&mut self, upload: AssetUpload) -> (r: Result<(), ErrorReason>)
        ensures
            r is Ok <==> producer_asset_valid(upload.key),
            r is Err ==> r == Err::<(), ErrorReason>(ErrorReason::InvalidAsset) && final(self).asset_queue@ == old(self).asset_queue@,
            r is Ok ==> final(self).asset_queue@ == old(self).asset_queue@.push(upload),
            final(self).asset_pending@ == old(self).asset_pending@,
            follows(UploadCall::Enqueue { accepted: r is Ok }, *old(self), *final(self)),
            final(self).component_sources@ == old(self).component_sources@,
            final(self).source_users@ == old(self).source_users@,
            final(self).changed_sources@ == old(self).changed_sources@,
            final(self).animation_sources@ == old(self).animation_sources@,
    {
        if upload.key.asset >= 0x8000_0000_0000_0000 {
            return Err(ErrorReason::InvalidAsset);
        }
        self.asset_queue.push_back(upload);
        Ok(())
    }

    /// Number of upload replies still awaiting a resource-owned result.
    pub fn pending_asset_uploads(&self) -> (r: usize)
        requires
            self.asset_queue@.len() + self.asset_pending@.len() <= usize::MAX,
        ensures
            r == self.asset_queue@.len() + self.asset_pending@.len(),
    {
        self.asset_queue.len() + self.asset_pending.len()
    }

    /// Take the next queued upload, in enqueue order.
    fn next_asset_upload(&mut self) -> (r: Option<AssetUpload>)
        ensures
            old(self).asset_queue@.len() == 0 ==> r is None && final(self).asset_queue@ == old(self).asset_queue@,
            old(self).asset_queue@.len() > 0 ==> r == Some(old(self).asset_queue@[0])
                && final(self).asset_queue@ == old(self).asset_queue@.drop_first(),
            final(self).asset_pending@ == old(self).asset_pending@,
            final(self).component_sources@ == old(self).component_sources@,
            final(self).source_users@ == old(self).source_users@,
            final(self).changed_sources@ == old(self).changed_sources@,
            final(self).animation_sources@ == old(self).animation_sources@,
    {
        self.asset_queue.pop_front()
    }

    /// Record the Host's answer to one accepted upload: its shared resource
    /// key, or the reason it was refused.
    fn record_asset_upload(&mut self, request_id: u64, producer_key: AssetUploadIdentity, result: Result<AssetKey, String>)
        ensures
            final(self).asset_pending@.len() == old(self).asset_pending@.len() + 1,
            forall|i: int| 0 <= i < old(self).asset_pending@.len() ==> final(self).asset_pending@[i] == old(self).asset_pending@[i],
            ({
                let p = final(self).asset_pending@.last();
                &&& p.request_id == request_id
                &&& p.producer_key == producer_key
                &&& match result {
                    Ok(key) => p.resource_key == Some(key) && p.error is None,
                    Err(e) => p.resource_key is None && p.error == Some(e),
                }
            }),
            final(self).asset_queue@ == old(self).asset_queue@,
            final(self).component_sources@ == old(self).component_sources@,
            final(self).source_users@ == old(self).source_users@,
            final(self).changed_sources@ == old(self).changed_sources@,
            final(self).animation_sources@ == old(self).animation_sources@,
    {
        let pending = match result {
            Ok(key) => PendingAssetUpload { request_id, producer_key, resource_key: Some(key), error: None },
            Err(error) => PendingAssetUpload { request_id, producer_key, resource_key: None, error: Some(error) },
        };
        self.asset_pending.push(pending);
    }

    /// Hand every queued upload to the Host, in enqueue order, and keep each
    /// as pending with the Host's answer: its shared resource key, or the
    /// reason it was refused. `answers[k]` is the answer to the `k`-th queued
    /// upload.
    pub fn accept_asset_uploads(&mut self, answers: Vec<Result<AssetKey, String>>)
        requires
            answers@.len() == old(self).asset_queue@.len(),
        ensures
            final(self).asset_queue@.len() == 0,
            final(self).asset_pending@.len() == old(self).asset_pending@.len() + old(self).asset_queue@.len(),
            forall|i: int| 0 <= i < old(self).asset_pending@.len() ==> final(self).asset_pending@[i] == old(self).asset_pending@[i],
            forall|k: int|
                0 <= k < old(self).asset_queue@.len() ==> #[trigger] final(self).asset_pending@[old(self).asset_pending@.len() + k]
                    == pending_of(old(self).asset_queue@[k], answers@[k]),
            follows(UploadCall::Accept, *old(self), *final(self)),
            final(self).component_sources@ == old(self).component_sources@,
            final(self).source_users@ == old(self).source_users@,
            final(self).changed_sources@ == old(self).changed_sources@,
            final(self).animation_sources@ == old(self).animation_sources@,
    {
        let ghost queue0 = self.asset_queue@;
        let ghost pending0 = self.asset_pending@;
        let ghost all = answers@;
        let mut answers = answers;
        let ghost mut k: int = 0;
        while answers.len() > 0
            invariant
                0 <= k <= queue0.len(),
                all.len() == queue0.len(),
                answers@ == all.skip(k),
                self.asset_queue@ == queue0.skip(k),
                self.asset_pending@.len() == pending0.len() + k,
                forall|i: int| 0 <= i < pending0.len() ==> self.asset_pending@[i] == pending0[i],
                forall|q: int| 0 <= q < k ==> #[trigger] self.asset_pending@[pending0.len() + q] == pending_of(queue0[q], all[q]),
                self.component_sources@ == old(self).component_sources@,
                self.source_users@ == old(self).source_users@,
                self.changed_sources@ == old(self).changed_sources@,
                self.animation_sources@ == old(self).animation_sources@,
            decreases answers@.len(),
        {
            let answer = answers.remove(0);
            let upload = self.next_asset_upload();
            proof {
                assert(answer == all[k]);
                assert(upload == Some(queue0[k]));
                assert(answers@ =~= all.skip(k + 1));
                assert(self.asset_queue@ =~= queue0.skip(k + 1));
            }
            match upload {
                Some(u) => {
                    self.record_asset_upload(u.id, u.key, answer);
                },
                None => {},
            }
            proof {
                k = k + 1;
            }
        }
        proof {
            assert(self.asset_queue@.len() == 0);
        }
    }
}

/// What the Host reports of an uploaded resource.
pub enum UploadStatus<S> {
    /// A release of the resource is still pending.
    PendingRelease,
    /// The resource is still loading.
    Loading,
    /// The resource loaded, with its statistics.
    Loaded(S),
    /// The resource failed to load.
    Failed(String),
    /// The resource is no longer registered.
    Released,
}

/// Upload receipt reported once the resource itself settles.
pub struct AssetUploadOutcome<S> {
    pub id: u64,
    pub key: AssetUploadIdentity,
    pub tick: u64,
    pub result: Result<S, String>,
}

/// Settled result of a pending upload given the Host's status of its resource;
/// `None` while the upload stays pending.
pub open spec fn settle<S>(p: PendingAssetUpload, status: UploadStatus<S>) -> Option<Result<S, Seq<char>>> {
    if p.resource_key is Some && status is PendingRelease {
        None
    } else if p.error is Some {
        Some(Err(p.error->0@))
    } else if p.resource_key is None {
        Some(Err("Asset was released"@))
    } else {
        match status {
            UploadStatus::Loaded(stats) => Some(Ok(stats)),
            UploadStatus::Failed(e) => Some(Err(e@)),
            UploadStatus::Released => Some(Err("Asset was released"@)),
            _ => None,
        }
    }
}

/// Value of an outcome, with its message as characters.
pub open spec fn outcome_view<S>(o: AssetUploadOutcome<S>) -> (u64, AssetUploadIdentity, u64, Result<S, Seq<char>>) {
    (o.id, o.key, o.tick, match o.result {
        Ok(s) => Ok(s),
        Err(e) => Err(e@),
    })
}

/// Outcomes of the settled uploads, in pending order.
pub open spec fn settled<S>(ps: Seq<PendingAssetUpload>, sts: Seq<UploadStatus<S>>, tick: u64) -> Seq<(u64, AssetUploadIdentity, u64, Result<S, Seq<char>>)>
    decreases ps.len(),
{
    if ps.len() == 0 {
        Seq::empty()
    } else {
        let rest = settled(ps.drop_last(), sts, tick);
        match settle(ps.last(), sts[ps.len() - 1]) {
            Some(result) => rest.push((ps.last().request_id, ps.last().producer_key, tick, result)),
            None => rest,
        }
    }
}

/// Uploads that stay pending, in order.
pub open spec fn unsettled<S>(ps: Seq<PendingAssetUpload>, sts: Seq<UploadStatus<S>>) -> Seq<PendingAssetUpload>
    decreases ps.len(),
{
    if ps.len() == 0 {
        Seq::empty()
    } else {
        let rest = unsettled(ps.drop_last(), sts);
        match settle(ps.last(), sts[ps.len() - 1]) {
            Some(_) => rest,
            None => rest.push(ps.last()),
        }
    }
}

/// Replies still owed: queued uploads and uploads awaiting their resource.
pub open spec fn awaiting(s: AssetDependencySystemState) -> nat {
    s.asset_queue@.len() + s.asset_pending@.len()
}

/// Every pending upload is either returned as an outcome or stays pending,
/// never both and never lost.
pub proof fn lemma_outcomes_conserve_uploads<S>(ps: Seq<PendingAssetUpload>, sts: Seq<UploadStatus<S>>, tick: u64)
    ensures
        settled(ps, sts, tick).len() + unsettled(ps, sts).len() == ps.len(),
    decreases ps.len(),
{
    if ps.len() > 0 {
        lemma_outcomes_conserve_uploads(ps.drop_last(), sts, tick);
    }
}

/// Replies owed fall by exactly the outcomes returned: after taking outcomes,
/// the queued and pending uploads plus the returned outcomes are the uploads
/// owed before. Together with `enqueue_asset` (one more on success) and the
/// transfer from queue to pending (no change), the owed count is the number of
/// accepted uploads less the number of returned outcomes.
pub proof fn lemma_awaiting_after_outcomes<S>(
    before: AssetDependencySystemState,
    after: AssetDependencySystemState,
    statuses: Seq<UploadStatus<S>>,
    returned: Seq<(u64, AssetUploadIdentity, u64, Result<S, Seq<char>>)>,
    tick: u64,
)
    requires
        after.asset_pending@ == unsettled(before.asset_pending@, statuses),
        after.asset_queue@ == before.asset_queue@,
        returned == settled(before.asset_pending@, statuses, tick),
    ensures
        awaiting(after) + returned.len() == awaiting(before),
{
    lemma_outcomes_conserve_uploads(before.asset_pending@, statuses, tick);
}

/// A call on the upload queue, with what it reported.
pub enum UploadCall {
    /// `enqueue_asset`, which accepted the upload or refused it.
    Enqueue { accepted: bool },
    /// `accept_asset_uploads`, which hands every queued upload to the Host.
    Accept,
    /// `take_asset_outcomes`, with the number of outcomes it returned.
    Outcomes { returned: usize },
}

/// What a call does to the queued and pending uploads.
pub open spec fn follows(call: UploadCall, before: AssetDependencySystemState, after: AssetDependencySystemState) -> bool {
    match call {
        UploadCall::Enqueue { accepted } => after.asset_pending@ == before.asset_pending@ && if accepted {
            after.asset_queue@.len() == before.asset_queue@.len() + 1
        } else {
            after.asset_queue@ == before.asset_queue@
        },
        UploadCall::Accept => after.asset_queue@.len() == 0 && after.asset_pending@.len() == before.asset_pending@.len()
            + before.asset_queue@.len(),
        UploadCall::Outcomes { returned } => after.asset_queue@ == before.asset_queue@ && after.asset_pending@.len()
            + returned == before.asset_pending@.len(),
    }
}

/// Uploads accepted by the calls.
pub open spec fn accepted_uploads(calls: Seq<UploadCall>) -> int
    decreases calls.len(),
{
    if calls.len() == 0 {
        0
    } else {
        accepted_uploads(calls.drop_last()) + match calls.last() {
            UploadCall::Enqueue { accepted } => if accepted { 1int } else { 0int },
            _ => 0int,
        }
    }
}

/// Outcomes returned by the calls.
pub open spec fn returned_outcomes(calls: Seq<UploadCall>) -> int
    decreases calls.len(),
{
    if calls.len() == 0 {
        0
    } else {
        returned_outcomes(calls.drop_last()) + match calls.last() {
            UploadCall::Outcomes { returned } => returned as int,
            _ => 0int,
        }
    }
}

/// Owed uploads over a history of calls: the replies still awaited equal
/// those awaited at the start plus the uploads accepted since, less the
/// outcomes returned since. From a fresh or torn-down system, the pending
/// count is the accepted uploads less the returned outcomes.
pub proof fn lemma_owed_uploads(states: Seq<AssetDependencySystemState>, calls: Seq<UploadCall>)
    requires
        states.len() == calls.len() + 1,
        forall|k: int| 0 <= k < calls.len() ==> follows(#[trigger] calls[k], states[k], states[k + 1]),
    ensures
        awaiting(states.last()) + returned_outcomes(calls) == awaiting(states[0]) + accepted_uploads(calls),
    decreases calls.len(),
{
    if calls.len() > 0 {
        let n = calls.len() - 1;
        let rest = states.drop_last();
        assert forall|k: int| 0 <= k < calls.drop_last().len() implies follows(#[trigger] calls.drop_last()[k], rest[k], rest[k + 1]) by {
            assert(calls.drop_last()[k] == calls[k]);
        }
        lemma_owed_uploads(rest, calls.drop_last());
        assert(follows(calls[n], states[n], states[n + 1]));
        assert(calls.last() == calls[n]);
    }
}

/// Enqueueing yields no outcome by itself: outcomes taken right after an
/// enqueue are exactly those taken right before it.
pub proof fn lemma_enqueue_adds_no_outcome<S>(
    before: AssetDependencySystemState,
    after: AssetDependencySystemState,
    accepted: bool,
    statuses: Seq<UploadStatus<S>>,
    tick: u64,
)
    requires
        follows(UploadCall::Enqueue { accepted }, before, after),
    ensures
        settled(after.asset_pending@, statuses, tick) == settled(before.asset_pending@, statuses, tick),
        unsettled(after.asset_pending@, statuses) == unsettled(before.asset_pending@, statuses),
{
}

impl AssetDependencySystemState {
    /// Complete upload receipts after each resource reports availability.
    /// `statuses[i]` is the Host's status of the resource of the i-th pending
    /// upload. Settled uploads leave the pending list in order.
    pub fn take_asset_outcomes<S: Copy>(&mut self, statuses: Vec<UploadStatus<S>>, tick: u64) -> (r: Vec<AssetUploadOutcome<S>>)
        requires
            statuses@.len() == old(self).asset_pending@.len(),
        ensures
            r@.map_values(|o: AssetUploadOutcome<S>| outcome_view(o)) == settled(old(self).asset_pending@, statuses@, tick),
            final(self).asset_pending@ == unsettled(old(self).asset_pending@, statuses@),
            final(self).asset_queue@ == old(self).asset_queue@,
            follows(UploadCall::Outcomes { returned: r.len() }, *old(self), *final(self)),
            final(self).component_sources@ == old(self).component_sources@,
            final(self).source_users@ == old(self).source_users@,
            final(self).changed_sources@ == old(self).changed_sources@,
            final(self).animation_sources@ == old(self).animation_sources@,
    {
        let mut pending: Vec<PendingAssetUpload> = Vec::new();
        std::mem::swap(&mut pending, &mut self.asset_pending);
        let ghost all = pending@;
        let _total = pending.len();
        let ghost sts = statuses@;
        let mut statuses = statuses;
        let mut outcomes: Vec<AssetUploadOutcome<S>> = Vec::new();
        let mut done: usize = 0;
        while pending.len() > 0
            invariant
                done + pending@.len() == all.len(),
                pending@ == all.subrange(done as int, all.len() as int),
                statuses@ == sts.subrange(done as int, sts.len() as int),
                sts.len() == all.len(),
                all.len() <= usize::MAX,
                outcomes@.map_values(|o: AssetUploadOutcome<S>| outcome_view(o)) == settled(all.subrange(0, done as int), sts, tick),
                self.asset_pending@ == unsettled(all.subrange(0, done as int), sts),
                self.asset_queue@ == old(self).asset_queue@,
                self.component_sources@ == old(self).component_sources@,
                self.source_users@ == old(self).source_users@,
                self.changed_sources@ == old(self).changed_sources@,
                self.animation_sources@ == old(self).animation_sources@,
            decreases pending@.len(),
        {
            let p = pending.remove(0);
            let status = statuses.remove(0);
            let ghost prefix = all.subrange(0, done + 1);
            proof {
                assert(p == all[done as int]);
                assert(status == sts[done as int]);
                assert(prefix.drop_last() =~= all.subrange(0, done as int));
                assert(prefix.last() == p);
            }
            let keep = match (&p.resource_key, &status) {
                (Some(_), UploadStatus::PendingRelease) => true,
                _ => false,
            };
            if keep {
                self.asset_pending.push(p);
            } else {
                let result: Option<Result<S, String>> = match &p.error {
                    Some(e) => Some(Err(e.clone())),
                    None => match &p.resource_key {
                        None => Some(Err("Asset was released".to_owned())),
                        Some(_) => match &status {
                            UploadStatus::Loaded(stats) => Some(Ok(*stats)),
                            UploadStatus::Failed(e) => Some(Err(e.clone())),
                            UploadStatus::Released => Some(Err("Asset was released".to_owned())),
                            _ => None,
                        },
                    },
                };
                match result {
                    Some(result) => {
                        let ghost before = outcomes@;
                        outcomes.push(AssetUploadOutcome { id: p.request_id, key: p.producer_key, tick, result });
                        proof {
                            assert(outcomes@.map_values(|o: AssetUploadOutcome<S>| outcome_view(o)) =~= before.map_values(
                                |o: AssetUploadOutcome<S>| outcome_view(o),
                            ).push(outcome_view(outcomes@.last())));
                        }
                    },
                    None => {
                        self.asset_pending.push(p);
                    },
                }
            }
            done = done + 1;
            proof {
                assert(pending@ =~= all.subrange(done as int, all.len() as int));
                assert(statuses@ =~= sts.subrange(done as int, sts.len() as int));
            }
        }
        proof {
            assert(all.subrange(0, done as int) =~= all);
            lemma_outcomes_conserve_uploads(all, sts, tick);
            assert(outcomes@.map_values(|o: AssetUploadOutcome<S>| outcome_view(o)).len() == outcomes@.len());
        }
        outcomes
    }
}

/// Identity of a registered resource source.
pub struct AssetSource {
    pub kind: AssetTypeId,
    pub uri: String,
    pub variant: u32,
}

/// Whether `s` begins with `p`.
pub open spec fn has_prefix(s: Seq<u8>, p: Seq<u8>) -> bool {
    p.len() <= s.len() && s.subrange(0, p.len() as int) == p
}

/// Every byte is an ASCII decimal digit.
pub open spec fn all_digits(d: Seq<u8>) -> bool {
    forall|i: int| 0 <= i < d.len() ==> 48 <= #[trigger] d[i] <= 57
}

/// Decimal value of a digit sequence.
pub open spec fn decimal_value(d: Seq<u8>) -> int
    decreases d.len(),
{
    if d.len() == 0 {
        0
    } else {
        decimal_value(d.drop_last()) * 10 + (d.last() - 48)
    }
}

/// Position of the first `/`, if any.
pub open spec fn first_slash(s: Seq<u8>) -> Option<int>
    decreases s.len(),
{
    if s.len() == 0 {
        None
    } else if s[0] == 47 {
        Some(0)
    } else {
        match first_slash(s.drop_first()) {
            Some(k) => Some(k + 1),
            None => None,
        }
    }
}

/// A canonical decimal world number: digits only, no leading zero unless it
/// is the single digit, and equal to `world`.
pub open spec fn owner_names(owner: Seq<u8>, world: u64) -> bool {
    &&& owner.len() >= 1
    &&& all_digits(owner)
    &&& (owner.len() == 1 || owner[0] != 48)
    &&& decimal_value(owner) == world
}

/// Whether a registered source URI is the same source as authored text. A
/// world-local `asset://PATH` reference matches the producer registration
/// `producer://WORLD/PATH` of this world; any other text matches exactly.
pub open spec fn same_source(source: Seq<u8>, uri: Seq<u8>, world: u64) -> bool {
    let asset = "asset://".spec_bytes();
    let producer = "producer://".spec_bytes();
    if has_prefix(source, asset) {
        let path = source.subrange(asset.len() as int, source.len() as int);
        &&& has_prefix(uri, producer)
        &&& {
            let scoped = uri.subrange(producer.len() as int, uri.len() as int);
            match first_slash(scoped) {
                Some(k) => owner_names(scoped.subrange(0, k), world) && scoped.subrange(k + 1, scoped.len() as int)
                    == path,
                None => false,
            }
        }
    } else {
        uri == source
    }
}

proof fn lemma_decimal_prefix(d: Seq<u8>, k: int)
    requires
        all_digits(d),
        0 <= k <= d.len(),
    ensures
        decimal_value(d.subrange(0, k)) <= decimal_value(d),
    decreases d.len() - k,
{
    if k < d.len() {
        lemma_decimal_prefix(d, k + 1);
        assert(d.subrange(0, k + 1).drop_last() =~= d.subrange(0, k));
        assert(decimal_value(d.subrange(0, k)) >= 0) by {
            lemma_decimal_nonneg(d.subrange(0, k));
        }
    } else {
        assert(d.subrange(0, k) =~= d);
    }
}

proof fn lemma_decimal_nonneg(d: Seq<u8>)
    requires
        all_digits(d),
    ensures
        decimal_value(d) >= 0,
    decreases d.len(),
{
    if d.len() > 0 {
        lemma_decimal_nonneg(d.drop_last());
    }
}

fn has_prefix_exec(s: &[u8], p: &[u8]) -> (r: bool)
    ensures
        r == has_prefix(s@, p@),
{
    if p.len() > s.len() {
        return false;
    }
    let mut i: usize = 0;
    while i < p.len()
        invariant
            p@.len() <= s@.len(),
            i <= p@.len(),
            forall|j: int| 0 <= j < i ==> s@[j] == p@[j],
        decreases p@.len() - i,
    {
        if s[i] != p[i] {
            proof {
                assert(s@.subrange(0, p@.len() as int)[i as int] != p@[i as int]);
            }
            return false;
        }
        i = i + 1;
    }
    proof {
        assert(s@.subrange(0, p@.len() as int) =~= p@);
    }
    true
}

fn bytes_equal_from(a: &[u8], start: usize, b: &[u8], from: usize) -> (r: bool)
    requires
        start <= a@.len(),
        from <= b@.len(),
    ensures
        r == (a@.subrange(start as int, a@.len() as int) == b@.subrange(from as int, b@.len() as int)),
{
    if a.len() - start != b.len() - from {
        proof {
            assert(a@.subrange(start as int, a@.len() as int).len() != b@.subrange(from as int, b@.len() as int).len());
        }
        return false;
    }
    let blen = b.len();
    let mut i: usize = 0;
    while i < a.len() - start
        invariant
            blen == b@.len(),
            start <= a@.len(),
            from <= b@.len(),
            a@.len() - start == b@.len() - from,
            i <= a@.len() - start,
            forall|j: int| start <= j < start + i ==> #[trigger] a@[j] == b@[j - start + from],
        decreases a@.len() - start - i,
    {
        if a[start + i] != b[from + i] {
            proof {
                assert(a@.subrange(start as int, a@.len() as int)[i as int] != b@.subrange(from as int, b@.len() as int)[i as int]);
            }
            return false;
        }
        i = i + 1;
    }
    proof {
        assert(a@.subrange(start as int, a@.len() as int) =~= b@.subrange(from as int, b@.len() as int));
    }
    true
}

/// Whether `owner` is the canonical decimal text of `world`.
fn owner_is(owner: &[u8], start: usize, end: usize, world: u64) -> (r: bool)
    requires
        start <= end <= owner@.len(),
    ensures
        r == owner_names(owner@.subrange(start as int, end as int), world),
{
    let ghost d = owner@.subrange(start as int, end as int);
    if start == end {
        return false;
    }
    if end - start > 1 && owner[start] == 48 {
        proof {
            assert(d[0] == 48);
        }
        return false;
    }
    let mut value: u128 = 0;
    let mut i: usize = start;
    while i < end
        invariant
            start <= i <= end <= owner@.len(),
            d == owner@.subrange(start as int, end as int),
            all_digits(owner@.subrange(start as int, i as int)),
            value == decimal_value(owner@.subrange(start as int, i as int)),
            value <= u64::MAX,
        decreases end - i,
    {
        let c = owner[i];
        if c < 48 || c > 57 {
            proof {
                assert(d[i - start] == c);
            }
            return false;
        }
        let next = value * 10 + (c as u128 - 48);
        proof {
            let pre = owner@.subrange(start as int, i + 1);
            assert(pre.drop_last() =~= owner@.subrange(start as int, i as int));
            assert(pre.last() == c);
        }
        if next > 0xffff_ffff_ffff_ffff {
            proof {
                let pre = owner@.subrange(start as int, i + 1);
                assert(all_digits(pre));
                if all_digits(d) {
                    assert(d.subrange(0, i + 1 - start) =~= pre);
                    lemma_decimal_prefix(d, i + 1 - start);
                }
            }
            return false;
        }
        value = next;
        i = i + 1;
    }
    proof {
        assert(owner@.subrange(start as int, i as int) =~= d);
    }
    value == world as u128
}

/// Whether a registered source URI names the same source as authored text.
pub fn same_source_exec(source: &str, uri: &str, world: u64) -> (r: bool)
    ensures
        r == same_source(source.spec_bytes(), uri.spec_bytes(), world),
{
    let s = source.as_bytes();
    let u = uri.as_bytes();
    let asset = "asset://".as_bytes();
    let producer = "producer://".as_bytes();
    if !has_prefix_exec(s, asset) {
        return bytes_equal_from(u, 0, s, 0) && {
            proof {
                assert(u@.subrange(0, u@.len() as int) =~= u@);
                assert(s@.subrange(0, s@.len() as int) =~= s@);
            }
            true
        };
    }
    if !has_prefix_exec(u, producer) {
        return false;
    }
    let base = producer.len();
    let ghost scoped = u@.subrange(base as int, u@.len() as int);
    let mut k: usize = base;
    while k < u.len() && u[k] != 47
        invariant
            base <= k <= u@.len(),
            scoped == u@.subrange(base as int, u@.len() as int),
            forall|j: int| base <= j < k ==> u@[j] != 47,
            first_slash(scoped) == match first_slash(u@.subrange(k as int, u@.len() as int)) {
                Some(m) => Some(m + (k - base)),
                None => None::<int>,
            },
        decreases u@.len() - k,
    {
        proof {
            assert(u@.subrange(k + 1, u@.len() as int) =~= u@.subrange(k as int, u@.len() as int).drop_first());
        }
        k = k + 1;
    }
    if k == u.len() {
        proof {
            assert(u@.subrange(k as int, u@.len() as int) =~= Seq::<u8>::empty());
        }
        return false;
    }
    proof {
        assert(u@.subrange(k as int, u@.len() as int)[0] == 47);
        assert(scoped.subrange(0, k - base) =~= u@.subrange(base as int, k as int));
        assert(scoped.subrange(k - base + 1, scoped.len() as int) =~= u@.subrange(k + 1, u@.len() as int));
    }
    if !owner_is(u, base, k, world) {
        return false;
    }
    bytes_equal_from(u, k + 1, s, asset.len())
}

/// Whether a registered source still matches authored fields.
pub open spec fn reusable(provider: Option<&AssetSource>, kind: AssetTypeId, source: &str, variant: u32, world: WorldId) -> bool {
    match provider {
        Some(p) => p.kind == kind && p.variant == variant && same_source(
            source.spec_bytes(),
            encode_utf8(p.uri@),
            world.0,
        ),
        None => false,
    }
}

/// Reuse the previously resolved key while its registered source (`provider`,
/// the Host's identity of `previous`) still matches the authored type, text
/// and variant; otherwise take the Host's lookup of the scoped source (`found`).
pub fn source_key_from_fields(
    world: WorldId,
    previous: Option<AssetKey>,
    provider: Option<&AssetSource>,
    kind: AssetTypeId,
    source: &str,
    variant: u32,
    found: Option<AssetKey>,
) -> (r: Option<AssetKey>)
    ensures
        r == if previous is Some && reusable(provider, kind, source, variant, world) {
            previous
        } else {
            found
        },
{
    if let Some(key) = previous {
        if let Some(p) = provider {
            if p.kind == kind && p.variant == variant && same_source_exec(source, p.uri.as_str(), world.0) {
                return Some(key);
            }
        }
    }
    found
}

/// The key cached for an entity's slot, if the slot still belongs to it.
pub open spec fn cached(cache: Seq<Option<(EntityId, AssetKey)>>, entity: EntityId) -> Option<AssetKey> {
    let index = entity.spec_index() as int;
    if index < cache.len() {
        match cache[index] {
            Some((owner, key)) => if owner == entity {
                Some(key)
            } else {
                None
            },
            None => None,
        }
    } else {
        None
    }
}

/// Resolve an entity's source key through its slot cache. `resolve` receives
/// the key cached for this exact entity, if any, and answers the current key;
/// a changed answer is stored in the entity's slot.
pub fn cached_source_key<F: Fn(Option<AssetKey>) -> Option<AssetKey>>(
    cache: &mut Vec<Option<(EntityId, AssetKey)>>,
    entity: EntityId,
    resolve: F,
) -> (r: Option<AssetKey>)
    requires
        forall|p: Option<AssetKey>| resolve.requires((p,)),
    ensures
        resolve.ensures((cached(old(cache)@, entity),), r),
        r == cached(old(cache)@, entity) ==> final(cache)@ == old(cache)@,
        r != cached(old(cache)@, entity) ==> {
            &&& final(cache)@.len() == if old(cache)@.len() > entity.spec_index() {
                old(cache)@.len() as int
            } else {
                (entity.spec_index() + 1) as int
            }
            &&& final(cache)@[entity.spec_index() as int] == match r {
                Some(k) => Some((entity, k)),
                None => None::<(EntityId, AssetKey)>,
            }
            &&& forall|i: int| 0 <= i < final(cache)@.len() && i != entity.spec_index() ==> #[trigger] final(cache)@[i]
                == if i < old(cache)@.len() {
                old(cache)@[i]
            } else {
                None
            }
        },
{
    let index = entity.index() as usize;
    let previous = if index < cache.len() {
        match cache[index] {
            Some((owner, key)) => if owner == entity {
                Some(key)
            } else {
                None
            },
            None => None,
        }
    } else {
        None
    };
    let key = resolve(previous);
    if key == previous {
        return key;
    }
    let ghost before = cache@;
    if cache.len() <= index {
        while cache.len() <= index
            invariant
                cache@.len() <= index + 1,
                cache@.len() >= before.len(),
                forall|i: int| 0 <= i < cache@.len() ==> #[trigger] cache@[i] == if i < before.len() {
                    before[i]
                } else {
                    None
                },
            decreases index + 1 - cache@.len(),
        {
            cache.push(None);
        }
    }
    let entry = match key {
        Some(k) => Some((entity, k)),
        None => None,
    };
    cache.set(index, entry);
    key
}

/// Asset dependency system owned by one World.
pub struct AssetDependencySystem {
    pub state: AssetDependencySystemState,
}

/// Whether a component type feeds evaluation mesh demand.
pub open spec fn mesh_component(component: u16) -> bool {
    component == BOUNDING_GEOMETRY || component == PICKING_GEOMETRY || component == MESH_INSTANCE
}

impl AssetDependencySystem {
    pub fn new() -> (r: Self)
        ensures
            r.state.wf(),
            forall|s: SelectionView| r.state.users(s) == 0,
            forall|k: (EntityId, u16)| r.state.demand(k) is None,
            !r.state.evaluation_meshes_initialized,
            r.state.changed_sources@.len() == 0,
            r.state.animation_sources@.len() == 0,
            r.state.component_sources@.len() == 0,
            r.state.source_users@.len() == 0,
            r.state.asset_queue@.len() == 0,
            r.state.asset_pending@.len() == 0,
    {
        AssetDependencySystem { state: AssetDependencySystemState::new() }
    }

    /// A committed change of a mesh-bearing component invalidates the
    /// evaluation mesh demand.
    pub fn after_commit(&mut self, changed: &[(EntityId, u16)])
        ensures
            final(self).state.evaluation_meshes_initialized == (old(self).state.evaluation_meshes_initialized
                && !exists|i: int| 0 <= i < changed@.len() && mesh_component(#[trigger] changed@[i].1)),
            final(self).state.component_sources@ == old(self).state.component_sources@,
            final(self).state.source_users@ == old(self).state.source_users@,
            final(self).state.changed_sources@ == old(self).state.changed_sources@,
            final(self).state.animation_sources@ == old(self).state.animation_sources@,
            final(self).state.asset_queue@ == old(self).state.asset_queue@,
            final(self).state.asset_pending@ == old(self).state.asset_pending@,
    {
        let mut i: usize = 0;
        let mut any = false;
        while i < changed.len()
            invariant
                i <= changed@.len(),
                any == exists|j: int| 0 <= j < i && mesh_component(#[trigger] changed@[j].1),
            decreases changed@.len() - i,
        {
            let (_, component) = changed[i];
            if component == BOUNDING_GEOMETRY || component == PICKING_GEOMETRY || component == MESH_INSTANCE {
                proof {
                    assert(mesh_component(changed@[i as int].1));
                }
                any = true;
            }
            i = i + 1;
        }
        if any {
            self.state.evaluation_meshes_initialized = false;
        }
    }

    /// Teardown discards every dependency, queued upload and receipt.
    pub fn teardown(&mut self)
        ensures
            final(self).state.wf(),
            forall|s: SelectionView| final(self).state.users(s) == 0,
            forall|k: (EntityId, u16)| final(self).state.demand(k) is None,
            final(self).state.asset_queue@.len() == 0,
            final(self).state.asset_pending@.len() == 0,
    {
        self.state = AssetDependencySystemState::new();
    }
}

/// Reusable factory of asset dependency systems; it retains no world state.
pub struct AssetDependencySystemFactory;

impl AssetDependencySystemFactory {
    /// Stable factory and instance identity.
    pub fn id(&self) -> (r: SystemId)
        ensures
            r.same(SystemId("ipp.asset-dependencies")),
    {
        SystemId("ipp.asset-dependencies")
    }

    /// Runs after the constraint system when it exists.
    pub fn dependencies(&self) -> (r: Vec<SystemDependency>)
        ensures
            r@.len() == 1,
            r@[0] matches SystemDependency::After(c) && c.same(SystemId("ipp.constraints")),
    {
        vec![SystemDependency::After(SystemId("ipp.constraints"))]
    }

    /// Fresh per-world state.
    pub fn create(&self) -> (r: AssetDependencySystem)
        ensures
            r.state.wf(),
            forall|s: SelectionView| r.state.users(s) == 0,
            forall|k: (EntityId, u16)| r.state.demand(k) is None,
            !r.state.evaluation_meshes_initialized,
            r.state.changed_sources@.len() == 0,
            r.state.animation_sources@.len() == 0,
            r.state.component_sources@.len() == 0,
            r.state.source_users@.len() == 0,
            r.state.asset_queue@.len() == 0,
            r.state.asset_pending@.len() == 0,
    {
        AssetDependencySystem::new()
    }
}

/// Exclusive access to the asset dependency state for one World tick.
pub struct AssetDependencyAccess<'a> {
    /// The World's identity, which scopes its producer uploads.
    pub world: WorldId,
    /// The World's current tick, stamped on upload outcomes.
    pub tick: u64,
    pub state: &'a mut AssetDependencySystemState,
}

impl<'a> AssetDependencyAccess<'a> {
    /// Queue producer bytes for the next ingress boundary.
    pub fn enqueue_asset(&mut self, upload: AssetUpload) -> (r: Result<(), ErrorReason>)
        ensures
            r is Ok <==> producer_asset_valid(upload.key),
            r is Err ==> r == Err::<(), ErrorReason>(ErrorReason::InvalidAsset) && final(self).state.asset_queue@ == old(
                self,
            ).state.asset_queue@,
            r is Ok ==> final(self).state.asset_queue@ == old(self).state.asset_queue@.push(upload),
            final(self).state.asset_pending@ == old(self).state.asset_pending@,
            follows(UploadCall::Enqueue { accepted: r is Ok }, *old(self).state, *final(self).state),
            final(self).state.source_users@ == old(self).state.source_users@,
            final(self).state.component_sources@ == old(self).state.component_sources@,
            final(self).tick == old(self).tick,
    {
        self.state.enqueue_asset(upload)
    }

    /// Hand every queued upload to the Host and keep each as pending with the
    /// Host's answer; `answers[k]` answers the `k`-th queued upload.
    pub fn accept_asset_uploads(&mut self, answers: Vec<Result<AssetKey, String>>)
        requires
            answers@.len() == old(self).state.asset_queue@.len(),
        ensures
            final(self).state.asset_queue@.len() == 0,
            final(self).state.asset_pending@.len() == old(self).state.asset_pending@.len() + old(self).state.asset_queue@.len(),
            forall|i: int|
                0 <= i < old(self).state.asset_pending@.len() ==> final(self).state.asset_pending@[i] == old(
                    self,
                ).state.asset_pending@[i],
            forall|k: int|
                0 <= k < old(self).state.asset_queue@.len() ==> #[trigger] final(self).state.asset_pending@[old(
                    self,
                ).state.asset_pending@.len() + k] == pending_of(old(self).state.asset_queue@[k], answers@[k]),
            follows(UploadCall::Accept, *old(self).state, *final(self).state),
            final(self).state.source_users@ == old(self).state.source_users@,
            final(self).state.component_sources@ == old(self).state.component_sources@,
            final(self).tick == old(self).tick,
    {
        self.state.accept_asset_uploads(answers)
    }

    /// Complete upload receipts after each resource reports availability,
    /// stamped with this tick.
    pub fn take_asset_outcomes<S: Copy>(&mut self, statuses: Vec<UploadStatus<S>>) -> (r: Vec<AssetUploadOutcome<S>>)
        requires
            statuses@.len() == old(self).state.asset_pending@.len(),
        ensures
            r@.map_values(|o: AssetUploadOutcome<S>| outcome_view(o)) == settled(
                old(self).state.asset_pending@,
                statuses@,
                old(self).tick,
            ),
            final(self).state.asset_pending@ == unsettled(old(self).state.asset_pending@, statuses@),
            final(self).state.asset_queue@ == old(self).state.asset_queue@,
            follows(UploadCall::Outcomes { returned: r.len() }, *old(self).state, *final(self).state),
            final(self).state.source_users@ == old(self).state.source_users@,
            final(self).state.component_sources@ == old(self).state.component_sources@,
            final(self).tick == old(self).tick,
    {
        let tick = self.tick;
        self.state.take_asset_outcomes(statuses, tick)
    }
}

/// Shared read access to the asset dependency state.
pub struct AssetDependencyReadAccess<'a> {
    pub state: &'a AssetDependencySystemState,
}

impl<'a> AssetDependencyReadAccess<'a> {
    /// Number of upload replies still awaiting a resource-owned result.
    pub fn pending_asset_uploads(&self) -> (r: usize)
        requires
            self.state.asset_queue@.len() + self.state.asset_pending@.len() <= usize::MAX,
        ensures
            r == self.state.asset_queue@.len() + self.state.asset_pending@.len(),
    {
        self.state.pending_asset_uploads()
    }
}

/// Some entry's demand names a source exactly when its count is positive.
pub proof fn lemma_demand_count_positive(entries: Seq<((EntityId, u16), Seq<SelectionView>)>, s: SelectionView)
    ensures
        demand_count(entries, s) > 0 <==> exists|i: int| 0 <= i < entries.len() && (#[trigger] entries[i]).1.contains(s),
    decreases entries.len(),
{
    if entries.len() > 0 {
        let rest = entries.drop_last();
        lemma_demand_count_positive(rest, s);
        if exists|i: int| 0 <= i < entries.len() && (#[trigger] entries[i]).1.contains(s) {
            let i = choose|i: int| 0 <= i < entries.len() && (#[trigger] entries[i]).1.contains(s);
            if i < entries.len() - 1 {
                assert(rest[i] == entries[i]);
            }
        }
        if exists|i: int| 0 <= i < rest.len() && (#[trigger] rest[i]).1.contains(s) {
            let i = choose|i: int| 0 <= i < rest.len() && (#[trigger] rest[i]).1.contains(s);
            assert(entries[i] == rest[i]);
        }
    }
}

/// With unique keys, each entry is the recorded demand of its key, and every
/// recorded demand is some entry.
pub proof fn lemma_demand_of_entry(entries: Seq<((EntityId, u16), Seq<SelectionView>)>, key: (EntityId, u16))
    requires
        forall|a: int, b: int| 0 <= a < b < entries.len() ==> entries[a].0 != entries[b].0,
    ensures
        forall|i: int| 0 <= i < entries.len() && entries[i].0 == key ==> demand_of(entries, key) == Some(
            #[trigger] entries[i].1,
        ),
        demand_of(entries, key) matches Some(d) ==> exists|i: int| 0 <= i < entries.len() && (#[trigger] entries[i]).0 == key
            && entries[i].1 == d,
    decreases entries.len(),
{
    if entries.len() > 0 {
        let rest = entries.drop_last();
        lemma_demand_of_entry(rest, key);
        assert forall|i: int| 0 <= i < entries.len() && entries[i].0 == key implies demand_of(entries, key) == Some(
            #[trigger] entries[i].1,
        ) by {
            if i < entries.len() - 1 {
                assert(rest[i] == entries[i]);
                assert(entries.last().0 != key);
            }
        }
        if entries.last().0 != key {
            if demand_of(rest, key) is Some {
                let i = choose|i: int| 0 <= i < rest.len() && (#[trigger] rest[i]).0 == key && rest[i].1 == demand_of(rest, key)->0;
                assert(entries[i] == rest[i]);
            }
        }
    }
}

/// Retention law: a source has component users exactly while some
/// component's recorded demand names it.
pub proof fn lemma_retained_iff_demanded(state: AssetDependencySystemState, s: SelectionView)
    requires
        state.wf(),
    ensures
        state.users(s) > 0 <==> exists|key: (EntityId, u16)| #[trigger] state.demand(key) matches Some(d) && d.contains(s),
{
    let entries = demand_entries(state.component_sources@);
    assert(state.users(s) == demand_count(entries, s));
    lemma_demand_count_positive(entries, s);
    if demand_count(entries, s) > 0 {
        let i = choose|i: int| 0 <= i < entries.len() && (#[trigger] entries[i]).1.contains(s);
        lemma_demand_of_entry(entries, entries[i].0);
        assert(state.demand(entries[i].0) == Some(entries[i].1));
    }
    if exists|key: (EntityId, u16)| #[trigger] state.demand(key) matches Some(d) && d.contains(s) {
        let key = choose|key: (EntityId, u16)| #[trigger] state.demand(key) matches Some(d) && d.contains(s);
        lemma_demand_of_entry(entries, key);
        let i = choose|i: int| 0 <= i < entries.len() && (#[trigger] entries[i]).0 == key && entries[i].1 == state.demand(key)->0;
        assert(entries[i].1.contains(s));
    }
}

// ---- Producer upload identities as source URIs ----
/// Canonical decimal text of a number.
pub open spec fn decimal(n: nat) -> Seq<u8>
    decreases n,
{
    if n < 10 {
        seq![(48 + n) as u8]
    } else {
        decimal(n / 10).push((48 + n % 10) as u8)
    }
}

/// The URI under which a producer's upload is registered in a world.
pub open spec fn producer_uri(world: u64, kind: u32, asset: u64) -> Seq<u8> {
    "producer://".spec_bytes() + decimal(world as nat) + seq![47u8] + decimal(kind as nat) + seq![47u8] + decimal(
        asset as nat,
    )
}

/// A source as a world registers it: a world-local `asset://PATH` becomes
/// `producer://WORLD/PATH`; any other text stays as written.
pub open spec fn scoped_source(source: Seq<u8>, world: u64) -> Seq<u8> {
    let asset = "asset://".spec_bytes();
    if has_prefix(source, asset) {
        "producer://".spec_bytes() + decimal(world as nat) + seq![47u8] + source.subrange(asset.len() as int, source.len() as int)
    } else {
        source
    }
}

/// Append the canonical decimal text of `n`.
fn push_decimal(out: &mut Vec<u8>, n: u64)
    ensures
        final(out)@ == old(out)@ + decimal(n as nat),
    decreases n,
{
    if n >= 10 {
        push_decimal(out, n / 10);
    }
    let ghost before = out@;
    out.push((48 + n % 10) as u8);
    proof {
        if n >= 10 {
            assert(out@ =~= old(out)@ + decimal(n as nat));
        } else {
            assert(out@ =~= old(out)@ + decimal(n as nat));
        }
    }
}

fn push_bytes(out: &mut Vec<u8>, bytes: &[u8], from: usize)
    requires
        from <= bytes@.len(),
    ensures
        final(out)@ == old(out)@ + bytes@.subrange(from as int, bytes@.len() as int),
{
    let mut i: usize = from;
    while i < bytes.len()
        invariant
            from <= i <= bytes@.len(),
            out@ == old(out)@ + bytes@.subrange(from as int, i as int),
        decreases bytes@.len() - i,
    {
        out.push(bytes[i]);
        i = i + 1;
        assert(out@ =~= old(out)@ + bytes@.subrange(from as int, i as int));
    }
}

/// The URI under which a producer's upload is registered in a world.
pub fn upload_uri(world: WorldId, key: AssetUploadIdentity) -> (r: Vec<u8>)
    ensures
        r@ == producer_uri(world.0, key.kind.0, key.asset),
{
    let mut out: Vec<u8> = Vec::new();
    let prefix = "producer://".as_bytes();
    push_bytes(&mut out, prefix, 0);
    push_decimal(&mut out, world.0);
    out.push(47);
    push_decimal(&mut out, key.kind.0 as u64);
    out.push(47);
    push_decimal(&mut out, key.asset);
    proof {
        assert(prefix@.subrange(0, prefix@.len() as int) =~= prefix@);
        assert(out@ =~= producer_uri(world.0, key.kind.0, key.asset));
    }
    out
}

/// A source as the world registers it.
fn scope_source(source: &[u8], world: u64) -> (r: Vec<u8>)
    ensures
        r@ == scoped_source(source@, world),
{
    let asset = "asset://".as_bytes();
    let mut out: Vec<u8> = Vec::new();
    if has_prefix_exec(source, asset) {
        let prefix = "producer://".as_bytes();
        push_bytes(&mut out, prefix, 0);
        push_decimal(&mut out, world);
        out.push(47);
        push_bytes(&mut out, source, asset.len());
        proof {
            assert(prefix@.subrange(0, prefix@.len() as int) =~= prefix@);
            assert(out@ =~= scoped_source(source@, world));
        }
    } else {
        push_bytes(&mut out, source, 0);
        proof {
            assert(source@.subrange(0, source@.len() as int) =~= source@);
        }
    }
    out
}

fn same_bytes(a: &[u8], b: &[u8]) -> (r: bool)
    ensures
        r == (a@ == b@),
{
    if a.len() != b.len() {
        return false;
    }
    let mut i: usize = 0;
    while i < a.len()
        invariant
            a@.len() == b@.len(),
            i <= a@.len(),
            forall|j: int| 0 <= j < i ==> a@[j] == b@[j],
        decreases a@.len() - i,
    {
        if a[i] != b[i] {
            return false;
        }
        i = i + 1;
    }
    assert(a@ =~= b@);
    true
}

/// Some retained source of the world is the upload's registration.
pub open spec fn upload_demanded(users: Seq<(AssetDemandSelection, usize)>, world: u64, key: AssetUploadIdentity) -> bool {
    exists|i: int|
        0 <= i < users.len() && (#[trigger] users[i]).0.kind == key.kind && users[i].0.variant == key.variant && scoped_source(
            encode_utf8(users[i].0.source@),
            world,
        ) == producer_uri(world, key.kind.0, key.asset)
}

impl AssetDependencySystemState {
    /// Whether remaining world demand still names a producer's upload.
    pub fn upload_retained(&self, world: WorldId, key: AssetUploadIdentity) -> (r: bool)
        ensures
            r == upload_demanded(self.source_users@, world.0, key),
    {
        let uri = upload_uri(world, key);
        let mut i: usize = 0;
        while i < self.source_users.len()
            invariant
                uri@ == producer_uri(world.0, key.kind.0, key.asset),
                i <= self.source_users@.len(),
                forall|j: int|
                    0 <= j < i ==> !((#[trigger] self.source_users@[j]).0.kind == key.kind && self.source_users@[j].0.variant
                        == key.variant && scoped_source(encode_utf8(self.source_users@[j].0.source@), world.0) == uri@),
            decreases self.source_users@.len() - i,
        {
            let s = &self.source_users[i].0;
            if s.kind == key.kind && s.variant == key.variant {
                let scoped = scope_source(s.source.as_str().as_bytes(), world.0);
                if same_bytes(scoped.as_slice(), uri.as_slice()) {
                    return true;
                }
            }
            i = i + 1;
        }
        false
    }
}

impl<'a> AssetDependencyAccess<'a> {
    /// Release one producer's uploaded registration unless remaining world
    /// demand retains the immutable source; returns whether the Host
    /// releases it.
    pub fn release_asset_upload(&mut self, key: AssetUploadIdentity) -> (r: bool)
        ensures
            r == !upload_demanded(old(self).state.source_users@, old(self).world.0, key),
            final(self).state.source_users@ == old(self).state.source_users@,
            final(self).state.component_sources@ == old(self).state.component_sources@,
            final(self).state.asset_queue@ == old(self).state.asset_queue@,
            final(self).state.asset_pending@ == old(self).state.asset_pending@,
            final(self).world == old(self).world,
            final(self).tick == old(self).tick,
    {
        !self.state.upload_retained(self.world, key)
    }
}

/// Resolve a world-local producer key or a retained Host resource identity.
/// Asset numbers with the top bit set name a Host resource directly:
/// `provider` is the Host's registered source of that resource, accepted
/// when its type and variant match. Other numbers name this world's
/// producer upload: `found` is the Host's lookup of `upload_uri`.
pub fn resolve_asset_key(
    world: WorldId,
    key: AssetUploadIdentity,
    provider: Option<&AssetSource>,
    found: Option<AssetKey>,
) -> (r: Option<AssetKey>)
    ensures
        r == if key.asset >= 0x8000_0000_0000_0000 {
            if provider matches Some(p) && p.kind == key.kind && p.variant == key.variant {
                Some(AssetKey(key.asset))
            } else {
                None
            }
        } else {
            found
        },
{
    if key.asset >= 0x8000_0000_0000_0000 {
        return match provider {
            Some(p) => if p.kind == key.kind && p.variant == key.variant {
                Some(AssetKey(key.asset))
            } else {
                None
            },
            None => None,
        };
    }
    found
}

} // verus!
