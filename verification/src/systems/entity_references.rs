//! Sparse producer-reference lookup for mandatory deletion cleanup: every
//! entity's referenced target, and for each target the entities that reference it.

use crate::ids::EntityId;
use crate::world::{
    EntityRecord, FieldValue, FieldWrite, WorldEntityState, WorldMutationState, field_of,
    input_value_of,
};
use std::collections::{BTreeMap, BTreeSet};
use vstd::prelude::*;

verus! {

broadcast use vstd::std_specs::btree::group_btree_axioms, vstd::laws_cmp::group_laws_cmp;

/// Bidirectional entity-reference index keyed by identity bits.
pub struct ProducerReferenceIndex {
    pub targets: BTreeMap<u64, u64>,
    pub users: BTreeMap<u64, BTreeSet<u64>>,
}

/// `users` is exactly the inverse of `targets`, with no empty user sets.
#[verifier::opaque]
pub open spec fn consistent(targets: Map<u64, u64>, users: Map<u64, BTreeSet<u64>>) -> bool {
    &&& forall|e: u64|
        #[trigger] targets.contains_key(e) ==> users.contains_key(targets[e]) && users[targets[e]]@.contains(e)
    &&& forall|t: u64, e: u64|
        users.contains_key(t) && #[trigger] users[t]@.contains(e) ==> targets.contains_key(e)
            && targets[e] == t
    &&& forall|t: u64| #[trigger] users.contains_key(t) ==> !users[t]@.is_empty()
}

/// Referenced target stored at a field of an authored component, if it names an entity.
pub open spec fn referenced_target(state: WorldEntityState, entity: EntityId, component: u16, offset: u32) -> Option<u64> {
    match field_of(input_value_of(state.record(entity), component), offset) {
        Some(FieldValue::Entity(target)) => if target.bits != 0 {
            Some(target.bits)
        } else {
            None
        },
        _ => None,
    }
}

impl ProducerReferenceIndex {
    pub open spec fn wf(&self) -> bool {
        consistent(self.targets@, self.users@)
    }

    /// Empty index.
    pub fn new() -> (r: Self)
        ensures
            r.wf(),
            r.targets@ == Map::<u64, u64>::empty(),
    {
        reveal(consistent);
        ProducerReferenceIndex { targets: BTreeMap::new(), users: BTreeMap::new() }
    }

    /// Record (or clear) the target referenced by one entity.
    #[verifier::rlimit(40)]
    pub fn set(&mut self, entity: EntityId, target: Option<EntityId>)
        requires
            old(self).wf(),
        ensures
            final(self).wf(),
            final(self).targets@ == match target {
                Some(t) => old(self).targets@.insert(entity.bits, t.bits),
                None => old(self).targets@.remove(entity.bits),
            },
    {
        let e = entity.bits;
        let current = match self.targets.get(&e) {
            Some(t) => Some(*t),
            None => None,
        };
        let wanted = match target {
            Some(t) => Some(t.bits),
            None => None,
        };
        if current == wanted {
            proof {
                match target {
                    Some(t) => {
                        assert(self.targets@.insert(e, t.bits) =~= self.targets@);
                    },
                    None => {
                        assert(self.targets@.remove(e) =~= self.targets@);
                    },
                }
            }
            return;
        }
        let ghost t0 = self.targets@;
        self.detach(e);
        match target {
            Some(t) => {
                self.attach(e, t.bits);
                assert(self.targets@ =~= t0.insert(e, t.bits));
            },
            None => {},
        }
    }

    /// Remove an entity's entry and its membership in the target's user set.
    #[verifier::rlimit(40)]
    fn detach(&mut self, e: u64)
        requires
            old(self).wf(),
        ensures
            final(self).wf(),
            final(self).targets@ == old(self).targets@.remove(e),
    {
        reveal(consistent);
        let ghost t0 = self.targets@;
        let ghost u0 = self.users@;
        match self.targets.remove(&e) {
            Some(old_target) => {
                match self.users.remove(&old_target) {
                    Some(mut users) => {
                        users.remove(&e);
                        if !users.is_empty() {
                            self.users.insert(old_target, users);
                        }
                    },
                    None => {},
                }
            },
            None => {},
        }
        proof {
            assert forall|x: u64| #[trigger] self.targets@.contains_key(x) implies self.users@.contains_key(
                self.targets@[x],
            ) && self.users@[self.targets@[x]]@.contains(x) by {
                assert(t0.contains_key(x) && x != e);
            }
            assert forall|t: u64, x: u64|
                self.users@.contains_key(t) && #[trigger] self.users@[t]@.contains(x) implies self.targets@.contains_key(x)
                && self.targets@[x] == t by {
                assert(u0.contains_key(t));
            }
            assert forall|t: u64| #[trigger] self.users@.contains_key(t) implies !self.users@[t]@.is_empty() by {
                assert(u0.contains_key(t));
            }
        }
    }

    /// Add an entry for an entity that has none.
    #[verifier::rlimit(40)]
    fn attach(&mut self, e: u64, tb: u64)
        requires
            old(self).wf(),
            !old(self).targets@.contains_key(e),
        ensures
            final(self).wf(),
            final(self).targets@ == old(self).targets@.insert(e, tb),
    {
        reveal(consistent);
        let ghost t1 = self.targets@;
        let ghost u1 = self.users@;
        self.targets.insert(e, tb);
        let mut set = match self.users.remove(&tb) {
            Some(s) => s,
            None => BTreeSet::new(),
        };
        set.insert(e);
        self.users.insert(tb, set);
        proof {
            assert forall|x: u64| #[trigger] self.targets@.contains_key(x) implies self.users@.contains_key(
                self.targets@[x],
            ) && self.users@[self.targets@[x]]@.contains(x) by {
                if x != e {
                    assert(t1.contains_key(x));
                }
            }
            assert forall|tt: u64, x: u64|
                self.users@.contains_key(tt) && #[trigger] self.users@[tt]@.contains(x) implies self.targets@.contains_key(x)
                && self.targets@[x] == tt by {
                if tt == tb {
                    if x != e {
                        assert(u1.contains_key(tb) && u1[tb]@.contains(x));
                    }
                } else {
                    assert(u1.contains_key(tt));
                    if x == e {
                        assert(!t1.contains_key(e));
                    }
                }
            }
            assert forall|tt: u64| #[trigger] self.users@.contains_key(tt) implies !self.users@[tt]@.is_empty() by {
                if tt == tb {
                    assert(self.users@[tt]@.contains(e));
                } else {
                    assert(u1.contains_key(tt));
                }
            }
        }
    }

    /// Refresh one entity's entry from its authored producer value.
    pub fn read(&mut self, state: &WorldEntityState, entity: EntityId, component: u16, offset: u32)
        requires
            old(self).wf(),
        ensures
            final(self).wf(),
            final(self).targets@ == match referenced_target(*state, entity, component, offset) {
                Some(t) => old(self).targets@.insert(entity.bits, t),
                None => old(self).targets@.remove(entity.bits),
            },
    {
        let target = match state.get(entity) {
            Some(record) => match record.input_value(component) {
                Some(value) => match value.field(offset) {
                    Some(FieldValue::Entity(target)) => if target.bits != 0 {
                        Some(target)
                    } else {
                        None
                    },
                    _ => None,
                },
                None => None,
            },
            None => None,
        };
        self.set(entity, target);
    }
}

/// Targets read from every record, in record order, applied to a starting map.
pub open spec fn rebuilt(records: Seq<EntityRecord>, state: WorldEntityState, component: u16, offset: u32) -> Map<u64, u64>
    decreases records.len(),
{
    if records.len() == 0 {
        Map::empty()
    } else {
        let rest = rebuilt(records.drop_last(), state, component, offset);
        let e = records.last().id;
        match referenced_target(state, e, component, offset) {
            Some(t) => rest.insert(e.bits, t),
            None => rest.remove(e.bits),
        }
    }
}

impl ProducerReferenceIndex {
    /// Rebuild the whole index from every authored record.
    pub fn rebuild(&mut self, state: &WorldEntityState, component: u16, offset: u32)
        ensures
            final(self).wf(),
            final(self).targets@ == rebuilt(state.entities@, *state, component, offset),
    {
        *self = ProducerReferenceIndex::new();
        let mut i: usize = 0;
        while i < state.entities.len()
            invariant
                i <= state.entities@.len(),
                self.wf(),
                self.targets@ == rebuilt(state.entities@.subrange(0, i as int), *state, component, offset),
            decreases state.entities@.len() - i,
        {
            proof {
                assert(state.entities@.subrange(0, i + 1).drop_last() =~= state.entities@.subrange(0, i as int));
            }
            let id = state.entities[i].id;
            self.read(state, id, component, offset);
            i = i + 1;
        }
        assert(state.entities@.subrange(0, i as int) =~= state.entities@);
    }

    /// Drop the entries of deleted entities; returns their identity bits.
    fn forget_deleted(&mut self, deleted: &Vec<EntityId>) -> (r: Vec<u64>)
        requires
            old(self).wf(),
        ensures
            final(self).wf(),
            r@ == deleted_bits(deleted@),
            forall|x: u64| !r@.contains(x) ==> #[trigger] final(self).targets@.contains_key(x)
                == old(self).targets@.contains_key(x),
            forall|x: u64|
                !r@.contains(x) && old(self).targets@.contains_key(x) ==> #[trigger] final(self).targets@[x]
                    == old(self).targets@[x],
            forall|x: u64| r@.contains(x) ==> !#[trigger] final(self).targets@.contains_key(x),
    {
        let ghost t0 = self.targets@;
        let mut out: Vec<u64> = Vec::new();
        let mut i: usize = 0;
        while i < deleted.len()
            invariant
                self.wf(),
                i <= deleted@.len(),
                out@ == deleted_bits(deleted@.subrange(0, i as int)),
                forall|x: u64| !out@.contains(x) ==> #[trigger] self.targets@.contains_key(x) == t0.contains_key(x),
                forall|x: u64| !out@.contains(x) && t0.contains_key(x) ==> #[trigger] self.targets@[x] == t0[x],
                forall|x: u64| out@.contains(x) ==> !#[trigger] self.targets@.contains_key(x),
            decreases deleted@.len() - i,
        {
            let d = deleted[i];
            let ghost prev = out@;
            let ghost prev_targets = self.targets@;
            self.set(d, None);
            out.push(d.bits);
            proof {
                assert(deleted@.subrange(0, i + 1).drop_last() =~= deleted@.subrange(0, i as int));
                assert(deleted@.subrange(0, i + 1).last() == d);
                assert(out@ == prev.push(d.bits));
                assert forall|x: u64| !out@.contains(x) implies x != d.bits && !prev.contains(x) by {
                    assert(out@[out@.len() - 1] == d.bits);
                    if prev.contains(x) {
                        let k = choose|k: int| 0 <= k < prev.len() && prev[k] == x;
                        assert(out@[k] == x);
                    }
                }
                assert forall|x: u64| out@.contains(x) implies x == d.bits || prev.contains(x) by {
                    let k = choose|k: int| 0 <= k < out@.len() && out@[k] == x;
                    if k < prev.len() {
                        assert(prev[k] == x);
                    }
                }
                assert forall|x: u64| !out@.contains(x) && t0.contains_key(x) implies #[trigger] self.targets@[x] == t0[x] by {
                    assert(out@[out@.len() - 1] == d.bits);
                    if prev.contains(x) {
                        let k = choose|k: int| 0 <= k < prev.len() && prev[k] == x;
                        assert(out@[k] == x);
                    }
                    assert(x != d.bits && !prev.contains(x));
                    assert(prev_targets.contains_key(x));
                    assert(self.targets@ == prev_targets.remove(d.bits));
                }
            }
            i = i + 1;
        }
        assert(deleted@.subrange(0, i as int) =~= deleted@);
        out
    }

    /// Reset the reference field of every recorded entity whose indexed
    /// target is among `deleted`.
    #[verifier::rlimit(60)]
    fn clear_users(&self, state: &mut WorldEntityState, deleted: &Vec<u64>, component: u16, offset: u32)
        requires
            self.wf(),
            old(state).wf(),
        ensures
            final(state).wf(),
            final(state).allocator == old(state).allocator,
            final(state).entities@.len() == old(state).entities@.len(),
            forall|x: int| 0 <= x < old(state).entities@.len() ==> #[trigger] final(state).entities@[x].id
                == old(state).entities@[x].id,
            forall|e: EntityId, c: u16| #[trigger] final(state).spec_input(e, c) == old(state).spec_input(e, c),
            forall|e: EntityId| #[trigger] final(state).has(e) == old(state).has(e),
            forall|u: EntityId|
                #![trigger self.targets@[u.bits]]
                self.targets@.contains_key(u.bits) && deleted@.contains(self.targets@[u.bits])
                    && old(state).has(u) && input_value_of(old(state).record(u), component) is Some
                    ==> field_of(input_value_of(final(state).record(u), component), offset)
                    == Some(FieldValue::Entity(EntityId { bits: 0 })),
    {
        let ghost s0 = *state;
        let n = state.entities.len();
        let mut j: usize = 0;
        while j < n
            invariant
                self.wf(),
                s0.wf(),
                state.wf(),
                n == state.entities@.len(),
                j <= n,
                state.allocator == s0.allocator,
                state.entities@.len() == s0.entities@.len(),
                forall|x: int| 0 <= x < n ==> #[trigger] state.entities@[x].id == s0.entities@[x].id,
                forall|e: EntityId, c: u16| #[trigger] state.spec_input(e, c) == s0.spec_input(e, c),
                forall|e: EntityId| #[trigger] state.has(e) == s0.has(e),
                forall|x: int|
                    0 <= x < j && #[trigger] self.targets@.contains_key(s0.entities@[x].id.bits)
                        && deleted@.contains(self.targets@[s0.entities@[x].id.bits])
                        && input_value_of(s0.record(s0.entities@[x].id), component) is Some
                        && s0.record_index(s0.entities@[x].id) == Some(x) ==> field_of(
                        input_value_of(state.record(s0.entities@[x].id), component),
                        offset,
                    ) == Some(FieldValue::Entity(EntityId { bits: 0 })),
                forall|e: EntityId|
                    !(exists|x: int| 0 <= x < j && s0.entities@[x].id == e) ==> #[trigger] input_value_of(
                        state.record(e),
                        component,
                    ) == input_value_of(s0.record(e), component),
            decreases n - j,
        {
            let e = state.entities[j].id;
            let hit = match self.targets.get(&e.bits) {
                Some(t) => contains_u64(deleted, *t),
                None => false,
            };
            proof {
                assert(e == s0.entities@[j as int].id);
                assert forall|x: int| 0 <= x < j implies s0.entities@[x].id != e by {
                    assert(s0.entities@[x].id.bits < s0.entities@[j as int].id.bits);
                }
            }
            if hit {
                let zero = EntityId { bits: 0 };
                let _ = state.write_input_field(e, component, FieldWrite { offset, value: FieldValue::Entity(zero) });
            }
            proof {
                assert forall|x: int|
                    0 <= x < j + 1 && #[trigger] self.targets@.contains_key(s0.entities@[x].id.bits)
                        && deleted@.contains(self.targets@[s0.entities@[x].id.bits])
                        && input_value_of(s0.record(s0.entities@[x].id), component) is Some
                        && s0.record_index(s0.entities@[x].id) == Some(x) implies field_of(
                        input_value_of(state.record(s0.entities@[x].id), component),
                        offset,
                    ) == Some(FieldValue::Entity(EntityId { bits: 0 })) by {
                    if x == j {
                        assert(hit);
                    }
                }
                assert forall|ee: EntityId|
                    !(exists|x: int| 0 <= x < j + 1 && s0.entities@[x].id == ee) implies #[trigger] input_value_of(
                        state.record(ee),
                        component,
                    ) == input_value_of(s0.record(ee), component) by {
                    if ee == e {
                        assert(s0.entities@[j as int].id == ee);
                    }
                    if exists|x: int| 0 <= x < j && s0.entities@[x].id == ee {
                        let x = choose|x: int| 0 <= x < j && s0.entities@[x].id == ee;
                        assert(0 <= x < j + 1 && s0.entities@[x].id == ee);
                    }
                }
            }
            j = j + 1;
        }
        proof {
            assert forall|u: EntityId|
                #![trigger self.targets@[u.bits]]
                self.targets@.contains_key(u.bits) && deleted@.contains(self.targets@[u.bits])
                    && s0.has(u) && input_value_of(s0.record(u), component) is Some implies field_of(
                    input_value_of(state.record(u), component),
                    offset,
                ) == Some(FieldValue::Entity(EntityId { bits: 0 })) by {
                crate::world::lemma_find_record(s0.entities@, u);
                let x = s0.record_index(u).unwrap();
                assert(s0.entities@[x].id == u);
            }
        }
    }

    /// Re-read the entries of entities touched on the indexed component.
    fn refresh_touched(&mut self, state: &WorldEntityState, touched: &Vec<(EntityId, u16)>, component: u16, offset: u32)
        requires
            old(self).wf(),
        ensures
            final(self).wf(),
            forall|x: u64|
                !(exists|y: int| 0 <= y < touched@.len() && touched@[y] == (EntityId { bits: x }, component))
                    ==> #[trigger] final(self).targets@.contains_key(x) == old(self).targets@.contains_key(x),
            forall|k: int|
                0 <= k < touched@.len() && #[trigger] touched@[k].1 == component ==> indexed_as(
                    final(self).targets@,
                    touched@[k].0.bits,
                    referenced_target(*state, touched@[k].0, component, offset),
                ),
    {
        let ghost t2 = self.targets@;
        let mut k: usize = 0;
        while k < touched.len()
            invariant
                self.wf(),
                k <= touched@.len(),
                forall|x: u64|
                    !(exists|y: int| 0 <= y < k && touched@[y] == (EntityId { bits: x }, component))
                    ==> #[trigger] self.targets@.contains_key(x) == t2.contains_key(x),
                forall|x: int|
                    0 <= x < k && #[trigger] touched@[x].1 == component ==> indexed_as(
                        self.targets@,
                        touched@[x].0.bits,
                        referenced_target(*state, touched@[x].0, component, offset),
                    ),
            decreases touched@.len() - k,
        {
            let (entity, kind) = touched[k];
            if kind == component {
                self.read(state, entity, component, offset);
            }
            proof {
                assert forall|x: u64|
                    !(exists|y: int| 0 <= y < k + 1 && touched@[y] == (EntityId { bits: x }, component))
                    implies #[trigger] self.targets@.contains_key(x) == t2.contains_key(x) by {
                    if kind == component && x == entity.bits {
                        assert(touched@[k as int] == (EntityId { bits: x }, component));
                    }
                    if exists|y: int| 0 <= y < k && touched@[y] == (EntityId { bits: x }, component) {
                        let y = choose|y: int| 0 <= y < k && touched@[y] == (EntityId { bits: x }, component);
                        assert(0 <= y < k + 1);
                    }
                }
            }
            k = k + 1;
        }
    }

    /// Clear references to entities deleted by this operation and refresh
    /// the entries of components the operation touched. A surviving entity
    /// whose indexed target was deleted has that reference field reset to the
    /// null handle in its authored input.
    pub fn reconcile(&mut self, staged: &mut WorldMutationState, component: u16, offset: u32)
        requires
            old(self).wf(),
            old(staged).entities_state.wf(),
        ensures
            final(self).wf(),
            final(staged).entities_state.wf(),
            final(staged).operation_deleted@ == old(staged).operation_deleted@,
            final(staged).operation_components@ == old(staged).operation_components@,
            forall|e: EntityId, c: u16| #[trigger] final(staged).entities_state.spec_input(e, c)
                == old(staged).entities_state.spec_input(e, c),
            forall|e: EntityId| #[trigger] final(staged).entities_state.has(e) == old(staged).entities_state.has(e),
            // Deleted entities no longer reference anything unless touched again.
            forall|d: int|
                0 <= d < old(staged).operation_deleted@.len() && !(exists|k: int|
                    0 <= k < old(staged).operation_components@.len()
                        && old(staged).operation_components@[k] == (EntityId { bits: old(staged).operation_deleted@[d].bits }, component))
                    ==> !final(self).targets@.contains_key(#[trigger] old(staged).operation_deleted@[d].bits),
            // Every surviving user of a deleted target has its reference field cleared.
            forall|u: EntityId|
                #![trigger old(self).targets@[u.bits]]
                old(self).targets@.contains_key(u.bits) && deleted_bits(old(staged).operation_deleted@).contains(
                    old(self).targets@[u.bits],
                ) && !deleted_bits(old(staged).operation_deleted@).contains(u.bits)
                    && old(staged).entities_state.has(u) && input_value_of(
                    old(staged).entities_state.record(u),
                    component,
                ) is Some ==> field_of(
                    input_value_of(final(staged).entities_state.record(u), component),
                    offset,
                ) == Some(FieldValue::Entity(EntityId { bits: 0 })),
            // Entities touched on this component are indexed by their current value.
            forall|k: int|
                0 <= k < old(staged).operation_components@.len()
                    && #[trigger] old(staged).operation_components@[k].1 == component ==> indexed_as(
                    final(self).targets@,
                    old(staged).operation_components@[k].0.bits,
                    referenced_target(final(staged).entities_state, old(staged).operation_components@[k].0, component, offset),
                ),
    {
        let ghost t0 = self.targets@;
        let deleted = self.forget_deleted(&staged.operation_deleted);
        let ghost t1 = self.targets@;
        self.clear_users(&mut staged.entities_state, &deleted, component, offset);
        proof {
            assert forall|u: EntityId|
                #![trigger t0[u.bits]]
                t0.contains_key(u.bits) && deleted@.contains(t0[u.bits]) && !deleted@.contains(u.bits)
                    implies t1.contains_key(u.bits) && t1[u.bits] == t0[u.bits] by {}
        }
        self.refresh_touched(&staged.entities_state, &staged.operation_components, component, offset);
        proof {
            assert forall|d: int|
                0 <= d < old(staged).operation_deleted@.len() && !(exists|k: int|
                    0 <= k < old(staged).operation_components@.len()
                        && old(staged).operation_components@[k] == (EntityId { bits: old(staged).operation_deleted@[d].bits }, component))
                    implies !self.targets@.contains_key(#[trigger] old(staged).operation_deleted@[d].bits) by {
                lemma_deleted_bits(old(staged).operation_deleted@, d);
            }
        }
    }
}

/// Bits of each identity in a list.
pub open spec fn deleted_bits(ids: Seq<EntityId>) -> Seq<u64>
    decreases ids.len(),
{
    if ids.len() == 0 {
        Seq::empty()
    } else {
        deleted_bits(ids.drop_last()).push(ids.last().bits)
    }
}

pub proof fn lemma_deleted_bits(ids: Seq<EntityId>, d: int)
    requires
        0 <= d < ids.len(),
    ensures
        deleted_bits(ids).contains(ids[d].bits),
        deleted_bits(ids).len() == ids.len(),
    decreases ids.len(),
{
    lemma_deleted_bits_len(ids);
    if d < ids.len() - 1 {
        lemma_deleted_bits(ids.drop_last(), d);
        let prev = deleted_bits(ids.drop_last());
        let i = choose|i: int| 0 <= i < prev.len() && prev[i] == ids[d].bits;
        assert(deleted_bits(ids)[i] == prev[i]);
    } else {
        assert(deleted_bits(ids)[ids.len() - 1] == ids[d].bits);
    }
}

pub proof fn lemma_deleted_bits_len(ids: Seq<EntityId>)
    ensures
        deleted_bits(ids).len() == ids.len(),
    decreases ids.len(),
{
    if ids.len() > 0 {
        lemma_deleted_bits_len(ids.drop_last());
    }
}

/// Whether a map holds exactly an optional entry for a key.
pub open spec fn indexed_as(targets: Map<u64, u64>, key: u64, target: Option<u64>) -> bool {
    match target {
        Some(t) => targets.contains_key(key) && targets[key] == t,
        None => !targets.contains_key(key),
    }
}

/// Membership test over a list of identity bits.
pub fn contains_u64(values: &Vec<u64>, x: u64) -> (r: bool)
    ensures
        r == values@.contains(x),
{
    let mut i: usize = 0;
    while i < values.len()
        invariant
            i <= values@.len(),
            forall|j: int| 0 <= j < i ==> values@[j] != x,
        decreases values@.len() - i,
    {
        if values[i] == x {
            return true;
        }
        i = i + 1;
    }
    false
}

} // verus!
