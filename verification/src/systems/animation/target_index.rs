//! Sparse index from animated targets to the controllers that drive them: for
//! each (entity, component) target the controllers whose descriptions or
//! transition sources address it, and for each controller its targets.

use crate::systems::animation::codec::{driver_models, frozen_models, DriverModel, FrozenModel};
use crate::systems::animation::persistence::target_component;
use crate::systems::animation::{
    AnimationControllerSnapshot, AnimationDriverDescription, AnimationFrozenTransitionValue,
    AnimationPersistentTransitionSource,
};
use crate::world::WorldMutationState;
use std::collections::{BTreeMap, BTreeSet};
use vstd::std_specs::iter::IteratorSpec;
use vstd::prelude::*;

verus! {

broadcast use vstd::std_specs::btree::group_btree_axioms, vstd::laws_cmp::group_laws_cmp;

/// Append every element of a set, each once.
fn push_elements(set: &BTreeSet<u64>, out: &mut Vec<u64>)
    ensures
        forall|x: u64| #[trigger] final(out)@.contains(x) <==> old(out)@.contains(x) || set@.contains(x),
{
    let ghost start = out@;
    let ghost elems = vstd::std_specs::btree::spec_btree_keys_iter(set).remaining().unref();
    let ghost mut n: int = 0;
    for x in it: set.iter()
        invariant
            it.seq().unref() == elems,
            elems.to_set() == set@,
            n == it.index(),
            forall|y: u64| #[trigger] out@.contains(y) <==> start.contains(y) || elems.take(n).contains(y),
    {
        let ghost before = out@;
        proof {
            assert(elems.take(n + 1) =~= elems.take(n).push(*x));
        }
        out.push(*x);
        proof {
            assert forall|y: u64| #[trigger] out@.contains(y) <==> start.contains(y) || elems.take(n + 1).contains(y) by {
                if out@.contains(y) && y != *x {
                    let k = choose|k: int| 0 <= k < out@.len() && out@[k] == y;
                    assert(before[k] == y);
                }
                if before.contains(y) {
                    let k = choose|k: int| 0 <= k < before.len() && before[k] == y;
                    assert(out@[k] == y);
                }
                if y == *x {
                    assert(out@[out@.len() - 1] == y);
                }
                let t = elems.take(n);
                let t1 = elems.take(n + 1);
                assert(t1 == t.push(*x));
                if t1.contains(y) && y != *x {
                    let k = choose|k: int| 0 <= k < t1.len() && t1[k] == y;
                    assert(t[k] == y);
                }
                if t.contains(y) {
                    let k = choose|k: int| 0 <= k < t.len() && t[k] == y;
                    assert(t1[k] == y);
                }
                if y == *x {
                    assert(t1[t.len() as int] == y);
                }
            }
            n = n + 1;
        }
    }
    assert(n == elems.len());
    assert(elems.take(n) =~= elems);
}

/// Order of animated targets: by entity identity, then component type.
pub open spec fn key_before(a: (u64, u16), b: (u64, u16)) -> bool {
    a.0 < b.0 || (a.0 == b.0 && a.1 < b.1)
}

/// Targets strictly ascending, hence each once.
pub open spec fn strictly_sorted(s: Seq<(u64, u16)>) -> bool {
    forall|i: int, j: int| 0 <= i < j < s.len() ==> key_before(#[trigger] s[i], #[trigger] s[j])
}

/// Identities strictly ascending, hence each once.
pub open spec fn ids_ascending(s: Seq<u64>) -> bool {
    forall|i: int, j: int| 0 <= i < j < s.len() ==> #[trigger] s[i] < #[trigger] s[j]
}

/// Insert a target into a strictly ascending list unless present.
fn insert_key(v: &mut Vec<(u64, u16)>, k: (u64, u16))
    requires
        strictly_sorted(old(v)@),
    ensures
        strictly_sorted(final(v)@),
        forall|y: (u64, u16)| #[trigger] final(v)@.contains(y) <==> old(v)@.contains(y) || y == k,
{
    let mut lo: usize = 0;
    let mut hi: usize = v.len();
    while lo < hi
        invariant
            strictly_sorted(v@),
            lo <= hi <= v@.len(),
            forall|i: int| 0 <= i < lo ==> key_before(#[trigger] v@[i], k),
            forall|i: int| hi <= i < v@.len() ==> key_before(k, #[trigger] v@[i]),
        decreases hi - lo,
    {
        let mid = lo + (hi - lo) / 2;
        let m = v[mid];
        if m.0 == k.0 && m.1 == k.1 {
            assert(v@[mid as int] == k);
            return;
        } else if m.0 < k.0 || (m.0 == k.0 && m.1 < k.1) {
            proof {
                assert forall|i: int| 0 <= i < mid + 1 implies key_before(#[trigger] v@[i], k) by {
                    if i < mid {
                        assert(key_before(v@[i], v@[mid as int]));
                    }
                }
            }
            lo = mid + 1;
        } else {
            proof {
                assert forall|i: int| mid <= i < v@.len() implies key_before(k, #[trigger] v@[i]) by {
                    if i > mid {
                        assert(key_before(v@[mid as int], v@[i]));
                    }
                }
            }
            hi = mid;
        }
    }
    let ghost before = v@;
    v.insert(lo, k);
    proof {
        assert forall|i: int, j: int| 0 <= i < j < v@.len() implies key_before(#[trigger] v@[i], #[trigger] v@[j]) by {
            if j < lo {
                assert(v@[i] == before[i] && v@[j] == before[j]);
            } else if j == lo {
                assert(v@[i] == before[i]);
            } else if i < lo {
                assert(v@[i] == before[i] && v@[j] == before[j - 1]);
                assert(key_before(k, before[j - 1]));
            } else if i == lo {
                assert(v@[j] == before[j - 1]);
            } else {
                assert(v@[i] == before[i - 1] && v@[j] == before[j - 1]);
            }
        }
        assert forall|y: (u64, u16)| #[trigger] v@.contains(y) <==> before.contains(y) || y == k by {
            if v@.contains(y) {
                let j = choose|j: int| 0 <= j < v@.len() && v@[j] == y;
                if j < lo {
                    assert(before[j] == y);
                } else if j > lo {
                    assert(before[j - 1] == y);
                }
            }
            if before.contains(y) {
                let j = choose|j: int| 0 <= j < before.len() && before[j] == y;
                if j < lo {
                    assert(v@[j] == y);
                } else {
                    assert(v@[j + 1] == y);
                }
            }
            if y == k {
                assert(v@[lo as int] == k);
            }
        }
    }
}

/// Insert an identity into a strictly ascending list unless present.
fn insert_id(v: &mut Vec<u64>, x: u64)
    requires
        ids_ascending(old(v)@),
    ensures
        ids_ascending(final(v)@),
        forall|y: u64| #[trigger] final(v)@.contains(y) <==> old(v)@.contains(y) || y == x,
{
    let mut lo: usize = 0;
    let mut hi: usize = v.len();
    while lo < hi
        invariant
            ids_ascending(v@),
            lo <= hi <= v@.len(),
            forall|i: int| 0 <= i < lo ==> #[trigger] v@[i] < x,
            forall|i: int| hi <= i < v@.len() ==> x < #[trigger] v@[i],
        decreases hi - lo,
    {
        let mid = lo + (hi - lo) / 2;
        let m = v[mid];
        if m == x {
            return;
        } else if m < x {
            proof {
                assert forall|i: int| 0 <= i < mid + 1 implies #[trigger] v@[i] < x by {
                    if i < mid {
                        assert(v@[i] < v@[mid as int]);
                    }
                }
            }
            lo = mid + 1;
        } else {
            proof {
                assert forall|i: int| mid <= i < v@.len() implies x < #[trigger] v@[i] by {
                    if i > mid {
                        assert(v@[mid as int] < v@[i]);
                    }
                }
            }
            hi = mid;
        }
    }
    let ghost before = v@;
    v.insert(lo, x);
    proof {
        assert forall|i: int, j: int| 0 <= i < j < v@.len() implies #[trigger] v@[i] < #[trigger] v@[j] by {
            if j < lo {
                assert(v@[i] == before[i] && v@[j] == before[j]);
            } else if j == lo {
                assert(v@[i] == before[i]);
            } else if i < lo {
                assert(v@[i] == before[i] && v@[j] == before[j - 1]);
            } else if i == lo {
                assert(v@[j] == before[j - 1]);
            } else {
                assert(v@[i] == before[i - 1] && v@[j] == before[j - 1]);
            }
        }
        assert forall|y: u64| #[trigger] v@.contains(y) <==> before.contains(y) || y == x by {
            if v@.contains(y) {
                let j = choose|j: int| 0 <= j < v@.len() && v@[j] == y;
                if j < lo {
                    assert(before[j] == y);
                } else if j > lo {
                    assert(before[j - 1] == y);
                }
            }
            if before.contains(y) {
                let j = choose|j: int| 0 <= j < before.len() && before[j] == y;
                if j < lo {
                    assert(v@[j] == y);
                } else {
                    assert(v@[j + 1] == y);
                }
            }
            if y == x {
                assert(v@[lo as int] == x);
            }
        }
    }
}

/// The distinct targets of a list, ascending.
pub fn sorted_targets(keys: &Vec<(u64, u16)>) -> (r: Vec<(u64, u16)>)
    ensures
        strictly_sorted(r@),
        forall|y: (u64, u16)| #[trigger] r@.contains(y) <==> keys@.contains(y),
{
    let mut r: Vec<(u64, u16)> = Vec::new();
    let mut i: usize = 0;
    while i < keys.len()
        invariant
            i <= keys@.len(),
            strictly_sorted(r@),
            forall|y: (u64, u16)| #[trigger] r@.contains(y) <==> keys@.take(i as int).contains(y),
        decreases keys@.len() - i,
    {
        insert_key(&mut r, keys[i]);
        proof {
            let t = keys@.take(i as int);
            let t1 = keys@.take(i + 1);
            assert(t1 == t.push(keys@[i as int]));
            assert forall|y: (u64, u16)| #[trigger] r@.contains(y) <==> t1.contains(y) by {
                if t1.contains(y) && y != keys@[i as int] {
                    let k = choose|k: int| 0 <= k < t1.len() && t1[k] == y;
                    assert(t[k] == y);
                }
                if t.contains(y) {
                    let k = choose|k: int| 0 <= k < t.len() && t[k] == y;
                    assert(t1[k] == y);
                }
                if y == keys@[i as int] {
                    assert(t1[i as int] == y);
                }
            }
        }
        i = i + 1;
    }
    assert(keys@.take(i as int) =~= keys@);
    r
}

/// A controller is indexed at a target.
pub open spec fn holds(tc: Map<(u64, u16), BTreeSet<u64>>, key: (u64, u16), id: u64) -> bool {
    tc.contains_key(key) && tc[key]@.contains(id)
}

/// A controller lists a target.
pub open spec fn lists(tk: Map<u64, Vec<(u64, u16)>>, id: u64, key: (u64, u16)) -> bool {
    tk.contains_key(id) && tk[id]@.contains(key)
}

/// Target-to-controller index and its inverse, kept in step.
pub struct AnimationTargetIndex {
    pub target_controllers: BTreeMap<(u64, u16), BTreeSet<u64>>,
    pub target_keys: BTreeMap<u64, Vec<(u64, u16)>>,
    /// Whether retained source demand still matches the descriptions.
    pub description_demand_clean: bool,
}

/// `after` indexes exactly what `before` did, less one controller.
pub open spec fn unindexed(before: AnimationTargetIndex, id: u64, after: AnimationTargetIndex) -> bool {
    forall|key: (u64, u16), x: u64| #[trigger] after.drives(key, x) <==> before.drives(key, x) && x != id
}

/// `after` indexes one controller at exactly `keys`, and every other
/// controller as `before` did.
pub open spec fn indexed(before: AnimationTargetIndex, id: u64, keys: Seq<(u64, u16)>, after: AnimationTargetIndex) -> bool {
    forall|key: (u64, u16), x: u64| #[trigger] after.drives(key, x) <==> if x == id {
        keys.contains(key)
    } else {
        before.drives(key, x)
    }
}

impl AnimationTargetIndex {
    /// Each controller's targets ascend; a controller is indexed at a target
    /// exactly when it lists it; no target keeps an empty controller set.
    pub open spec fn wf(&self) -> bool {
        &&& forall|id: u64| #[trigger] self.target_keys@.contains_key(id) ==> strictly_sorted(self.target_keys@[id]@)
        &&& forall|key: (u64, u16), id: u64|
            #![trigger holds(self.target_controllers@, key, id)]
            #![trigger lists(self.target_keys@, id, key)]
            holds(self.target_controllers@, key, id) <==> lists(self.target_keys@, id, key)
        &&& forall|key: (u64, u16)| #[trigger] self.target_controllers@.contains_key(key)
            ==> !self.target_controllers@[key]@.is_empty()
    }

    /// Whether a controller drives a target.
    pub open spec fn drives(&self, key: (u64, u16), id: u64) -> bool {
        holds(self.target_controllers@, key, id)
    }

    /// An index of no controllers.
    pub fn new() -> (r: Self)
        ensures
            r.wf(),
            r.target_keys@ == Map::<u64, Vec<(u64, u16)>>::empty(),
            forall|key: (u64, u16), id: u64| !#[trigger] r.drives(key, id),
            !r.description_demand_clean,
    {
        AnimationTargetIndex {
            target_controllers: BTreeMap::new(),
            target_keys: BTreeMap::new(),
            description_demand_clean: false,
        }
    }

    /// Forget a controller's targets. Returns the other controllers that
    /// shared any of them: their bindings must be prepared again.
    #[verifier::rlimit(50)]
    pub fn unindex_controller(&mut self, id: u64) -> (r: Vec<u64>)
        requires
            old(self).wf(),
        ensures
            final(self).wf(),
            !final(self).description_demand_clean,
            final(self).target_keys@ == old(self).target_keys@.remove(id),
            unindexed(*old(self), id, *final(self)),
            forall|o: u64| #[trigger] r@.contains(o) <==> o != id && exists|key: (u64, u16)|
                old(self).drives(key, id) && #[trigger] old(self).drives(key, o),
    {
        self.description_demand_clean = false;
        let ghost tc0 = self.target_controllers@;
        let ghost tk0 = self.target_keys@;
        let mut invalid: Vec<u64> = Vec::new();
        match self.target_keys.remove(&id) {
            None => {
                proof {
                    assert forall|key: (u64, u16), x: u64| #[trigger] holds(self.target_controllers@, key, x)
                        <==> holds(tc0, key, x) && x != id by {
                        if holds(tc0, key, x) && x == id {
                            assert(lists(tk0, id, key));
                        }
                    }
                    assert forall|o: u64| #[trigger] invalid@.contains(o) <==> o != id && exists|key: (u64, u16)|
                        old(self).drives(key, id) && #[trigger] old(self).drives(key, o) by {
                        if exists|key: (u64, u16)| old(self).drives(key, id) && #[trigger] old(self).drives(key, o) {
                            let key = choose|key: (u64, u16)| old(self).drives(key, id) && #[trigger] old(self).drives(key, o);
                            assert(holds(tc0, key, id));
                            assert(lists(tk0, id, key));
                        }
                    }
                }
            },
            Some(keys) => {
                let mut i: usize = 0;
                while i < keys.len()
                    invariant
                        tk0.contains_key(id),
                        keys@ == tk0[id]@,
                        strictly_sorted(keys@),
                        i <= keys@.len(),
                        self.target_keys@ == tk0.remove(id),
                        !self.description_demand_clean,
                        forall|key: (u64, u16), x: u64|
                            #![trigger holds(tc0, key, x)]
                            #![trigger lists(tk0, x, key)]
                            holds(tc0, key, x) <==> lists(tk0, x, key),
                        forall|key: (u64, u16), x: u64| #[trigger] holds(self.target_controllers@, key, x)
                            <==> holds(tc0, key, x) && !(x == id && keys@.take(i as int).contains(key)),
                        forall|key: (u64, u16)| #[trigger] self.target_controllers@.contains_key(key)
                            ==> !self.target_controllers@[key]@.is_empty(),
                        forall|o: u64| #[trigger] invalid@.contains(o) <==> o != id && exists|j: int|
                            0 <= j < i && #[trigger] holds(tc0, keys@[j], o),
                    decreases keys@.len() - i,
                {
                    let key = keys[i];
                    let ghost tc1 = self.target_controllers@;
                    let ghost inv1 = invalid@;
                    let ghost t = keys@.take(i as int);
                    let ghost t1 = keys@.take(i + 1);
                    proof {
                        assert(t1 == t.push(key));
                        assert(lists(tk0, id, key)) by {
                            assert(keys@[i as int] == key);
                        }
                        assert(!t.contains(key)) by {
                            if t.contains(key) {
                                let k = choose|k: int| 0 <= k < t.len() && t[k] == key;
                                assert(key_before(keys@[k], keys@[i as int]));
                            }
                        }
                        assert(holds(tc1, key, id));
                    }
                    match self.target_controllers.remove(&key) {
                        Some(mut ids) => {
                            let ghost s0 = ids@;
                            ids.remove(&id);
                            push_elements(&ids, &mut invalid);
                            if !ids.is_empty() {
                                self.target_controllers.insert(key, ids);
                            }
                            proof {
                                assert forall|k2: (u64, u16), x: u64| #[trigger] holds(self.target_controllers@, k2, x)
                                    <==> holds(tc0, k2, x) && !(x == id && t1.contains(k2)) by {
                                    if k2 != key {
                                        assert(holds(self.target_controllers@, k2, x) == holds(tc1, k2, x));
                                        if t1.contains(k2) {
                                            let k = choose|k: int| 0 <= k < t1.len() && t1[k] == k2;
                                            assert(t[k] == k2);
                                        }
                                    } else {
                                        assert(t1.contains(key)) by {
                                            assert(t1[i as int] == key);
                                        }
                                        assert(holds(tc1, key, x) <==> holds(tc0, key, x));
                                        assert(holds(tc1, key, x) <==> s0.contains(x));
                                    }
                                }
                                assert forall|o: u64| #[trigger] invalid@.contains(o) <==> o != id && exists|j: int|
                                    0 <= j < i + 1 && #[trigger] holds(tc0, keys@[j], o) by {
                                    if invalid@.contains(o) && !inv1.contains(o) {
                                        assert(s0.contains(o) && o != id);
                                        assert(holds(tc1, key, o));
                                        assert(holds(tc0, keys@[i as int], o));
                                    }
                                    if o != id && holds(tc0, keys@[i as int], o) {
                                        assert(holds(tc1, key, o));
                                    }
                                    if o != id && exists|j: int| 0 <= j < i + 1 && #[trigger] holds(tc0, keys@[j], o) {
                                        let j = choose|j: int| 0 <= j < i + 1 && #[trigger] holds(tc0, keys@[j], o);
                                        if j < i {
                                            assert(inv1.contains(o));
                                        } else {
                                            assert(holds(tc1, key, o));
                                        }
                                    }
                                }
                            }
                        },
                        None => {
                            proof {
                                assert(false);
                            }
                        },
                    }
                    i = i + 1;
                }
                proof {
                    assert(keys@.take(i as int) =~= keys@);
                    assert forall|key: (u64, u16), x: u64| #[trigger] holds(self.target_controllers@, key, x)
                        <==> holds(tc0, key, x) && x != id by {
                        if holds(tc0, key, x) && x == id {
                            assert(lists(tk0, id, key));
                        }
                    }
                    assert forall|o: u64| #[trigger] invalid@.contains(o) <==> o != id && exists|key: (u64, u16)|
                        old(self).drives(key, id) && #[trigger] old(self).drives(key, o) by {
                        if o != id && exists|key: (u64, u16)| old(self).drives(key, id) && #[trigger] old(self).drives(key, o) {
                            let key = choose|key: (u64, u16)| old(self).drives(key, id) && #[trigger] old(self).drives(key, o);
                            assert(holds(tc0, key, id));
                            assert(lists(tk0, id, key));
                            let j = choose|j: int| 0 <= j < keys@.len() && keys@[j] == key;
                            assert(holds(tc0, keys@[j], o));
                        }
                        if invalid@.contains(o) {
                            let j = choose|j: int| 0 <= j < keys@.len() && #[trigger] holds(tc0, keys@[j], o);
                            assert(lists(tk0, id, keys@[j]));
                            assert(holds(tc0, keys@[j], id));
                            assert(old(self).drives(keys@[j], o));
                        }
                    }
                }
            },
        }
        proof {
            let tc = self.target_controllers@;
            let tk = self.target_keys@;
            assert forall|key: (u64, u16), x: u64|
                #![trigger holds(tc, key, x)]
                #![trigger lists(tk, x, key)]
                holds(tc, key, x) <==> lists(tk, x, key) by {
                assert(holds(tc0, key, x) <==> lists(tk0, x, key));
            }
        }
        invalid
    }
}

impl AnimationTargetIndex {
    /// Record a controller's targets, replacing any earlier ones. Returns the
    /// other controllers that shared an earlier or a new target: their
    /// bindings must be prepared again.
    #[verifier::rlimit(60)]
    pub fn index_controller(&mut self, id: u64, keys: &Vec<(u64, u16)>) -> (r: Vec<u64>)
        requires
            old(self).wf(),
        ensures
            final(self).wf(),
            !final(self).description_demand_clean,
            final(self).target_keys@.remove(id) == old(self).target_keys@.remove(id),
            final(self).target_keys@.contains_key(id),
            forall|y: (u64, u16)| #[trigger] final(self).target_keys@[id]@.contains(y) <==> keys@.contains(y),
            indexed(*old(self), id, keys@, *final(self)),
            forall|o: u64| #[trigger] r@.contains(o) <==> o != id && exists|key: (u64, u16)|
                (old(self).drives(key, id) || keys@.contains(key)) && #[trigger] old(self).drives(key, o),
    {
        let ghost tc0 = self.target_controllers@;
        let ghost tk0 = self.target_keys@;
        let mut invalid = self.unindex_controller(id);
        let ghost tc1 = self.target_controllers@;
        let ghost inv0 = invalid@;
        let sorted = sorted_targets(keys);
        let mut i: usize = 0;
        while i < sorted.len()
            invariant
                strictly_sorted(sorted@),
                forall|y: (u64, u16)| #[trigger] sorted@.contains(y) <==> keys@.contains(y),
                i <= sorted@.len(),
                self.target_keys@ == tk0.remove(id),
                !self.description_demand_clean,
                forall|k: (u64, u16), x: u64| #[trigger] holds(tc1, k, x) <==> holds(tc0, k, x) && x != id,
                forall|k: (u64, u16), x: u64| #[trigger] holds(self.target_controllers@, k, x) <==> if x == id {
                    sorted@.take(i as int).contains(k)
                } else {
                    holds(tc1, k, x)
                },
                forall|k: (u64, u16)| #[trigger] self.target_controllers@.contains_key(k)
                    ==> !self.target_controllers@[k]@.is_empty(),
                forall|o: u64| #[trigger] invalid@.contains(o) <==> inv0.contains(o) || (o != id && exists|j: int|
                    0 <= j < i && #[trigger] holds(tc1, sorted@[j], o)),
            decreases sorted@.len() - i,
        {
            let key = sorted[i];
            let ghost tc2 = self.target_controllers@;
            let ghost inv1 = invalid@;
            let ghost t = sorted@.take(i as int);
            let ghost t1 = sorted@.take(i + 1);
            proof {
                assert(t1 == t.push(key));
                assert(!t.contains(key)) by {
                    if t.contains(key) {
                        let k = choose|k: int| 0 <= k < t.len() && t[k] == key;
                        assert(key_before(sorted@[k], sorted@[i as int]));
                    }
                }
            }
            let mut set = match self.target_controllers.remove(&key) {
                Some(s) => s,
                None => BTreeSet::new(),
            };
            let ghost s0 = set@;
            proof {
                assert forall|x: u64| s0.contains(x) <==> holds(tc1, key, x) by {
                    assert(s0.contains(x) <==> holds(tc2, key, x));
                }
            }
            push_elements(&set, &mut invalid);
            set.insert(id);
            self.target_controllers.insert(key, set);
            proof {
                assert forall|k: (u64, u16), x: u64| #[trigger] holds(self.target_controllers@, k, x) <==> if x == id {
                    t1.contains(k)
                } else {
                    holds(tc1, k, x)
                } by {
                    if k != key {
                        assert(holds(self.target_controllers@, k, x) == holds(tc2, k, x));
                        if t1.contains(k) {
                            let j = choose|j: int| 0 <= j < t1.len() && t1[j] == k;
                            assert(t[j] == k);
                        }
                    } else {
                        assert(t1[i as int] == key);
                        assert(holds(tc2, key, x) <==> holds(tc1, key, x) || (x == id && t.contains(key)));
                    }
                }
                assert forall|o: u64| #[trigger] invalid@.contains(o) <==> inv0.contains(o) || (o != id && exists|j: int|
                    0 <= j < i + 1 && #[trigger] holds(tc1, sorted@[j], o)) by {
                    if invalid@.contains(o) && !inv1.contains(o) {
                        assert(s0.contains(o));
                        assert(holds(tc1, sorted@[i as int], o));
                    }
                    if o != id && exists|j: int| 0 <= j < i + 1 && #[trigger] holds(tc1, sorted@[j], o) {
                        let j = choose|j: int| 0 <= j < i + 1 && #[trigger] holds(tc1, sorted@[j], o);
                        if j == i {
                            assert(s0.contains(o));
                        }
                    }
                }
                assert forall|k: (u64, u16)| #[trigger] self.target_controllers@.contains_key(k)
                    implies !self.target_controllers@[k]@.is_empty() by {
                    if k == key {
                        assert(self.target_controllers@[k]@.contains(id));
                    }
                }
            }
            i = i + 1;
        }
        let ghost keys_view = sorted@;
        self.target_keys.insert(id, sorted);
        proof {
            assert(keys_view.take(i as int) =~= keys_view);
            let tc = self.target_controllers@;
            let tk = self.target_keys@;
            assert(tk.remove(id) =~= tk0.remove(id));
            assert forall|x: u64| #[trigger] tk.contains_key(x) implies strictly_sorted(tk[x]@) by {
                if x != id {
                    assert(tk0.contains_key(x));
                }
            }
            assert forall|key: (u64, u16), x: u64|
                #![trigger holds(tc, key, x)]
                #![trigger lists(tk, x, key)]
                holds(tc, key, x) <==> lists(tk, x, key) by {
                if x != id {
                    assert(holds(tc0, key, x) <==> lists(tk0, x, key));
                    assert(lists(tk, x, key) == lists(tk0, x, key));
                }
            }
            assert forall|key: (u64, u16), x: u64| #[trigger] self.drives(key, x) <==> if x == id {
                keys@.contains(key)
            } else {
                old(self).drives(key, x)
            } by {
                assert(keys_view.contains(key) == keys@.contains(key));
            }
            assert forall|o: u64| #[trigger] invalid@.contains(o) <==> o != id && exists|key: (u64, u16)|
                (old(self).drives(key, id) || keys@.contains(key)) && #[trigger] old(self).drives(key, o) by {
                if invalid@.contains(o) && !inv0.contains(o) {
                    let j = choose|j: int| 0 <= j < keys_view.len() && #[trigger] holds(tc1, keys_view[j], o);
                    assert(keys_view.contains(keys_view[j]));
                    assert(keys@.contains(keys_view[j]));
                    assert(old(self).drives(keys_view[j], o));
                }
                if o != id && exists|key: (u64, u16)|
                    (old(self).drives(key, id) || keys@.contains(key)) && #[trigger] old(self).drives(key, o) {
                    let key = choose|key: (u64, u16)|
                        (old(self).drives(key, id) || keys@.contains(key)) && #[trigger] old(self).drives(key, o);
                    if !old(self).drives(key, id) {
                        assert(keys_view.contains(key));
                        let j = choose|j: int| 0 <= j < keys_view.len() && keys_view[j] == key;
                        assert(holds(tc1, keys_view[j], o));
                    }
                }
            }
        }
        invalid
    }
}

impl AnimationTargetIndex {
    /// Controllers indexed at any component the staged operation changed,
    /// ascending and each once.
    pub fn affected_by(&self, staged: &WorldMutationState) -> (r: Vec<u64>)
        ensures
            ids_ascending(r@),
            forall|o: u64| #[trigger] r@.contains(o) <==> exists|j: int|
                0 <= j < staged.changed@.len() && self.drives(
                    (staged.changed@[j].0.0.bits, staged.changed@[j].0.1),
                    o,
                ),
    {
        let mut all: Vec<u64> = Vec::new();
        let mut j: usize = 0;
        while j < staged.changed.len()
            invariant
                j <= staged.changed@.len(),
                forall|o: u64| #[trigger] all@.contains(o) <==> exists|k: int|
                    0 <= k < j && self.drives((staged.changed@[k].0.0.bits, staged.changed@[k].0.1), o),
            decreases staged.changed@.len() - j,
        {
            let key = (staged.changed[j].0.0.bits, staged.changed[j].0.1);
            let ghost before = all@;
            match self.target_controllers.get(&key) {
                Some(set) => {
                    push_elements(set, &mut all);
                },
                None => {},
            }
            proof {
                assert forall|o: u64| #[trigger] all@.contains(o) <==> exists|k: int|
                    0 <= k < j + 1 && self.drives((staged.changed@[k].0.0.bits, staged.changed@[k].0.1), o) by {
                    if all@.contains(o) && !before.contains(o) {
                        assert(self.drives((staged.changed@[j as int].0.0.bits, staged.changed@[j as int].0.1), o));
                    }
                    if exists|k: int|
                        0 <= k < j + 1 && self.drives((staged.changed@[k].0.0.bits, staged.changed@[k].0.1), o) {
                        let k = choose|k: int|
                            0 <= k < j + 1 && self.drives((staged.changed@[k].0.0.bits, staged.changed@[k].0.1), o);
                        if k == j {
                            assert(holds(self.target_controllers@, key, o));
                        }
                    }
                }
            }
            j = j + 1;
        }
        let mut r: Vec<u64> = Vec::new();
        let mut i: usize = 0;
        while i < all.len()
            invariant
                i <= all@.len(),
                ids_ascending(r@),
                forall|o: u64| #[trigger] r@.contains(o) <==> all@.take(i as int).contains(o),
            decreases all@.len() - i,
        {
            insert_id(&mut r, all[i]);
            proof {
                let t = all@.take(i as int);
                let t1 = all@.take(i + 1);
                assert(t1 == t.push(all@[i as int]));
                assert forall|y: u64| #[trigger] r@.contains(y) <==> t1.contains(y) by {
                    if t1.contains(y) && y != all@[i as int] {
                        let k = choose|k: int| 0 <= k < t1.len() && t1[k] == y;
                        assert(t[k] == y);
                    }
                    if t.contains(y) {
                        let k = choose|k: int| 0 <= k < t.len() && t[k] == y;
                        assert(t1[k] == y);
                    }
                    if y == all@[i as int] {
                        assert(t1[i as int] == y);
                    }
                }
            }
            i = i + 1;
        }
        assert(all@.take(i as int) =~= all@);
        r
    }
}

/// The (entity, component) target of each driver, in order.
pub open spec fn driver_targets(ds: Seq<DriverModel>) -> Seq<(u64, u16)> {
    ds.map_values(|d: DriverModel| (d.target.bits, target_component(d.property)))
}

/// The (entity, component) target of each frozen value, in order.
pub open spec fn frozen_targets(vs: Seq<FrozenModel>) -> Seq<(u64, u16)> {
    vs.map_values(|v: FrozenModel| (v.target.bits, target_component(v.property)))
}

fn push_driver_targets(drivers: &Vec<AnimationDriverDescription>, out: &mut Vec<(u64, u16)>)
    ensures
        final(out)@ == old(out)@ + driver_targets(driver_models(drivers@)),
{
    let ghost start = out@;
    let ghost dm = driver_models(drivers@);
    let mut i: usize = 0;
    while i < drivers.len()
        invariant
            dm == driver_models(drivers@),
            i <= drivers@.len(),
            out@ == start + driver_targets(dm.take(i as int)),
        decreases drivers@.len() - i,
    {
        assert(dm[i as int] == drivers@[i as int]@);
        out.push((drivers[i].target.bits, drivers[i].property.component()));
        assert(driver_targets(dm.take(i + 1)) =~= driver_targets(dm.take(i as int)).push(
            (dm[i as int].target.bits, target_component(dm[i as int].property)),
        ));
        i = i + 1;
    }
    assert(dm.take(i as int) =~= dm);
}

fn push_frozen_targets(values: &Vec<AnimationFrozenTransitionValue>, out: &mut Vec<(u64, u16)>)
    ensures
        final(out)@ == old(out)@ + frozen_targets(frozen_models(values@)),
{
    let ghost start = out@;
    let ghost fm = frozen_models(values@);
    let mut i: usize = 0;
    while i < values.len()
        invariant
            fm == frozen_models(values@),
            i <= values@.len(),
            out@ == start + frozen_targets(fm.take(i as int)),
        decreases values@.len() - i,
    {
        assert(fm[i as int] == values@[i as int]@);
        out.push((values[i].target.bits, values[i].property.component()));
        assert(frozen_targets(fm.take(i + 1)) =~= frozen_targets(fm.take(i as int)).push(
            (fm[i as int].target.bits, target_component(fm[i as int].property)),
        ));
        i = i + 1;
    }
    assert(fm.take(i as int) =~= fm);
}

/// Targets a transition source addresses: a live source's drivers, or a
/// frozen source's values and then its binding declaration's drivers.
pub open spec fn source_targets(source: AnimationPersistentTransitionSource) -> Seq<(u64, u16)> {
    match source {
        AnimationPersistentTransitionSource::Live(c) => driver_targets(driver_models(c.description.drivers@)),
        AnimationPersistentTransitionSource::Frozen { values, bindings, .. } => frozen_targets(frozen_models(values@))
            + driver_targets(driver_models(bindings.description.drivers@)),
    }
}

/// Every target a controller addresses: its own drivers, then those of its
/// transition source.
pub fn controller_targets(
    snapshot: &AnimationControllerSnapshot,
    source: Option<&AnimationPersistentTransitionSource>,
) -> (r: Vec<(u64, u16)>)
    ensures
        r@ == driver_targets(driver_models(snapshot.description.drivers@)) + match source {
            Some(s) => source_targets(*s),
            None => Seq::empty(),
        },
{
    let mut keys: Vec<(u64, u16)> = Vec::new();
    push_driver_targets(&snapshot.description.drivers, &mut keys);
    match source {
        Some(AnimationPersistentTransitionSource::Live(c)) => {
            push_driver_targets(&c.description.drivers, &mut keys);
        },
        Some(AnimationPersistentTransitionSource::Frozen { values, bindings, .. }) => {
            let ghost a = keys@;
            push_frozen_targets(values, &mut keys);
            push_driver_targets(&bindings.description.drivers, &mut keys);
            assert(keys@ =~= a + source_targets(*source.unwrap()));
        },
        None => {
            assert(keys@ =~= keys@ + Seq::<(u64, u16)>::empty());
        },
    }
    keys
}

/// Two controller entries address a common target.
pub open spec fn share_target(cs: Seq<(u64, Vec<(u64, u16)>)>, k: int, j: int) -> bool {
    exists|key: (u64, u16)| cs[k].1@.contains(key) && #[trigger] cs[j].1@.contains(key)
}

/// Identities of controller entries, in order.
pub open spec fn entry_ids(cs: Seq<(u64, Vec<(u64, u16)>)>) -> Seq<u64> {
    cs.map_values(|c: (u64, Vec<(u64, u16)>)| c.0)
}

impl AnimationTargetIndex {
    /// Index every controller afresh, in identity order. Returns each
    /// controller that shares a target with a later one: its bindings must be
    /// prepared again.
    #[verifier::rlimit(40)]
    pub fn rebuild_target_index(&mut self, controllers: &Vec<(u64, Vec<(u64, u16)>)>) -> (r: Vec<u64>)
        requires
            ids_ascending(entry_ids(controllers@)),
        ensures
            final(self).wf(),
            !final(self).description_demand_clean,
            forall|x: u64| #[trigger] final(self).target_keys@.contains_key(x) <==> exists|j: int|
                0 <= j < controllers@.len() && controllers@[j].0 == x,
            forall|key: (u64, u16), x: u64| #[trigger] final(self).drives(key, x) <==> exists|j: int|
                0 <= j < controllers@.len() && controllers@[j].0 == x && controllers@[j].1@.contains(key),
            forall|o: u64| #[trigger] r@.contains(o) <==> exists|k: int, j: int|
                0 <= k < j < controllers@.len() && controllers@[k].0 == o && #[trigger] share_target(controllers@, k, j),
    {
        let cs = controllers;
        *self = AnimationTargetIndex::new();
        let mut invalid: Vec<u64> = Vec::new();
        let mut i: usize = 0;
        while i < cs.len()
            invariant
                ids_ascending(entry_ids(cs@)),
                i <= cs@.len(),
                self.wf(),
                !self.description_demand_clean,
                forall|x: u64| #[trigger] self.target_keys@.contains_key(x) <==> exists|j: int|
                    0 <= j < i && cs@[j].0 == x,
                forall|key: (u64, u16), x: u64| #[trigger] self.drives(key, x) <==> exists|j: int|
                    0 <= j < i && cs@[j].0 == x && cs@[j].1@.contains(key),
                forall|o: u64| #[trigger] invalid@.contains(o) <==> exists|k: int, j: int|
                    0 <= k < j < i && cs@[k].0 == o && #[trigger] share_target(cs@, k, j),
            decreases cs@.len() - i,
        {
            let id = cs[i].0;
            let ghost prev = *self;
            let ghost inv0 = invalid@;
            proof {
                assert(entry_ids(cs@)[i as int] == id);
                assert forall|key: (u64, u16)| !prev.drives(key, id) by {
                    if prev.drives(key, id) {
                        let j = choose|j: int| 0 <= j < i && cs@[j].0 == id && cs@[j].1@.contains(key);
                        assert(entry_ids(cs@)[j] < entry_ids(cs@)[i as int]);
                    }
                }
            }
            let mut found = self.index_controller(id, &cs[i].1);
            let ghost fresh = found@;
            invalid.append(&mut found);
            proof {
                assert(invalid@ == inv0 + fresh);
                assert forall|x: u64| #[trigger] self.target_keys@.contains_key(x) <==> exists|j: int|
                    0 <= j < i + 1 && cs@[j].0 == x by {
                    if x != id {
                        assert(self.target_keys@.remove(id).contains_key(x) == prev.target_keys@.remove(id).contains_key(x));
                    }
                }
                assert forall|key: (u64, u16), x: u64| #[trigger] self.drives(key, x) <==> exists|j: int|
                    0 <= j < i + 1 && cs@[j].0 == x && cs@[j].1@.contains(key) by {
                    if x == id {
                        if exists|j: int| 0 <= j < i + 1 && cs@[j].0 == x && cs@[j].1@.contains(key) {
                            let j = choose|j: int| 0 <= j < i + 1 && cs@[j].0 == x && cs@[j].1@.contains(key);
                            if j < i {
                                assert(entry_ids(cs@)[j] < entry_ids(cs@)[i as int]);
                            }
                        }
                    } else {
                        if exists|j: int| 0 <= j < i + 1 && cs@[j].0 == x && cs@[j].1@.contains(key) {
                            let j = choose|j: int| 0 <= j < i + 1 && cs@[j].0 == x && cs@[j].1@.contains(key);
                            assert(j < i);
                        }
                    }
                }
                assert forall|o: u64| #[trigger] invalid@.contains(o) <==> exists|k: int, j: int|
                    0 <= k < j < i + 1 && cs@[k].0 == o && #[trigger] share_target(cs@, k, j) by {
                    if invalid@.contains(o) {
                        let n = choose|n: int| 0 <= n < invalid@.len() && invalid@[n] == o;
                        if n >= inv0.len() {
                            assert(fresh[n - inv0.len()] == o);
                            assert(fresh.contains(o));
                            let key = choose|key: (u64, u16)|
                                (prev.drives(key, id) || cs@[i as int].1@.contains(key)) && #[trigger] prev.drives(key, o);
                            let k = choose|k: int| 0 <= k < i && cs@[k].0 == o && cs@[k].1@.contains(key);
                            assert(share_target(cs@, k, i as int));
                        } else {
                            assert(inv0[n] == o);
                            assert(inv0.contains(o));
                        }
                    }
                    if exists|k: int, j: int| 0 <= k < j < i + 1 && cs@[k].0 == o && #[trigger] share_target(cs@, k, j) {
                        let (k, j) = choose|k: int, j: int|
                            0 <= k < j < i + 1 && cs@[k].0 == o && #[trigger] share_target(cs@, k, j);
                        if j == i {
                            let key = choose|key: (u64, u16)| cs@[k].1@.contains(key) && #[trigger] cs@[j].1@.contains(key);
                            assert(prev.drives(key, o));
                            assert(entry_ids(cs@)[k] < entry_ids(cs@)[i as int]);
                            assert(fresh.contains(o));
                            let n = choose|n: int| 0 <= n < fresh.len() && fresh[n] == o;
                            assert(invalid@[inv0.len() + n] == o);
                        } else {
                            assert(inv0.contains(o));
                            let n = choose|n: int| 0 <= n < inv0.len() && inv0[n] == o;
                            assert(invalid@[n] == o);
                        }
                    }
                }
            }
            i = i + 1;
        }
        invalid
    }
}

/// Indexing a controller again replaces its earlier targets: the result is
/// as if only the last indexing had happened.
pub proof fn lemma_index_replaces(
    s0: AnimationTargetIndex,
    s1: AnimationTargetIndex,
    s2: AnimationTargetIndex,
    id: u64,
    first: Seq<(u64, u16)>,
    second: Seq<(u64, u16)>,
)
    requires
        indexed(s0, id, first, s1),
        indexed(s1, id, second, s2),
    ensures
        indexed(s0, id, second, s2),
{
    assert forall|key: (u64, u16), x: u64| #[trigger] s2.drives(key, x) <==> if x == id {
        second.contains(key)
    } else {
        s0.drives(key, x)
    } by {
        assert(s2.drives(key, x) <==> if x == id { second.contains(key) } else { s1.drives(key, x) });
        assert(s1.drives(key, x) <==> if x == id { first.contains(key) } else { s0.drives(key, x) });
    }
}

/// Forgetting a controller undoes indexing it: every other controller stays
/// indexed as before, and the controller nowhere.
pub proof fn lemma_unindex_undoes_index(
    s0: AnimationTargetIndex,
    s1: AnimationTargetIndex,
    s2: AnimationTargetIndex,
    id: u64,
    keys: Seq<(u64, u16)>,
)
    requires
        indexed(s0, id, keys, s1),
        unindexed(s1, id, s2),
    ensures
        unindexed(s0, id, s2),
{
    assert forall|key: (u64, u16), x: u64| #[trigger] s2.drives(key, x) <==> s0.drives(key, x) && x != id by {
        assert(s2.drives(key, x) <==> s1.drives(key, x) && x != id);
        assert(s1.drives(key, x) <==> if x == id { keys.contains(key) } else { s0.drives(key, x) });
    }
}

} // verus!
