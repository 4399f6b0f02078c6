//! Invalidation of controllers by a committed World change: drivers whose
//! dynamic binding ended are dropped from their declarations, and
//! controllers whose remaining bindings no longer hold are stopped, each with
//! an `Invalidated` event.

use crate::ids::ErrorReason;
use crate::systems::animation::restore::{has_entry, AnimationControllerRegistry};
use crate::systems::animation::save::SavedController;
use crate::systems::animation::{
    AnimationControllerId, AnimationControllerSnapshot, AnimationControllerState, AnimationDriverDescription,
    AnimationPlaybackEvent, AnimationPlaybackEventKind, AnimationPlaybackStatus,
};
use vstd::prelude::*;

verus! {

/// Whether a mask drops the `d`-th declared driver.
pub open spec fn dropped(mask: Seq<bool>, d: int) -> bool {
    0 <= d < mask.len() && mask[d]
}

/// The drivers a mask keeps, in order.
pub open spec fn kept_drivers(ds: Seq<AnimationDriverDescription>, mask: Seq<bool>) -> Seq<AnimationDriverDescription>
    decreases ds.len(),
{
    if ds.len() == 0 {
        Seq::empty()
    } else if dropped(mask, ds.len() - 1) {
        kept_drivers(ds.drop_last(), mask)
    } else {
        kept_drivers(ds.drop_last(), mask).push(ds.last())
    }
}

/// A mask drops some of `n` drivers.
pub open spec fn drops_any(n: int, mask: Seq<bool>) -> bool {
    exists|d: int| 0 <= d < n && dropped(mask, d)
}

/// A mask drops all of `n` drivers.
pub open spec fn drops_all(n: int, mask: Seq<bool>) -> bool {
    forall|d: int| 0 <= d < n ==> dropped(mask, d)
}

/// The event reporting that a controller was invalidated.
pub open spec fn invalidated(id: AnimationControllerId, state: AnimationPlaybackStatus, time: u64) -> AnimationPlaybackEvent {
    AnimationPlaybackEvent {
        controller: AnimationControllerState { id, state, time },
        kind: AnimationPlaybackEventKind::Invalidated,
        reason: Some(ErrorReason::MissingComponent),
    }
}

/// The entry with an identity.
pub open spec fn entry_of(es: Seq<SavedController>, id: AnimationControllerId) -> SavedController {
    es[choose|j: int| 0 <= j < es.len() && (#[trigger] es[j]).0.id == id]
}

/// The status a controller keeps after a mask: stopped once no driver is left.
pub open spec fn status_after(s: AnimationControllerSnapshot, mask: Seq<bool>) -> AnimationPlaybackStatus {
    if drops_any(s.description.drivers@.len() as int, mask) && drops_all(s.description.drivers@.len() as int, mask) {
        AnimationPlaybackStatus::Stopped
    } else {
        s.state
    }
}

/// Events of the first phase: one per listed controller that loses a driver.
pub open spec fn ended_events(es: Seq<SavedController>, ended: Seq<(AnimationControllerId, Vec<bool>)>) -> Seq<
    AnimationPlaybackEvent,
>
    decreases ended.len(),
{
    if ended.len() == 0 {
        Seq::empty()
    } else {
        let previous = ended_events(es, ended.drop_last());
        let (id, mask) = ended.last();
        if has_entry(es, id) && drops_any(entry_of(es, id).0.description.drivers@.len() as int, mask@) {
            previous.push(invalidated(id, status_after(entry_of(es, id).0, mask@), entry_of(es, id).0.time))
        } else {
            previous
        }
    }
}

/// Events of the second phase: one per listed controller, stopped.
pub open spec fn invalid_events(es: Seq<SavedController>, invalid: Seq<AnimationControllerId>) -> Seq<AnimationPlaybackEvent>
    decreases invalid.len(),
{
    if invalid.len() == 0 {
        Seq::empty()
    } else {
        let previous = invalid_events(es, invalid.drop_last());
        let id = invalid.last();
        if has_entry(es, id) {
            previous.push(invalidated(id, AnimationPlaybackStatus::Stopped, entry_of(es, id).0.time))
        } else {
            previous
        }
    }
}

/// The mask listed for an identity.
pub open spec fn mask_of(ended: Seq<(AnimationControllerId, Vec<bool>)>, id: AnimationControllerId) -> Option<Seq<bool>>
    decreases ended.len(),
{
    if ended.len() == 0 {
        None
    } else if ended.last().0 == id {
        Some(ended.last().1@)
    } else {
        mask_of(ended.drop_last(), id)
    }
}

/// An entry after the first phase: its mask, if any, applied.
pub open spec fn masked(before: SavedController, after: SavedController, mask: Option<Seq<bool>>) -> bool {
    match mask {
        None => after == before,
        Some(m) => {
            &&& after.0.id == before.0.id
            &&& after.0.description.drivers@ == kept_drivers(before.0.description.drivers@, m)
            &&& after.0.description.speed == before.0.description.speed
            &&& after.0.description.looping == before.0.description.looping
            &&& after.0.state == status_after(before.0, m)
            &&& after.0.time == before.0.time
            &&& after.0.transition == before.0.transition
            &&& after.1 == before.1
            &&& after.2 == before.2
        },
    }
}

/// An entry after the second phase: stopped without its crossfade when listed.
pub open spec fn stopped_if(before: SavedController, after: SavedController, listed: bool) -> bool {
    if listed {
        &&& after.0.id == before.0.id
        &&& after.0.description == before.0.description
        &&& after.0.state is Stopped
        &&& after.0.time == before.0.time
        &&& after.0.transition is None
        &&& after.1 is None
        &&& after.2 == before.2
    } else {
        after == before
    }
}

/// Identities listed at most once.
pub open spec fn distinct_listed(ended: Seq<(AnimationControllerId, Vec<bool>)>) -> bool {
    forall|a: int, b: int| 0 <= a < b < ended.len() ==> (#[trigger] ended[a]).0 != (#[trigger] ended[b]).0
}

/// Drop the masked drivers of one declaration; stop it when none is left.
fn drop_drivers(snapshot: &mut AnimationControllerSnapshot, mask: &Vec<bool>) -> (changed: bool)
    ensures
        changed == drops_any(old(snapshot).description.drivers@.len() as int, mask@),
        final(snapshot).description.drivers@ == kept_drivers(old(snapshot).description.drivers@, mask@),
        final(snapshot).description.speed == old(snapshot).description.speed,
        final(snapshot).description.looping == old(snapshot).description.looping,
        final(snapshot).state == status_after(*old(snapshot), mask@),
        final(snapshot).id == old(snapshot).id,
        final(snapshot).time == old(snapshot).time,
        final(snapshot).transition == old(snapshot).transition,
{
    let ghost ds = snapshot.description.drivers@;
    let n = snapshot.description.drivers.len();
    let mut rest: Vec<AnimationDriverDescription> = Vec::new();
    std::mem::swap(&mut rest, &mut snapshot.description.drivers);
    let mut kept: Vec<AnimationDriverDescription> = Vec::new();
    let mut changed = false;
    let mut all = true;
    let mut d: usize = 0;
    while rest.len() > 0
        invariant
            d + rest@.len() == ds.len(),
            ds.len() == n,
            rest@ == ds.skip(d as int),
            kept@ == kept_drivers(ds.take(d as int), mask@),
            changed == drops_any(d as int, mask@),
            all == drops_all(d as int, mask@),
        decreases rest@.len(),
    {
        let driver = rest.remove(0);
        proof {
            assert(driver == ds[d as int]);
            assert(ds.take(d + 1).drop_last() =~= ds.take(d as int));
            assert(rest@ =~= ds.skip(d + 1));
        }
        let drop = d < mask.len() && mask[d];
        if drop {
            changed = true;
        } else {
            all = false;
            kept.push(driver);
        }
        proof {
            if drop {
                assert(dropped(mask@, d as int));
            } else {
                assert(!dropped(mask@, d as int));
            }
            assert(changed == drops_any(d + 1, mask@)) by {
                if drops_any(d + 1, mask@) && !drop {
                    let q = choose|q: int| 0 <= q < d + 1 && dropped(mask@, q);
                    assert(q < d);
                }
            }
        }
        d = d + 1;
    }
    proof {
        assert(ds.take(d as int) =~= ds);
    }
    snapshot.description.drivers = kept;
    if changed && all {
        snapshot.state = AnimationPlaybackStatus::Stopped;
    }
    changed
}


/// An entry after both phases: its mask applied, then stopped without its
/// crossfade when listed invalid.
pub open spec fn invalidated_entry(before: SavedController, after: SavedController, mask: Option<Seq<bool>>, listed: bool) -> bool {
    &&& after.0.id == before.0.id
    &&& after.0.description.drivers@ == match mask {
        Some(m) => kept_drivers(before.0.description.drivers@, m),
        None => before.0.description.drivers@,
    }
    &&& after.0.description.speed == before.0.description.speed
    &&& after.0.description.looping == before.0.description.looping
    &&& (mask is None ==> after.0.description == before.0.description)
    &&& after.0.state == if listed {
        AnimationPlaybackStatus::Stopped
    } else {
        match mask {
            Some(m) => status_after(before.0, m),
            None => before.0.state,
        }
    }
    &&& after.0.time == before.0.time
    &&& after.0.transition == if listed {
        None
    } else {
        before.0.transition
    }
    &&& after.1 == if listed {
        None
    } else {
        before.1
    }
    &&& after.2 == before.2
}

proof fn lemma_mask_absent(ended: Seq<(AnimationControllerId, Vec<bool>)>, id: AnimationControllerId)
    requires
        forall|q: int| 0 <= q < ended.len() ==> (#[trigger] ended[q]).0 != id,
    ensures
        mask_of(ended, id) is None,
    decreases ended.len(),
{
    if ended.len() > 0 {
        assert(ended.last().0 != id);
        lemma_mask_absent(ended.drop_last(), id);
    }
}

proof fn lemma_entry_of(es: Seq<SavedController>, i: int)
    requires
        crate::systems::animation::restore::entries_ascending(es),
        0 <= i < es.len(),
    ensures
        has_entry(es, es[i].0.id),
        entry_of(es, es[i].0.id) == es[i],
{
    assert(has_entry(es, es[i].0.id));
    let j = choose|j: int| 0 <= j < es.len() && (#[trigger] es[j]).0.id == es[i].0.id;
    if j < i {
        assert(es[j].0.id.bits < es[i].0.id.bits);
    } else if j > i {
        assert(es[i].0.id.bits < es[j].0.id.bits);
    }
}

impl AnimationControllerRegistry {
    /// Apply the invalidation a committed change causes. `ended` lists, for
    /// each controller the change touched, which of its declared drivers are
    /// dynamic properties whose binding the change ended; `invalid` the
    /// controllers whose remaining bindings or crossfade hold the change
    /// invalidated. Dropped drivers leave their declaration, and a declaration
    /// left without drivers stops; listed invalid controllers stop and lose
    /// their crossfade. Returns the `Invalidated` events, first phase first.
    pub fn invalidate_changes(
        &mut self,
        ended: &Vec<(AnimationControllerId, Vec<bool>)>,
        invalid: &Vec<AnimationControllerId>,
    ) -> (events: Vec<AnimationPlaybackEvent>)
        requires
            old(self).wf(),
            distinct_listed(ended@),
        ensures
            final(self).wf(),
            final(self).controllers@.len() == old(self).controllers@.len(),
            forall|j: int|
                0 <= j < final(self).controllers@.len() ==> invalidated_entry(
                    old(self).controllers@[j],
                    #[trigger] final(self).controllers@[j],
                    mask_of(ended@, old(self).controllers@[j].0.id),
                    invalid@.contains(old(self).controllers@[j].0.id),
                ),
            events@ == ended_events(old(self).controllers@, ended@) + invalid_events(old(self).controllers@, invalid@),
            final(self).next_id == old(self).next_id,
            final(self).demand_revision == old(self).demand_revision,
            final(self).animation_sources@ == old(self).animation_sources@,
            final(self).index.target_controllers@ == old(self).index.target_controllers@,
            final(self).index.target_keys@ == old(self).index.target_keys@,
            final(self).index.description_demand_clean == (old(self).index.description_demand_clean
                && ended_events(old(self).controllers@, ended@).len() == 0),
    {
        let ghost es0 = self.controllers@;
        let mut events: Vec<AnimationPlaybackEvent> = Vec::new();
        let mut k: usize = 0;
        while k < ended.len()
            invariant
                distinct_listed(ended@),
                k <= ended@.len(),
                self.wf(),
                self.controllers@.len() == es0.len(),
                crate::systems::animation::restore::entries_ascending(es0),
                forall|j: int|
                    0 <= j < es0.len() ==> masked(es0[j], #[trigger] self.controllers@[j], mask_of(ended@.take(k as int), es0[j].0.id)),
                events@ == ended_events(es0, ended@.take(k as int)),
                self.next_id == old(self).next_id,
                self.demand_revision == old(self).demand_revision,
                self.animation_sources@ == old(self).animation_sources@,
                self.index.target_controllers@ == old(self).index.target_controllers@,
                self.index.target_keys@ == old(self).index.target_keys@,
                self.index.description_demand_clean == (old(self).index.description_demand_clean && events@.len() == 0),
            decreases ended@.len() - k,
        {
            let ghost before = self.controllers@;
            let ghost tk = ended@.take(k as int);
            proof {
                assert(ended@.take(k + 1).drop_last() =~= tk);
                assert(ended@.take(k + 1).last() == ended@[k as int]);
            }
            let id = ended[k].0;
            match crate::systems::animation::restore::find_entry(&self.controllers, id.bits) {
                Err(_) => {
                    proof {
                        if has_entry(es0, id) {
                            let j = choose|j: int| 0 <= j < es0.len() && (#[trigger] es0[j]).0.id == id;
                            assert(masked(es0[j], self.controllers@[j], mask_of(tk, es0[j].0.id)));
                        }
                        assert forall|j: int| 0 <= j < es0.len() implies masked(
                            es0[j],
                            #[trigger] self.controllers@[j],
                            mask_of(ended@.take(k + 1), es0[j].0.id),
                        ) by {
                            assert(masked(es0[j], self.controllers@[j], mask_of(tk, es0[j].0.id)));
                            assert(self.controllers@[j].0.id == es0[j].0.id);
                        }
                    }
                },
                Ok(i) => {
                    proof {
                        assert(masked(es0[i as int], before[i as int], mask_of(tk, es0[i as int].0.id)));
                        assert(es0[i as int].0.id == id);
                        assert forall|q: int| 0 <= q < tk.len() implies (#[trigger] tk[q]).0 != id by {
                            assert(ended@[q].0 != ended@[k as int].0);
                        }
                        lemma_mask_absent(tk, id);
                        lemma_entry_of(es0, i as int);
                    }
                    let (mut snapshot, side, flag) = self.controllers.remove(i);
                    let changed = drop_drivers(&mut snapshot, &ended[k].1);
                    let state = snapshot.state;
                    let time = snapshot.time;
                    let entry: SavedController = (snapshot, side, flag);
                    self.controllers.insert(i, entry);
                    if changed {
                        events.push(
                            AnimationPlaybackEvent {
                                controller: AnimationControllerState { id, state, time },
                                kind: AnimationPlaybackEventKind::Invalidated,
                                reason: Some(ErrorReason::MissingComponent),
                            },
                        );
                        self.index.description_demand_clean = false;
                    }
                    proof {
                        assert(self.controllers@ =~= before.update(i as int, entry));
                        assert forall|a: int, b: int| 0 <= a < b < self.controllers@.len() implies (
                        #[trigger] self.controllers@[a]).0.id.bits < (#[trigger] self.controllers@[b]).0.id.bits by {
                            assert(before[a].0.id == es0[a].0.id);
                            assert(before[b].0.id == es0[b].0.id);
                        }
                        assert forall|j: int| 0 <= j < es0.len() implies masked(
                            es0[j],
                            #[trigger] self.controllers@[j],
                            mask_of(ended@.take(k + 1), es0[j].0.id),
                        ) by {
                            assert(masked(es0[j], before[j], mask_of(tk, es0[j].0.id)));
                            if j != i {
                                if es0[j].0.id == id {
                                    if j < i {
                                        assert(es0[j].0.id.bits < es0[i as int].0.id.bits);
                                    } else {
                                        assert(es0[i as int].0.id.bits < es0[j].0.id.bits);
                                    }
                                }
                            }
                        }
                    }
                },
            }
            k = k + 1;
        }
        proof {
            assert(ended@.take(k as int) =~= ended@);
        }
        let ghost es1 = self.controllers@;
        let ghost first = events@;
        let mut k: usize = 0;
        while k < invalid.len()
            invariant
                k <= invalid@.len(),
                self.wf(),
                self.controllers@.len() == es0.len(),
                es1.len() == es0.len(),
                crate::systems::animation::restore::entries_ascending(es0),
                forall|j: int| 0 <= j < es0.len() ==> masked(es0[j], #[trigger] es1[j], mask_of(ended@, es0[j].0.id)),
                forall|j: int|
                    0 <= j < es0.len() ==> stopped_if(es1[j], #[trigger] self.controllers@[j], invalid@.take(k as int).contains(es0[j].0.id)),
                events@ == first + invalid_events(es0, invalid@.take(k as int)),
                first == ended_events(es0, ended@),
                self.next_id == old(self).next_id,
                self.demand_revision == old(self).demand_revision,
                self.animation_sources@ == old(self).animation_sources@,
                self.index.target_controllers@ == old(self).index.target_controllers@,
                self.index.target_keys@ == old(self).index.target_keys@,
                self.index.description_demand_clean == (old(self).index.description_demand_clean && first.len() == 0),
            decreases invalid@.len() - k,
        {
            let ghost before = self.controllers@;
            let ghost tk = invalid@.take(k as int);
            proof {
                assert(invalid@.take(k + 1).drop_last() =~= tk);
                assert(invalid@.take(k + 1).last() == invalid@[k as int]);
                assert forall|x: AnimationControllerId| #[trigger] invalid@.take(k + 1).contains(x) <==> tk.contains(x) || x
                    == invalid@[k as int] by {
                    if invalid@.take(k + 1).contains(x) {
                        let q = choose|q: int| 0 <= q < k + 1 && #[trigger] invalid@.take(k + 1)[q] == x;
                        if q < k {
                            assert(tk[q] == x);
                        }
                    }
                    if tk.contains(x) {
                        let q = choose|q: int| 0 <= q < k && #[trigger] tk[q] == x;
                        assert(invalid@.take(k + 1)[q] == x);
                    }
                    if x == invalid@[k as int] {
                        assert(invalid@.take(k + 1)[k as int] == x);
                    }
                }
            }
            let id = invalid[k];
            match crate::systems::animation::restore::find_entry(&self.controllers, id.bits) {
                Err(_) => {
                    proof {
                        if has_entry(es0, id) {
                            let j = choose|j: int| 0 <= j < es0.len() && (#[trigger] es0[j]).0.id == id;
                            assert(masked(es0[j], es1[j], mask_of(ended@, es0[j].0.id)));
                            assert(stopped_if(es1[j], before[j], tk.contains(es0[j].0.id)));
                        }
                        assert forall|j: int| 0 <= j < es0.len() implies stopped_if(
                            es1[j],
                            #[trigger] self.controllers@[j],
                            invalid@.take(k + 1).contains(es0[j].0.id),
                        ) by {
                            assert(masked(es0[j], es1[j], mask_of(ended@, es0[j].0.id)));
                            assert(stopped_if(es1[j], before[j], tk.contains(es0[j].0.id)));
                        }
                    }
                },
                Ok(i) => {
                    proof {
                        assert(masked(es0[i as int], es1[i as int], mask_of(ended@, es0[i as int].0.id)));
                        assert(stopped_if(es1[i as int], before[i as int], tk.contains(es0[i as int].0.id)));
                        lemma_entry_of(es0, i as int);
                    }
                    let (mut snapshot, _side, flag) = self.controllers.remove(i);
                    snapshot.transition = None;
                    snapshot.state = AnimationPlaybackStatus::Stopped;
                    let time = snapshot.time;
                    let entry: SavedController = (snapshot, None, flag);
                    self.controllers.insert(i, entry);
                    events.push(
                        AnimationPlaybackEvent {
                            controller: AnimationControllerState { id, state: AnimationPlaybackStatus::Stopped, time },
                            kind: AnimationPlaybackEventKind::Invalidated,
                            reason: Some(ErrorReason::MissingComponent),
                        },
                    );
                    proof {
                        assert(self.controllers@ =~= before.update(i as int, entry));
                        assert forall|a: int, b: int| 0 <= a < b < self.controllers@.len() implies (
                        #[trigger] self.controllers@[a]).0.id.bits < (#[trigger] self.controllers@[b]).0.id.bits by {
                            assert(masked(es0[a], es1[a], mask_of(ended@, es0[a].0.id)));
                            assert(masked(es0[b], es1[b], mask_of(ended@, es0[b].0.id)));
                            assert(stopped_if(es1[a], before[a], tk.contains(es0[a].0.id)));
                            assert(stopped_if(es1[b], before[b], tk.contains(es0[b].0.id)));
                        }
                        assert forall|j: int| 0 <= j < es0.len() implies stopped_if(
                            es1[j],
                            #[trigger] self.controllers@[j],
                            invalid@.take(k + 1).contains(es0[j].0.id),
                        ) by {
                            assert(masked(es0[j], es1[j], mask_of(ended@, es0[j].0.id)));
                            assert(stopped_if(es1[j], before[j], tk.contains(es0[j].0.id)));
                            if j != i && es0[j].0.id == id {
                                if j < i {
                                    assert(es0[j].0.id.bits < es0[i as int].0.id.bits);
                                } else {
                                    assert(es0[i as int].0.id.bits < es0[j].0.id.bits);
                                }
                            }
                        }
                    }
                },
            }
            k = k + 1;
        }
        proof {
            assert(invalid@.take(k as int) =~= invalid@);
            assert forall|j: int| 0 <= j < self.controllers@.len() implies invalidated_entry(
                es0[j],
                #[trigger] self.controllers@[j],
                mask_of(ended@, es0[j].0.id),
                invalid@.contains(es0[j].0.id),
            ) by {
                assert(masked(es0[j], es1[j], mask_of(ended@, es0[j].0.id)));
                assert(stopped_if(es1[j], self.controllers@[j], invalid@.contains(es0[j].0.id)));
            }
        }
        events
    }
}

} // verus!
