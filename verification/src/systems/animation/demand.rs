//! Clip sources demanded by animation controller descriptions, and the
//! controller capacity that bounds them.

use crate::ids::ErrorReason;
use crate::systems::animation::{
    AnimationControllerDescription, AnimationControllerId, AnimationControllerSnapshot, AnimationDriverDescription,
    AnimationPersistentTransitionSource, MAX_CONTROLLERS,
};
use crate::systems::asset_dependencies::{views, AssetDemandSelection, AssetTypeId, SelectionView};
use vstd::prelude::*;

verus! {

/// Resource type number of animation clips.
pub const ANIMATION_TYPE: u32 = 10;

/// The clip source a driver samples.
pub open spec fn clip_selection(d: AnimationDriverDescription) -> SelectionView {
    (AssetTypeId(ANIMATION_TYPE), d.source@, d.variant)
}

/// Some driver of a description samples a source.
pub open spec fn description_demands(d: AnimationControllerDescription, s: SelectionView) -> bool {
    exists|j: int| 0 <= j < d.drivers@.len() && s == clip_selection(#[trigger] d.drivers@[j])
}

/// Insert a selection unless an equal one is present.
fn insert_selection(demand: &mut Vec<AssetDemandSelection>, s: AssetDemandSelection)
    requires
        views(old(demand)@).no_duplicates(),
    ensures
        views(final(demand)@).no_duplicates(),
        forall|x: SelectionView| #[trigger] views(final(demand)@).contains(x) <==> views(old(demand)@).contains(x) || x
            == s@,
{
    let mut i: usize = 0;
    while i < demand.len()
        invariant
            i <= demand@.len(),
            views(demand@).no_duplicates(),
            forall|k: int| 0 <= k < i ==> (#[trigger] demand@[k])@ != s@,
        decreases demand@.len() - i,
    {
        if demand[i].same(&s) {
            proof {
                assert(views(demand@)[i as int] == s@);
                assert forall|x: SelectionView| #[trigger] views(demand@).contains(x) <==> views(demand@).contains(x)
                    || x == s@ by {
                    if x == s@ {
                        assert(views(demand@)[i as int] == x);
                    }
                }
            }
            return;
        }
        i = i + 1;
    }
    let ghost before = views(demand@);
    demand.push(s);
    proof {
        let after = views(demand@);
        assert(after =~= before.push(s@));
        assert forall|a: int, b: int| 0 <= a < b < after.len() implies after[a] != after[b] by {
            if b == after.len() - 1 {
                assert(demand@[a]@ != s@);
            } else {
                assert(before[a] != before[b]);
            }
        }
        assert forall|x: SelectionView| #[trigger] after.contains(x) <==> before.contains(x) || x == s@ by {
            if after.contains(x) && x != s@ {
                let k = choose|k: int| 0 <= k < after.len() && after[k] == x;
                assert(before[k] == x);
            }
            if before.contains(x) {
                let k = choose|k: int| 0 <= k < before.len() && before[k] == x;
                assert(after[k] == x);
            }
            if x == s@ {
                assert(after[after.len() - 1] == x);
            }
        }
    }
}

/// Add the clip source of every driver of a description, each once.
pub fn add_description_demand(description: &AnimationControllerDescription, demand: &mut Vec<AssetDemandSelection>)
    requires
        views(old(demand)@).no_duplicates(),
    ensures
        views(final(demand)@).no_duplicates(),
        forall|x: SelectionView| #[trigger] views(final(demand)@).contains(x) <==> views(old(demand)@).contains(x)
            || description_demands(*description, x),
{
    let ghost start = views(demand@);
    let mut i: usize = 0;
    while i < description.drivers.len()
        invariant
            i <= description.drivers@.len(),
            views(demand@).no_duplicates(),
            forall|x: SelectionView| #[trigger] views(demand@).contains(x) <==> start.contains(x) || exists|j: int|
                0 <= j < i && x == clip_selection(#[trigger] description.drivers@[j]),
        decreases description.drivers@.len() - i,
    {
        let d = &description.drivers[i];
        let s = AssetDemandSelection::new(AssetTypeId(ANIMATION_TYPE), d.source.as_str(), d.variant);
        let ghost before = views(demand@);
        insert_selection(demand, s);
        proof {
            assert forall|x: SelectionView| #[trigger] views(demand@).contains(x) <==> start.contains(x) || exists|j: int|
                0 <= j < i + 1 && x == clip_selection(#[trigger] description.drivers@[j]) by {
                if x == clip_selection(description.drivers@[i as int]) {
                    assert(x == s@);
                }
                if exists|j: int| 0 <= j < i + 1 && x == clip_selection(#[trigger] description.drivers@[j]) {
                    let j = choose|j: int| 0 <= j < i + 1 && x == clip_selection(#[trigger] description.drivers@[j]);
                    if j == i {
                        assert(x == s@);
                    }
                }
            }
        }
        i = i + 1;
    }
}

/// A controller keeps its demand unless it is removed or replaced.
pub open spec fn kept(id: AnimationControllerId, replace: Option<AnimationControllerId>, remove: Option<AnimationControllerId>) -> bool {
    remove != Some(id) && replace != Some(id)
}

/// Number of controllers that keep their demand.
pub open spec fn kept_count(
    cs: Seq<AnimationControllerSnapshot>,
    replace: Option<AnimationControllerId>,
    remove: Option<AnimationControllerId>,
) -> nat
    decreases cs.len(),
{
    if cs.len() == 0 {
        0
    } else {
        kept_count(cs.drop_last(), replace, remove) + if kept(cs.last().id, replace, remove) {
            1nat
        } else {
            0nat
        }
    }
}

/// A count, saturated just past the controller capacity.
pub open spec fn capped(n: int) -> int {
    if n > MAX_CONTROLLERS {
        MAX_CONTROLLERS + 1
    } else {
        n
    }
}

/// Identity of a replacement, if any.
pub open spec fn replaced_id(replace: Option<(AnimationControllerId, &AnimationControllerDescription)>) -> Option<
    AnimationControllerId,
> {
    match replace {
        Some((id, _)) => Some(id),
        None => None,
    }
}

/// A source is demanded by a kept controller or by the replacement description.
pub open spec fn demanded(
    cs: Seq<AnimationControllerSnapshot>,
    replace: Option<(AnimationControllerId, &AnimationControllerDescription)>,
    remove: Option<AnimationControllerId>,
    s: SelectionView,
) -> bool {
    ||| exists|i: int|
        0 <= i < cs.len() && kept(cs[i].id, replaced_id(replace), remove) && description_demands(
            (#[trigger] cs[i]).description,
            s,
        )
    ||| (replace matches Some((_, d)) && description_demands(*d, s))
}

/// The clip demand the controllers would hold after removing one controller
/// and replacing one description; refused when more controllers than the
/// capacity would remain.
pub fn controller_demand(
    controllers: &Vec<AnimationControllerSnapshot>,
    replace: Option<(AnimationControllerId, &AnimationControllerDescription)>,
    remove: Option<AnimationControllerId>,
) -> (r: Result<Vec<AssetDemandSelection>, ErrorReason>)
    ensures
        r is Err <==> kept_count(controllers@, replaced_id(replace), remove) + if replace is Some {
            1int
        } else {
            0int
        } > MAX_CONTROLLERS,
        r is Err ==> r == Err::<Vec<AssetDemandSelection>, ErrorReason>(ErrorReason::Capacity),
        r matches Ok(v) ==> views(v@).no_duplicates() && forall|x: SelectionView| #[trigger] views(v@).contains(x)
            <==> demanded(controllers@, replace, remove, x),
{
    let replace_id = match replace {
        Some((id, _)) => Some(id),
        None => None,
    };
    let mut demand: Vec<AssetDemandSelection> = Vec::new();
    let mut count: usize = if replace.is_some() {
        1
    } else {
        0
    };
    let mut i: usize = 0;
    while i < controllers.len()
        invariant
            replace_id == replaced_id(replace),
            i <= controllers@.len(),
            count == capped(kept_count(controllers@.take(i as int), replace_id, remove) + if replace is Some {
                1int
            } else {
                0int
            }),
            views(demand@).no_duplicates(),
            forall|x: SelectionView| #[trigger] views(demand@).contains(x) <==> exists|k: int|
                0 <= k < i && kept(controllers@[k].id, replace_id, remove) && description_demands(
                    (#[trigger] controllers@[k]).description,
                    x,
                ),
        decreases controllers@.len() - i,
    {
        proof {
            assert(controllers@.take(i + 1).drop_last() =~= controllers@.take(i as int));
        }
        let c = &controllers[i];
        let keep = match remove {
            Some(r) => r.bits != c.id.bits,
            None => true,
        } && match replace_id {
            Some(r) => r.bits != c.id.bits,
            None => true,
        };
        proof {
            assert(keep == kept(c.id, replace_id, remove));
        }
        let ghost before = views(demand@);
        if keep {
            if count <= MAX_CONTROLLERS {
                count = count + 1;
            }
            add_description_demand(&c.description, &mut demand);
        }
        proof {
            assert forall|x: SelectionView| #[trigger] views(demand@).contains(x) <==> exists|k: int|
                0 <= k < i + 1 && kept(controllers@[k].id, replace_id, remove) && description_demands(
                    (#[trigger] controllers@[k]).description,
                    x,
                ) by {
                if exists|k: int|
                    0 <= k < i + 1 && kept(controllers@[k].id, replace_id, remove) && description_demands(
                        (#[trigger] controllers@[k]).description,
                        x,
                    ) {
                    let k = choose|k: int|
                        0 <= k < i + 1 && kept(controllers@[k].id, replace_id, remove) && description_demands(
                            (#[trigger] controllers@[k]).description,
                            x,
                        );
                    if k < i {
                        assert(before.contains(x));
                    }
                }
            }
        }
        i = i + 1;
    }
    proof {
        assert(controllers@.take(i as int) =~= controllers@);
    }
    if count > MAX_CONTROLLERS {
        return Err(ErrorReason::Capacity);
    }
    match replace {
        Some((_, description)) => {
            add_description_demand(description, &mut demand);
        },
        None => {},
    }
    Ok(demand)
}

/// The description whose drivers a transition source still samples.
pub open spec fn source_description(s: AnimationPersistentTransitionSource) -> AnimationControllerDescription {
    match s {
        AnimationPersistentTransitionSource::Live(c) => c.description,
        AnimationPersistentTransitionSource::Frozen { bindings, .. } => bindings.description,
    }
}

fn source_description_of(s: &AnimationPersistentTransitionSource) -> (r: &AnimationControllerDescription)
    ensures
        *r == source_description(*s),
{
    match s {
        AnimationPersistentTransitionSource::Live(c) => &c.description,
        AnimationPersistentTransitionSource::Frozen { bindings, .. } => &bindings.description,
    }
}

/// A source is sampled by some controller or by its transition source.
pub open spec fn described(
    controllers: Seq<(AnimationControllerSnapshot, Option<AnimationPersistentTransitionSource>)>,
    x: SelectionView,
) -> bool {
    exists|i: int|
        0 <= i < controllers.len() && (description_demands((#[trigger] controllers[i]).0.description, x)
            || (controllers[i].1 matches Some(s) && description_demands(source_description(s), x)))
}

/// Some controller's own driver samples a source.
fn named_by_driver(
    controllers: &Vec<(AnimationControllerSnapshot, Option<AnimationPersistentTransitionSource>)>,
    s: &AssetDemandSelection,
) -> (r: bool)
    requires
        s.kind.0 == ANIMATION_TYPE,
    ensures
        r == exists|i: int|
            0 <= i < controllers@.len() && description_demands((#[trigger] controllers@[i]).0.description, s@),
{
    let mut i: usize = 0;
    while i < controllers.len()
        invariant
            i <= controllers@.len(),
            s.kind.0 == ANIMATION_TYPE,
            forall|k: int| 0 <= k < i ==> !description_demands((#[trigger] controllers@[k]).0.description, s@),
        decreases controllers@.len() - i,
    {
        let drivers = &controllers[i].0.description.drivers;
        let mut j: usize = 0;
        while j < drivers.len()
            invariant
                j <= drivers@.len(),
                i < controllers@.len(),
                drivers@ == controllers@[i as int].0.description.drivers@,
                s.kind.0 == ANIMATION_TYPE,
                forall|k: int| 0 <= k < j ==> s@ != clip_selection(#[trigger] drivers@[k]),
            decreases drivers@.len() - j,
        {
            if drivers[j].variant == s.variant && drivers[j].source == s.source {
                proof {
                    assert(s@ == clip_selection(drivers@[j as int]));
                    assert(drivers@ == controllers@[i as int].0.description.drivers@);
                    assert(description_demands(controllers@[i as int].0.description, s@));
                }
                return true;
            }
            j = j + 1;
        }
        proof {
            assert(!description_demands(controllers@[i as int].0.description, s@)) by {
                if description_demands(controllers@[i as int].0.description, s@) {
                    let k = choose|k: int|
                        0 <= k < drivers@.len() && s@ == clip_selection(#[trigger] controllers@[i as int].0.description.drivers@[k]);
                    assert(s@ != clip_selection(drivers@[k]));
                }
            }
        }
        i = i + 1;
    }
    false
}

/// Refresh the retained clip demand: keep the clip sources some controller's
/// own drivers still sample, in order, then add those of every controller and
/// of its transition source. Every refresh advances the demand revision.
pub fn sync_description_demand(
    sources: &mut Vec<AssetDemandSelection>,
    revision: &mut u64,
    controllers: &Vec<(AnimationControllerSnapshot, Option<AnimationPersistentTransitionSource>)>,
)
    requires
        views(old(sources)@).no_duplicates(),
    ensures
        *final(revision) == (*old(revision) + 1) % 0x1_0000_0000_0000_0000,
        views(final(sources)@).no_duplicates(),
        forall|x: SelectionView| #[trigger] views(final(sources)@).contains(x) <==> described(controllers@, x),
{
    *revision = revision.wrapping_add(1);
    let mut kept: Vec<AssetDemandSelection> = Vec::new();
    let mut previous: Vec<AssetDemandSelection> = Vec::new();
    std::mem::swap(&mut previous, sources);
    let ghost old_views = views(previous@);
    let mut i: usize = 0;
    while i < previous.len()
        invariant
            old_views == views(previous@),
            old_views.no_duplicates(),
            i <= previous@.len(),
            views(kept@).no_duplicates(),
            forall|x: SelectionView| #[trigger] views(kept@).contains(x) ==> described(controllers@, x)
                && old_views.take(i as int).contains(x),
        decreases previous@.len() - i,
    {
        let s = &previous[i];
        let ghost before = views(kept@);
        if s.kind.0 == ANIMATION_TYPE && named_by_driver(controllers, s) {
            kept.push(s.duplicate());
            proof {
                assert(views(kept@) =~= before.push(old_views[i as int]));
                assert(!before.contains(old_views[i as int])) by {
                    if before.contains(old_views[i as int]) {
                        let k = choose|k: int| 0 <= k < i && old_views.take(i as int)[k] == old_views[i as int];
                        assert(old_views[k] == old_views[i as int]);
                    }
                }
                assert forall|a: int, b: int| 0 <= a < b < views(kept@).len() implies views(kept@)[a] != views(kept@)[b] by {
                    if b == views(kept@).len() - 1 {
                        assert(before.contains(before[a]));
                    } else {
                        assert(before[a] != before[b]);
                    }
                }
            }
        }
        proof {
            assert(old_views.take(i + 1) =~= old_views.take(i as int).push(old_views[i as int]));
            assert forall|x: SelectionView| #[trigger] views(kept@).contains(x) implies described(controllers@, x)
                && old_views.take(i + 1).contains(x) by {
                if before.contains(x) {
                    let k = choose|k: int| 0 <= k < i && old_views.take(i as int)[k] == x;
                    assert(old_views.take(i + 1)[k] == x);
                } else {
                    let n = choose|n: int| 0 <= n < views(kept@).len() && views(kept@)[n] == x;
                    assert(x == old_views[i as int]);
                    assert(old_views.take(i + 1)[i as int] == x);
                    let c = choose|c: int|
                        0 <= c < controllers@.len() && description_demands(
                            (#[trigger] controllers@[c]).0.description,
                            previous@[i as int]@,
                        );
                    assert(description_demands(controllers@[c].0.description, x));
                }
            }
        }
        i = i + 1;
    }
    let mut j: usize = 0;
    while j < controllers.len()
        invariant
            j <= controllers@.len(),
            views(kept@).no_duplicates(),
            forall|x: SelectionView| #[trigger] views(kept@).contains(x) ==> described(controllers@, x),
            forall|x: SelectionView|
                #![trigger views(kept@).contains(x)]
                (exists|k: int|
                    0 <= k < j && (description_demands((#[trigger] controllers@[k]).0.description, x)
                        || (controllers@[k].1 matches Some(s) && description_demands(source_description(s), x))))
                    ==> views(kept@).contains(x),
        decreases controllers@.len() - j,
    {
        let ghost before = views(kept@);
        add_description_demand(&controllers[j].0.description, &mut kept);
        let ghost middle = views(kept@);
        match &controllers[j].1 {
            Some(source) => {
                add_description_demand(source_description_of(source), &mut kept);
            },
            None => {},
        }
        proof {
            assert forall|x: SelectionView| #[trigger] views(kept@).contains(x) implies described(controllers@, x) by {
                if !before.contains(x) {
                    if middle.contains(x) {
                        assert(description_demands(controllers@[j as int].0.description, x));
                    } else {
                        assert(controllers@[j as int].1 is Some);
                    }
                }
            }
            assert forall|x: SelectionView|
                (exists|k: int|
                    0 <= k < j + 1 && (description_demands((#[trigger] controllers@[k]).0.description, x)
                        || (controllers@[k].1 matches Some(s) && description_demands(source_description(s), x))))
                    implies views(kept@).contains(x) by {
                let k = choose|k: int|
                    0 <= k < j + 1 && (description_demands((#[trigger] controllers@[k]).0.description, x)
                        || (controllers@[k].1 matches Some(s) && description_demands(source_description(s), x)));
                if k < j {
                    assert(before.contains(x));
                    assert(middle.contains(x));
                } else if description_demands(controllers@[k].0.description, x) {
                    assert(middle.contains(x));
                }
            }
        }
        j = j + 1;
    }
    *sources = kept;
}

} // verus!
