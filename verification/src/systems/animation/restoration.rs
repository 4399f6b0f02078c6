//! Restoring a controller's inputs: which of its drivers put their original
//! values back, and how, when the controller stops contributing.

use crate::ids::EntityId;
use crate::systems::animation::AnimationValue;
use crate::world::FieldValue;
use vstd::prelude::*;

verus! {

/// One bound driver as restoration sees it.
pub struct RestorationDriver {
    /// Entity and component the driver writes.
    pub key: (EntityId, u16),
    /// Field offsets of its property.
    pub offsets: Vec<u32>,
    /// The value the property held before the driver bound it.
    pub original: AnimationValue,
    /// Whether it writes a discrete (stepped) value.
    pub discrete: bool,
    /// Whether its discrete output may be kept while outputs are retained.
    pub retain_discrete: bool,
    /// Whether it restores itself through its compiled storage destination.
    pub compiled: bool,
    /// Whether its bound target is still alive.
    pub alive: bool,
}

/// A controller as restoration sees it.
pub struct RestorationController {
    /// Its clips are ready and its drivers bound.
    pub ready: bool,
    /// Sampling failed.
    pub failed: bool,
    /// Its numeric outputs may be kept while outputs are retained.
    pub retain_numeric: bool,
    /// Its drivers, then those of its crossfade source.
    pub drivers: Vec<RestorationDriver>,
}

/// One restoration action.
#[derive(Clone, Copy, Debug, PartialEq, Eq)]
pub enum RestoreStep {
    /// The driver restores itself through its compiled destination.
    Compiled(usize),
    /// The driver forgets its held discrete output.
    ResetDiscrete(usize),
    /// Stage the original value of one numeric field.
    SetNumeric { key: (EntityId, u16), offset: u32, value: FieldValue },
    /// Write the driver's original value into its staged component.
    Restore(usize),
}

/// The controller keeps its outputs: nothing is restored.
pub open spec fn outputs_retained(c: RestorationController, retain_outputs: bool) -> bool {
    retain_outputs && c.ready && !c.failed && c.retain_numeric
}

/// The steps of one driver. A crossfade whose union was restored restores
/// every driver already. A compiled driver restores itself; a retained
/// discrete driver keeps its output; another discrete driver forgets it and
/// stages its single original field, when it has one; the rest write their
/// original value when their target is alive.
pub open spec fn driver_restore_steps(
    c: RestorationController,
    i: int,
    retain_outputs: bool,
    union_restored: bool,
) -> Seq<RestoreStep> {
    let d = c.drivers@[i];
    let tail = if d.alive {
        seq![RestoreStep::Restore(i as usize)]
    } else {
        Seq::empty()
    };
    if union_restored {
        Seq::empty()
    } else if d.compiled {
        seq![RestoreStep::Compiled(i as usize)]
    } else if d.discrete {
        if retain_outputs && c.ready && !c.failed && d.retain_discrete {
            Seq::empty()
        } else if d.offsets@.len() == 1 && d.original is Field {
            seq![
                RestoreStep::ResetDiscrete(i as usize),
                RestoreStep::SetNumeric { key: d.key, offset: d.offsets@[0], value: d.original->Field_0 },
            ]
        } else {
            seq![RestoreStep::ResetDiscrete(i as usize)] + tail
        }
    } else {
        tail
    }
}

/// The steps of the first `n` drivers, in order.
pub open spec fn restore_steps(c: RestorationController, n: int, retain_outputs: bool, union_restored: bool) -> Seq<
    RestoreStep,
>
    decreases n,
{
    if n <= 0 {
        Seq::empty()
    } else {
        restore_steps(c, n - 1, retain_outputs, union_restored) + driver_restore_steps(
            c,
            n - 1,
            retain_outputs,
            union_restored,
        )
    }
}

/// The steps of one driver.
fn driver_plan(c: &RestorationController, i: usize, retain_outputs: bool, union_restored: bool) -> (r: Vec<RestoreStep>)
    requires
        i < c.drivers@.len(),
    ensures
        r@ == driver_restore_steps(*c, i as int, retain_outputs, union_restored),
{
    let d = &c.drivers[i];
    let mut steps: Vec<RestoreStep> = Vec::new();
    if union_restored {
        return steps;
    }
    if d.compiled {
        steps.push(RestoreStep::Compiled(i));
        proof {
            assert(steps@ =~= seq![RestoreStep::Compiled(i)]);
        }
        return steps;
    }
    if d.discrete {
        if retain_outputs && c.ready && !c.failed && d.retain_discrete {
            return steps;
        }
        steps.push(RestoreStep::ResetDiscrete(i));
        if d.offsets.len() == 1 {
            match &d.original {
                AnimationValue::Field(v) => {
                    steps.push(RestoreStep::SetNumeric { key: d.key, offset: d.offsets[0], value: *v });
                    proof {
                        assert(steps@ =~= driver_restore_steps(*c, i as int, retain_outputs, union_restored));
                    }
                    return steps;
                },
                _ => {},
            }
        }
    }
    if d.alive {
        steps.push(RestoreStep::Restore(i));
    }
    proof {
        assert(steps@ =~= driver_restore_steps(*c, i as int, retain_outputs, union_restored));
    }
    steps
}

/// What restoring a controller's inputs does, in order: nothing when the
/// controller keeps its outputs (`None`); otherwise each driver's steps, its
/// own drivers first, then those of its crossfade source. `union_restored`
/// says whether the crossfade already restored the union of both sides.
pub fn restore_plan(c: &RestorationController, retain_outputs: bool, union_restored: bool) -> (r: Option<
    Vec<RestoreStep>,
>)
    ensures
        r is None <==> outputs_retained(*c, retain_outputs),
        r matches Some(p) ==> p@ == restore_steps(*c, c.drivers@.len() as int, retain_outputs, union_restored),
{
    if retain_outputs && c.ready && !c.failed && c.retain_numeric {
        return None;
    }
    let mut plan: Vec<RestoreStep> = Vec::new();
    let mut i: usize = 0;
    while i < c.drivers.len()
        invariant
            i <= c.drivers@.len(),
            plan@ == restore_steps(*c, i as int, retain_outputs, union_restored),
        decreases c.drivers@.len() - i,
    {
        let mut steps = driver_plan(c, i, retain_outputs, union_restored);
        plan.append(&mut steps);
        i = i + 1;
    }
    Some(plan)
}


/// Every driver's steps stand in the plan of the drivers after it.
proof fn lemma_steps_contain(c: RestorationController, n: int, i: int, retain_outputs: bool, union_restored: bool, k: int)
    requires
        0 <= i < n,
        0 <= k < driver_restore_steps(c, i, retain_outputs, union_restored).len(),
    ensures
        restore_steps(c, n, retain_outputs, union_restored).contains(driver_restore_steps(c, i, retain_outputs, union_restored)[k]),
    decreases n,
{
    let whole = restore_steps(c, n, retain_outputs, union_restored);
    let front = restore_steps(c, n - 1, retain_outputs, union_restored);
    let step = driver_restore_steps(c, i, retain_outputs, union_restored)[k];
    if i == n - 1 {
        assert(whole[front.len() + k] == step);
    } else {
        lemma_steps_contain(c, n - 1, i, retain_outputs, union_restored, k);
        let q = choose|q: int| 0 <= q < front.len() && front[q] == step;
        assert(whole[q] == step);
    }
}

/// A controller whose sampling failed keeps no discrete output: unless the
/// crossfade union was restored, the plan forgets the held output of each
/// of its discrete drivers that does not restore itself, whatever the
/// retention flags say.
pub proof fn lemma_failed_controller_resets_discrete(c: RestorationController, i: int, retain_outputs: bool)
    requires
        c.failed,
        0 <= i < c.drivers@.len(),
        c.drivers@[i].discrete,
        !c.drivers@[i].compiled,
    ensures
        !outputs_retained(c, retain_outputs),
        restore_steps(c, c.drivers@.len() as int, retain_outputs, false).contains(RestoreStep::ResetDiscrete(i as usize)),
{
    assert(driver_restore_steps(c, i, retain_outputs, false)[0] == RestoreStep::ResetDiscrete(i as usize));
    lemma_steps_contain(c, c.drivers@.len() as int, i, retain_outputs, false, 0);
}

/// A discrete driver that is not retained stages its single original field:
/// when the controller's outputs are not kept and the driver does not
/// restore itself, the plan writes the original value back at its offset.
pub proof fn lemma_discrete_original_staged(c: RestorationController, i: int, retain_outputs: bool)
    requires
        !(retain_outputs && c.ready && !c.failed && c.drivers@[i].retain_discrete),
        0 <= i < c.drivers@.len(),
        c.drivers@[i].discrete,
        !c.drivers@[i].compiled,
        c.drivers@[i].offsets@.len() == 1,
        c.drivers@[i].original is Field,
    ensures
        restore_steps(c, c.drivers@.len() as int, retain_outputs, false).contains(
            RestoreStep::SetNumeric {
                key: c.drivers@[i].key,
                offset: c.drivers@[i].offsets@[0],
                value: c.drivers@[i].original->Field_0,
            },
        ),
{
    lemma_steps_contain(c, c.drivers@.len() as int, i, retain_outputs, false, 1);
}

} // verus!