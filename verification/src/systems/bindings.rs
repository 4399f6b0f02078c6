//! Typed update parameters. Initialization owns resolution; callbacks only borrow.

use crate::ids::{EntityId, SystemId, WorldId, str_equal};
use crate::systems::contexts::{
    SystemDependencies, SystemEffectiveEntitySnapshot, SystemWorldView, snapshot_of,
};
use crate::systems::{SystemDependency, SystemInitError};
use crate::world::WorldSimulationState;
use vstd::prelude::*;
use vstd::string::{StringExecFns, StringSliceAdditionalSpecFns};

verus! {

/// Generic component access, independent of current-system and service borrows.
pub struct SystemEcsAccess<'a> {
    pub world: &'a WorldSimulationState,
}

impl<'a> SystemEcsAccess<'a> {
    /// Identity of the independently owned World.
    pub fn id(&self) -> (r: WorldId)
        ensures
            r == self.world.id,
    {
        self.world.id
    }

    /// Observe effective components against the committed records.
    pub fn inspect_effective(&self, entity: EntityId) -> (r: Option<SystemEffectiveEntitySnapshot>)
        requires
            self.world.wf(),
        ensures
            r is Some <==> self.world.state.allocator.live(entity) && self.world.state.record(entity) is Some,
            r matches Some(s) ==> snapshot_of(*self.world, self.world.state, entity, s),
    {
        let view = SystemWorldView { world: self.world, authored: &self.world.state };
        view.inspect_effective(entity)
    }
}

/// Validated dependency slots handed to one update callback.
pub struct SystemParameterInputs<'a> {
    pub dependencies: SystemDependencies<'a>,
}

/// Present entries of a list of optional dependencies, in order.
pub open spec fn present(values: Seq<Option<SystemDependency>>) -> Seq<SystemDependency>
    decreases values.len(),
{
    if values.len() == 0 {
        Seq::empty()
    } else {
        let rest = present(values.drop_last());
        match values.last() {
            Some(d) => rest.push(d),
            None => rest,
        }
    }
}

pub proof fn lemma_present_len(values: Seq<Option<SystemDependency>>)
    ensures
        present(values).len() <= values.len(),
    decreases values.len(),
{
    if values.len() > 0 {
        lemma_present_len(values.drop_last());
    }
}

/// Placeholder filling the unused tail of a compacted dependency list.
pub open spec fn is_padding(d: SystemDependency) -> bool {
    d matches SystemDependency::After(id) && id.0.spec_bytes().len() == 0
}

/// Compact optional metadata: the present dependencies first, in order,
/// followed by ordering-only placeholders up to the input length.
pub fn compact_dependencies(values: &[Option<SystemDependency>]) -> (r: (Vec<SystemDependency>, usize))
    ensures
        r.0@.len() == values@.len(),
        r.1 == present(values@).len(),
        r.0@.subrange(0, r.1 as int) == present(values@),
        forall|i: int| r.1 <= i < r.0@.len() ==> is_padding(#[trigger] r.0@[i]),
{
    let mut output: Vec<SystemDependency> = Vec::new();
    let mut index: usize = 0;
    while index < values.len()
        invariant
            index <= values@.len(),
            output@ == present(values@.subrange(0, index as int)),
        decreases values@.len() - index,
    {
        proof {
            assert(values@.subrange(0, index + 1).drop_last() =~= values@.subrange(0, index as int));
        }
        match values[index] {
            Some(value) => {
                output.push(value);
            },
            None => {},
        }
        index = index + 1;
    }
    assert(values@.subrange(0, values@.len() as int) =~= values@);
    let len = output.len();
    proof {
        lemma_present_len(values@);
    }
    let empty: &'static str = "";
    proof {
        reveal_strlit("");
    }
    while output.len() < values.len()
        invariant
            len == present(values@).len(),
            len <= output@.len() <= values@.len(),
            output@.subrange(0, len as int) == present(values@),
            empty.spec_bytes().len() == 0,
            forall|i: int| len <= i < output@.len() ==> is_padding(#[trigger] output@[i]),
        decreases values@.len() - output@.len(),
    {
        let ghost before = output@;
        output.push(SystemDependency::After(SystemId(empty)));
        assert(output@.subrange(0, len as int) =~= before.subrange(0, len as int));
    }
    (output, len)
}

/// Whether the service at `i` repeats an earlier service slot.
pub open spec fn duplicate_at(values: Seq<Option<&'static str>>, i: int) -> bool {
    &&& 0 <= i < values.len()
    &&& values[i] is Some
    &&& exists|j: int|
        0 <= j < i && values[j] is Some && #[trigger] values[j].unwrap().spec_bytes()
            == values[i].unwrap().spec_bytes()
}

/// The refusal of a repeated service slot.
pub open spec fn duplicate_message_text(service: Seq<char>) -> Seq<char> {
    "duplicate update service parameter "@ + service
}

fn duplicate_message(service: &str) -> (m: String)
    ensures
        m@ == duplicate_message_text(service@),
{
    let mut m = "duplicate update service parameter ".to_owned();
    m.append(service);
    m
}

/// Reject duplicate service slots before any update can run.
pub fn validate_parameter_services(values: &[Option<&'static str>]) -> (r: Result<(), SystemInitError>)
    ensures
        r is Ok <==> forall|i: int| !duplicate_at(values@, i),
        r matches Err(e) ==> exists|i: int|
            duplicate_at(values@, i) && (forall|k: int| 0 <= k < i ==> !duplicate_at(values@, k))
                && (e matches SystemInitError::Message(m) && m@ == duplicate_message_text(values@[i].unwrap()@)),
{
    let mut index: usize = 0;
    while index < values.len()
        invariant
            index <= values@.len(),
            forall|k: int| 0 <= k < index ==> !duplicate_at(values@, k),
        decreases values@.len() - index,
    {
        if let Some(service) = values[index] {
            let mut j: usize = 0;
            while j < index
                invariant
                    index < values@.len(),
                    forall|k: int| 0 <= k < index ==> !duplicate_at(values@, k),
                    values@[index as int] == Some(service),
                    j <= index,
                    forall|k: int|
                        0 <= k < j ==> !(values@[k] is Some && values@[k].unwrap().spec_bytes()
                            == service.spec_bytes()),
                decreases index - j,
            {
                if let Some(earlier) = values[j] {
                    if str_equal(earlier, service) {
                        assert(duplicate_at(values@, index as int));
                        let r: Result<(), SystemInitError> = Err(SystemInitError::Message(duplicate_message(service)));
                        return r;
                    }
                }
                j = j + 1;
            }
        }
        index = index + 1;
    }
    Ok(())
}

} // verus!
