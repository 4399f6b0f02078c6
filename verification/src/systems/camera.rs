//! Explicit active-camera selection and the Host viewport recorded for camera
//! queries. Selection changes are reported once, in commit order.

use crate::ids::{EntityId, ErrorReason, SystemId};
use crate::systems::contexts::SystemInitContext;
use crate::systems::{GeometrySystem, SystemDependency, SystemInitError};
use crate::world::{CAMERA, ComponentValue, TRANSFORM, WorldSimulationState};
use vstd::prelude::*;

verus! {

/// Sparse committed camera-system settings; omitted fields did not change.
#[derive(Clone, Copy, Debug, PartialEq, Eq, Structural)]
pub struct CameraStatePatch {
    /// The newly selected entity, present only when selection changed.
    pub active_camera: Option<EntityId>,
}

impl Default for CameraStatePatch {
    fn default() -> (r: Self)
        ensures
            r.active_camera is None,
    {
        CameraStatePatch { active_camera: None }
    }
}

/// A camera-system transition committed at the start of an update.
#[derive(Clone, Copy, Debug, PartialEq, Eq, Structural)]
pub struct CameraStateChange {
    /// Evaluated frame number.
    pub tick: u64,
    /// Only system settings changed by this committed transition.
    pub changes: CameraStatePatch,
}

/// Active camera selection and the Host surface dimensions used for queries.
pub struct CameraSystemState {
    pub state_changes: Vec<CameraStatePatch>,
    pub active_camera: Option<EntityId>,
    pub render_viewport: Option<(u32, u32)>,
}

/// Camera system owned by one World.
pub struct CameraSystem {
    pub state: CameraSystemState,
}

/// Ordered camera command.
#[derive(Clone, Copy, Debug, PartialEq, Eq, Structural)]
pub enum CameraCommand {
    Activate(EntityId),
}

/// The outcome of activating an entity, given whether its camera and pose
/// prepare a valid projection.
pub open spec fn activation(world: WorldSimulationState, entity: EntityId, prepared: Result<(), ErrorReason>) -> Result<(), ErrorReason> {
    if !world.state.allocator.live(entity) {
        Err(ErrorReason::InvalidEntity)
    } else if !world.components.occupied(CAMERA, entity.spec_index() as usize) {
        Err(ErrorReason::MissingComponent)
    } else if !world.components.occupied(TRANSFORM, entity.spec_index() as usize) {
        Err(ErrorReason::MissingComponent)
    } else {
        prepared
    }
}

/// Changes reported for drained patches at a tick.
pub open spec fn reported(tick: u64, patches: Seq<CameraStatePatch>) -> Seq<CameraStateChange> {
    patches.map_values(|p: CameraStatePatch| CameraStateChange { tick, changes: p })
}

/// The selection after a command with its outcome: an accepted activation
/// selects its entity; a refused one changes nothing.
pub open spec fn selection_after(before: Option<EntityId>, command: CameraCommand, outcome: Result<(), ErrorReason>) -> Option<EntityId> {
    match command {
        CameraCommand::Activate(entity) => if outcome is Ok {
            Some(entity)
        } else {
            before
        },
    }
}

/// The entity of the last accepted activation among the commands, if any.
pub open spec fn last_activated(commands: Seq<CameraCommand>, outcomes: Seq<Result<(), ErrorReason>>) -> Option<EntityId>
    decreases commands.len(),
{
    if commands.len() == 0 {
        None
    } else {
        match commands.last() {
            CameraCommand::Activate(entity) => if outcomes[commands.len() - 1] is Ok {
                Some(entity)
            } else {
                last_activated(commands.drop_last(), outcomes)
            },
        }
    }
}

/// The selection is the most recent accepted activation: after a stream of
/// commands, each applied with its outcome, the active camera is the entity
/// of the last accepted activation, or the earlier selection when every
/// activation was refused.
pub proof fn lemma_selection_is_last_activation(
    selections: Seq<Option<EntityId>>,
    commands: Seq<CameraCommand>,
    outcomes: Seq<Result<(), ErrorReason>>,
)
    requires
        selections.len() == commands.len() + 1,
        outcomes.len() == commands.len(),
        forall|k: int| 0 <= k < commands.len() ==> #[trigger] selections[k + 1] == selection_after(selections[k], commands[k], outcomes[k]),
    ensures
        selections.last() == match last_activated(commands, outcomes) {
            Some(entity) => Some(entity),
            None => selections[0],
        },
{
    lemma_selection_prefix(selections, commands, outcomes);
}

proof fn lemma_selection_prefix(
    selections: Seq<Option<EntityId>>,
    commands: Seq<CameraCommand>,
    outcomes: Seq<Result<(), ErrorReason>>,
)
    requires
        selections.len() == commands.len() + 1,
        outcomes.len() >= commands.len(),
        forall|k: int| 0 <= k < commands.len() ==> #[trigger] selections[k + 1] == selection_after(selections[k], commands[k], outcomes[k]),
    ensures
        selections.last() == match last_activated(commands, outcomes) {
            Some(entity) => Some(entity),
            None => selections[0],
        },
    decreases commands.len(),
{
    if commands.len() > 0 {
        let n = commands.len() - 1;
        let rest = selections.drop_last();
        assert forall|k: int| 0 <= k < commands.drop_last().len() implies #[trigger] rest[k + 1] == selection_after(
            rest[k],
            commands.drop_last()[k],
            outcomes[k],
        ) by {
            assert(selections[k + 1] == selection_after(selections[k], commands[k], outcomes[k]));
        }
        lemma_selection_prefix(rest, commands.drop_last(), outcomes);
        assert(selections[n + 1] == selection_after(selections[n], commands[n], outcomes[n]));
        assert(commands.last() == commands[n]);
        assert(rest.last() == selections[n]);
    }
}

impl CameraSystem {
    /// A new world has no selection and no recorded viewport.
    pub fn new() -> (r: Self)
        ensures
            r.state.active_camera is None,
            r.state.render_viewport is None,
            r.state.state_changes@.len() == 0,
    {
        CameraSystem {
            state: CameraSystemState { state_changes: Vec::new(), active_camera: None, render_viewport: None },
        }
    }

    /// Select an existing entity whose camera and transform are present and
    /// prepare (`prepared`) a valid projection. A changed selection is queued
    /// for the next report; re-selecting the active camera reports nothing.
    pub fn activate(&mut self, world: &WorldSimulationState, entity: EntityId, prepared: Result<(), ErrorReason>) -> (r: Result<(), ErrorReason>)
        requires
            world.wf(),
        ensures
            r == activation(*world, entity, prepared),
            final(self).state.render_viewport == old(self).state.render_viewport,
            r is Err ==> final(self).state.active_camera == old(self).state.active_camera
                && final(self).state.state_changes@ == old(self).state.state_changes@,
            r is Ok ==> final(self).state.active_camera == Some(entity),
            r is Ok && old(self).state.active_camera == Some(entity) ==> final(self).state.state_changes@
                == old(self).state.state_changes@,
            r is Ok && old(self).state.active_camera != Some(entity) ==> final(self).state.state_changes@
                == old(self).state.state_changes@.push(CameraStatePatch { active_camera: Some(entity) }),
    {
        if !world.state.allocator.contains(entity) {
            return Err(ErrorReason::InvalidEntity);
        }
        let index = entity.index() as usize;
        if world.components.get(CAMERA, index).is_none() {
            return Err(ErrorReason::MissingComponent);
        }
        if world.components.get(TRANSFORM, index).is_none() {
            return Err(ErrorReason::MissingComponent);
        }
        if let Err(reason) = prepared {
            return Err(reason);
        }
        if self.state.active_camera != Some(entity) {
            self.state.active_camera = Some(entity);
            self.state.state_changes.push(CameraStatePatch { active_camera: Some(entity) });
        }
        prepared
    }

    /// Apply an ordered camera command.
    pub fn command(&mut self, world: &WorldSimulationState, command: CameraCommand, prepared: Result<(), ErrorReason>) -> (r: Result<(), ErrorReason>)
        requires
            world.wf(),
        ensures
            match command {
                CameraCommand::Activate(entity) => r == activation(*world, entity, prepared),
            },
            final(self).state.active_camera == selection_after(old(self).state.active_camera, command, r),
            final(self).state.render_viewport == old(self).state.render_viewport,
    {
        match command {
            CameraCommand::Activate(entity) => self.activate(world, entity, prepared),
        }
    }

    /// Drain the selection changes committed since the last report, stamped
    /// with the evaluated tick, in commit order.
    pub fn finish_update(&mut self, tick: u64) -> (r: Vec<CameraStateChange>)
        ensures
            r@ == reported(tick, old(self).state.state_changes@),
            final(self).state.state_changes@.len() == 0,
            final(self).state.active_camera == old(self).state.active_camera,
            final(self).state.render_viewport == old(self).state.render_viewport,
    {
        let mut out: Vec<CameraStateChange> = Vec::new();
        let mut i: usize = 0;
        while i < self.state.state_changes.len()
            invariant
                i <= self.state.state_changes@.len(),
                self.state.state_changes@ == old(self).state.state_changes@,
                out@ == reported(tick, self.state.state_changes@.subrange(0, i as int)),
            decreases self.state.state_changes@.len() - i,
        {
            out.push(CameraStateChange { tick, changes: self.state.state_changes[i] });
            i = i + 1;
            assert(out@ =~= reported(tick, self.state.state_changes@.subrange(0, i as int)));
        }
        assert(self.state.state_changes@.subrange(0, i as int) =~= self.state.state_changes@);
        self.state.state_changes = Vec::new();
        out
    }

    /// Teardown forgets the selection.
    pub fn teardown(&mut self)
        ensures
            final(self).state.active_camera is None,
            final(self).state.render_viewport == old(self).state.render_viewport,
            final(self).state.state_changes@ == old(self).state.state_changes@,
    {
        self.state.active_camera = None;
    }

    /// Record the Host surface dimensions used to validate subsequent camera queries.
    pub fn set_render_viewport(&mut self, viewport: Option<(u32, u32)>)
        ensures
            final(self).state.render_viewport == viewport,
            final(self).state.active_camera == old(self).state.active_camera,
            final(self).state.state_changes@ == old(self).state.state_changes@,
    {
        self.state.render_viewport = viewport;
    }

    /// Read access over this system's state and its World.
    pub fn read<'a>(&'a self, world: &'a WorldSimulationState) -> (r: CameraReadAccess<'a>)
        ensures
            r.world == world,
            r.state == &self.state,
    {
        CameraReadAccess::new(world, &self.state)
    }
}

/// Read-only camera queries over one World.
pub struct CameraReadAccess<'a> {
    pub world: &'a WorldSimulationState,
    pub state: &'a CameraSystemState,
}

/// The effective camera component of the selection, if the selected entity is live.
pub open spec fn active_component(world: WorldSimulationState, active: Option<EntityId>) -> Option<ComponentValue> {
    match active {
        Some(entity) => if world.state.allocator.live(entity) && world.components.occupied(
            CAMERA,
            entity.spec_index() as usize,
        ) {
            Some(world.components.value(CAMERA, entity.spec_index() as usize))
        } else {
            None
        },
        None => None,
    }
}

impl<'a> CameraReadAccess<'a> {
    pub fn new(world: &'a WorldSimulationState, state: &'a CameraSystemState) -> (r: Self)
        ensures
            r.world == world,
            r.state == state,
    {
        CameraReadAccess { world, state }
    }

    /// The Host surface dimensions recorded for camera queries.
    pub fn render_viewport(&self) -> (r: Option<(u32, u32)>)
        ensures
            r == self.state.render_viewport,
    {
        self.state.render_viewport
    }

    /// Observe the explicit selection; a new world has none.
    pub fn active_camera(&self) -> (r: Option<EntityId>)
        ensures
            r == self.state.active_camera,
    {
        self.state.active_camera
    }

    /// The selected camera's final effective component.
    pub fn active_camera_component(&self) -> (r: Option<ComponentValue>)
        requires
            self.world.wf(),
        ensures
            r is Some <==> active_component(*self.world, self.state.active_camera) is Some,
            r matches Some(v) ==> v.type_id == active_component(*self.world, self.state.active_camera)->0.type_id
                && v.fields@ == active_component(*self.world, self.state.active_camera)->0.fields@,
    {
        let entity = match self.active_camera() {
            Some(entity) => entity,
            None => return None,
        };
        if !self.world.state.allocator.contains(entity) {
            return None;
        }
        self.world.components.get(CAMERA, entity.index() as usize)
    }
}

/// Reusable factory of camera systems; it retains no world state.
pub struct CameraSystemFactory;

impl CameraSystemFactory {
    /// Stable factory and instance identity.
    pub fn id(&self) -> (r: SystemId)
        ensures
            r.same(SystemId("ipp.camera")),
    {
        SystemId("ipp.camera")
    }

    /// Requires the geometry system, which runs first.
    pub fn dependencies(&self) -> (r: Vec<SystemDependency>)
        ensures
            r@.len() == 1,
            r@[0] matches SystemDependency::Required(g) && g.same(SystemId("ipp.geometry")),
    {
        vec![SystemDependency::Required(SystemId("ipp.geometry"))]
    }

    /// Create fresh state once the declared geometry predecessor resolves.
    pub fn create(&self, context: &SystemInitContext) -> (r: Result<CameraSystem, SystemInitError>)
        ensures
            r is Ok <==> context.dependency_resolves::<GeometrySystem>(SystemId("ipp.geometry")),
            r matches Ok(s) ==> s.state.active_camera is None && s.state.render_viewport is None
                && s.state.state_changes@.len() == 0,
    {
        match context.dependency::<GeometrySystem>(SystemId("ipp.geometry")) {
            Ok(_) => Ok(CameraSystem::new()),
            Err(e) => Err(e),
        }
    }
}


/// Only a live entity with a camera and a transform can be selected: an
/// accepted activation names such an entity, and one without a camera is
/// refused as missing a component.
pub proof fn lemma_activation_needs_camera(world: WorldSimulationState, entity: EntityId, prepared: Result<(), ErrorReason>)
    ensures
        activation(world, entity, prepared) is Ok ==> world.state.allocator.live(entity) && world.components.occupied(
            CAMERA,
            entity.spec_index() as usize,
        ) && world.components.occupied(TRANSFORM, entity.spec_index() as usize),
        world.state.allocator.live(entity) && !world.components.occupied(CAMERA, entity.spec_index() as usize) ==> activation(
            world,
            entity,
            prepared,
        ) == Err::<(), ErrorReason>(ErrorReason::MissingComponent),
{
}

} // verus!