//! A World with its ordered system instances and its queue of system
//! commands: the public queries and requests that reach one system by its
//! stable identity.

use crate::ids::{EntityId, ErrorReason, SystemId};
use crate::systems::asset_dependencies::{
    AssetDependencySystem, AssetKey, AssetSource, AssetUpload, AssetUploadIdentity, AssetUploadOutcome, UploadStatus,
    outcome_view, producer_asset_valid, resolve_asset_key, settled, unsettled, upload_demanded,
};
use crate::systems::camera::{CameraCommand, CameraSystem, active_component, activation, last_activated, lemma_selection_is_last_activation, selection_after};
use crate::systems::constraints::{ConstraintSystem, binding_valid};
use crate::keyed::lookup;
use crate::systems::{SystemBox, SystemInstance};
use crate::world::{ComponentValue, LINEAR_DRIVER, WorldSimulationState};
use vstd::prelude::*;

verus! {

/// A command addressed to one system.
pub enum SystemCommand {
    Camera(CameraCommand),
}

/// A queued system command with its session.
pub struct QueuedSystemCommand {
    pub system: SystemId,
    pub session: u64,
    pub command: SystemCommand,
}

/// One World, its systems in schedule order and its pending system commands.
pub struct WorldContext {
    pub world: WorldSimulationState,
    pub systems: Vec<SystemInstance>,
    pub commands: Vec<QueuedSystemCommand>,
}

/// Position of the first instance with an identity.
pub open spec fn located(systems: Seq<SystemInstance>, id: SystemId) -> Option<int>
    decreases systems.len(),
{
    if systems.len() == 0 {
        None
    } else if systems[0].id.same(id) {
        Some(0)
    } else {
        match located(systems.drop_first(), id) {
            Some(i) => Some(i + 1),
            None => None,
        }
    }
}

pub proof fn lemma_located(systems: Seq<SystemInstance>, id: SystemId)
    ensures
        located(systems, id) matches Some(i) ==> 0 <= i < systems.len() && systems[i].id.same(id) && forall|j: int|
            0 <= j < i ==> !systems[j].id.same(id),
        located(systems, id) is None ==> forall|j: int| 0 <= j < systems.len() ==> !systems[j].id.same(id),
    decreases systems.len(),
{
    if systems.len() > 0 {
        lemma_located(systems.drop_first(), id);
        if !systems[0].id.same(id) {
            assert forall|j: int| 1 <= j < systems.len() implies systems[j].id == systems.drop_first()[j - 1].id by {}
        }
    }
}

/// The camera system found under its identity.
pub open spec fn camera_at(systems: Seq<SystemInstance>) -> Option<CameraSystem> {
    match located(systems, SystemId("ipp.camera")) {
        Some(i) => match systems[i].system {
            SystemBox::Camera(c) => Some(c),
            _ => None,
        },
        None => None,
    }
}

/// The constraint system found under its identity.
pub open spec fn constraints_at(systems: Seq<SystemInstance>) -> Option<ConstraintSystem> {
    match located(systems, SystemId("ipp.constraints")) {
        Some(i) => match systems[i].system {
            SystemBox::Constraints(c) => Some(c),
            _ => None,
        },
        None => None,
    }
}

/// The asset dependency system found under its identity.
pub open spec fn assets_at(systems: Seq<SystemInstance>) -> Option<AssetDependencySystem> {
    match located(systems, SystemId("ipp.asset-dependencies")) {
        Some(i) => match systems[i].system {
            SystemBox::AssetDependencies(a) => Some(a),
            _ => None,
        },
        None => None,
    }
}

/// Queueing an activation leaves the selection as it is: the command takes
/// effect only when applied at a later boundary.
pub proof fn lemma_enqueue_keeps_selection(before: WorldContext, after: WorldContext)
    requires
        after.systems@ == before.systems@,
        camera_at(before.systems@) is Some,
    ensures
        camera_at(after.systems@) is Some,
        camera_at(after.systems@)->0.state.active_camera == camera_at(before.systems@)->0.state.active_camera,
        camera_at(after.systems@)->0.state.render_viewport == camera_at(before.systems@)->0.state.render_viewport,
{
}

/// Read after write of the viewport: right after `set_render_viewport` the
/// recorded viewport is the one written, and the selection is unchanged.
pub proof fn lemma_viewport_read_after_write(before: WorldContext, after: WorldContext, viewport: Option<(u32, u32)>)
    requires
        camera_at(before.systems@) is Some,
        camera_at(after.systems@) matches Some(c) && c.state.render_viewport == viewport
            && c.state.active_camera == camera_at(before.systems@)->0.state.active_camera,
    ensures
        camera_at(after.systems@)->0.state.render_viewport == viewport,
        camera_at(after.systems@)->0.state.active_camera == camera_at(before.systems@)->0.state.active_camera,
{
}

/// What applying a camera command does: its outcome is the activation's,
/// the selection follows it, and the viewport stays.
pub open spec fn camera_applied(
    before: CameraSystem,
    after: Option<CameraSystem>,
    world: WorldSimulationState,
    command: CameraCommand,
    prepared: Result<(), ErrorReason>,
    r: Option<Result<(), ErrorReason>>,
) -> bool {
    &&& r is Some
    &&& match command {
        CameraCommand::Activate(entity) => r->0 == activation(world, entity, prepared),
    }
    &&& after is Some
    &&& after->0.state.active_camera == selection_after(before.state.active_camera, command, r->0)
    &&& after->0.state.render_viewport == before.state.render_viewport
}

/// The World's selection is its last accepted activation: over a run of
/// queued camera commands applied in order, each with its outcome, the active
/// camera is the entity of the last accepted activation, or the earlier
/// selection when every activation was refused.
pub proof fn lemma_world_selection_is_last_activation(
    states: Seq<WorldContext>,
    commands: Seq<CameraCommand>,
    outcomes: Seq<Result<(), ErrorReason>>,
)
    requires
        states.len() == commands.len() + 1,
        outcomes.len() == commands.len(),
        forall|k: int| 0 <= k < states.len() ==> camera_at((#[trigger] states[k]).systems@) is Some,
        forall|k: int|
            0 <= k < commands.len() ==> camera_at((#[trigger] states[k + 1]).systems@)->0.state.active_camera == selection_after(
                camera_at(states[k].systems@)->0.state.active_camera,
                commands[k],
                outcomes[k],
            ),
    ensures
        camera_at(states.last().systems@)->0.state.active_camera == match last_activated(commands, outcomes) {
            Some(entity) => Some(entity),
            None => camera_at(states[0].systems@)->0.state.active_camera,
        },
{
    let selections = Seq::new(states.len(), |k: int| camera_at(states[k].systems@)->0.state.active_camera);
    assert forall|k: int| 0 <= k < commands.len() implies #[trigger] selections[k + 1] == selection_after(
        selections[k],
        commands[k],
        outcomes[k],
    ) by {
        assert(camera_at(states[k + 1].systems@)->0.state.active_camera == selection_after(
            camera_at(states[k].systems@)->0.state.active_camera,
            commands[k],
            outcomes[k],
        ));
    }
    lemma_selection_is_last_activation(selections, commands, outcomes);
    assert(selections.last() == camera_at(states.last().systems@)->0.state.active_camera);
}

impl WorldContext {
    fn locate(&self, id: SystemId) -> (r: Option<usize>)
        ensures
            r matches Some(i) ==> located(self.systems@, id) == Some(i as int) && i < self.systems@.len(),
            r is None ==> located(self.systems@, id) is None,
    {
        let mut i: usize = 0;
        proof {
            lemma_located(self.systems@, id);
        }
        while i < self.systems.len()
            invariant
                i <= self.systems@.len(),
                forall|j: int| 0 <= j < i ==> !self.systems@[j].id.same(id),
                located(self.systems@, id) matches Some(k) ==> i <= k && k < self.systems@.len()
                    && self.systems@[k].id.same(id),
            decreases self.systems@.len() - i,
        {
            if self.systems[i].id.equals(&id) {
                proof {
                    lemma_located_at(self.systems@, id, i as int);
                }
                return Some(i);
            }
            i = i + 1;
        }
        None
    }

    /// Queue an explicit camera selection in the same ordered stream as batches.
    pub fn enqueue_camera_activate(&mut self, entity: EntityId) -> (r: Result<(), ErrorReason>)
        ensures
            r is Ok,
            final(self).commands@.len() == old(self).commands@.len() + 1,
            forall|i: int| 0 <= i < old(self).commands@.len() ==> final(self).commands@[i] == old(self).commands@[i],
            final(self).commands@.last().system.same(SystemId("ipp.camera")),
            final(self).commands@.last().session == 0,
            final(self).commands@.last().command == SystemCommand::Camera(CameraCommand::Activate(entity)),
            final(self).systems@ == old(self).systems@,
            camera_at(final(self).systems@) == camera_at(old(self).systems@),
            final(self).world == old(self).world,
    {
        self.commands.push(
            QueuedSystemCommand {
                system: SystemId("ipp.camera"),
                session: 0,
                command: SystemCommand::Camera(CameraCommand::Activate(entity)),
            },
        );
        Ok(())
    }

    /// Observe the explicit selection; a new world has none.
    pub fn active_camera(&self) -> (r: Option<EntityId>)
        requires
            camera_at(self.systems@) is Some,
        ensures
            r == camera_at(self.systems@)->0.state.active_camera,
    {
        let i = self.locate(SystemId("ipp.camera")).unwrap();
        match &self.systems[i].system {
            SystemBox::Camera(c) => c.read(&self.world).active_camera(),
            _ => None,
        }
    }

    /// The selected camera's final effective component.
    pub fn active_camera_component(&self) -> (r: Option<ComponentValue>)
        requires
            camera_at(self.systems@) is Some,
            self.world.wf(),
        ensures
            r is Some <==> active_component(self.world, camera_at(self.systems@)->0.state.active_camera) is Some,
            r matches Some(v) ==> v.type_id == active_component(self.world, camera_at(self.systems@)->0.state.active_camera)->0.type_id
                && v.fields@ == active_component(self.world, camera_at(self.systems@)->0.state.active_camera)->0.fields@,
    {
        let i = self.locate(SystemId("ipp.camera")).unwrap();
        match &self.systems[i].system {
            SystemBox::Camera(c) => c.read(&self.world).active_camera_component(),
            _ => None,
        }
    }

    /// The Host surface dimensions recorded for camera queries and rendering.
    pub fn render_viewport(&self) -> (r: Option<(u32, u32)>)
        requires
            camera_at(self.systems@) is Some,
        ensures
            r == camera_at(self.systems@)->0.state.render_viewport,
    {
        let i = self.locate(SystemId("ipp.camera")).unwrap();
        match &self.systems[i].system {
            SystemBox::Camera(c) => c.read(&self.world).render_viewport(),
            _ => None,
        }
    }

    /// Apply the oldest queued command at a mutation boundary. `prepared` is
    /// whether the camera and pose of an activated entity prepare a valid
    /// projection. Returns the command's outcome, or `None` when nothing is
    /// queued.
    pub fn apply_next_command(&mut self, prepared: Result<(), ErrorReason>) -> (r: Option<Result<(), ErrorReason>>)
        requires
            camera_at(old(self).systems@) is Some,
            old(self).world.wf(),
        ensures
            old(self).commands@.len() == 0 ==> r is None && final(self).commands@ == old(self).commands@
                && final(self).systems@ == old(self).systems@,
            old(self).commands@.len() > 0 ==> final(self).commands@ == old(self).commands@.drop_first() && match old(
                self,
            ).commands@[0].command {
                SystemCommand::Camera(command) => camera_applied(
                    camera_at(old(self).systems@)->0,
                    camera_at(final(self).systems@),
                    old(self).world,
                    command,
                    prepared,
                    r,
                ),
            },
            final(self).world == old(self).world,
            camera_at(final(self).systems@) is Some,
    {
        if self.commands.len() == 0 {
            return None;
        }
        let queued = self.commands.remove(0);
        let i = self.locate(SystemId("ipp.camera")).unwrap();
        let ghost before = self.systems@;
        let mut instance = self.systems.remove(i);
        let r = match queued.command {
            SystemCommand::Camera(command) => match &mut instance.system {
                SystemBox::Camera(c) => c.command(&self.world, command, prepared),
                _ => Err(ErrorReason::Unavailable),
            },
        };
        self.systems.insert(i, instance);
        proof {
            assert forall|j: int| 0 <= j < before.len() && j != i implies #[trigger] self.systems@[j] == before[j] by {}
            assert(self.systems@[i as int].id == before[i as int].id);
            lemma_located(before, SystemId("ipp.camera"));
            lemma_located_same(before, self.systems@, SystemId("ipp.camera"), i as int);
        }
        Some(r)
    }

    /// Record the Host surface dimensions used to validate subsequent camera queries.
    pub fn set_render_viewport(&mut self, viewport: Option<(u32, u32)>)
        requires
            camera_at(old(self).systems@) is Some,
        ensures
            camera_at(final(self).systems@) matches Some(c) && c.state.render_viewport == viewport
                && c.state.active_camera == camera_at(old(self).systems@)->0.state.active_camera
                && c.state.state_changes@ == camera_at(old(self).systems@)->0.state.state_changes@,
            final(self).systems@.len() == old(self).systems@.len(),
            forall|j: int| 0 <= j < old(self).systems@.len() && Some(j) != located(old(self).systems@, SystemId("ipp.camera"))
                ==> #[trigger] final(self).systems@[j] == old(self).systems@[j],
            final(self).world == old(self).world,
            final(self).commands@ == old(self).commands@,
    {
        let i = self.locate(SystemId("ipp.camera")).unwrap();
        let ghost before = self.systems@;
        let mut instance = self.systems.remove(i);
        match &mut instance.system {
            SystemBox::Camera(c) => c.set_render_viewport(viewport),
            _ => {},
        }
        self.systems.insert(i, instance);
        proof {
            assert forall|j: int| 0 <= j < before.len() && j != i implies #[trigger] self.systems@[j] == before[j] by {}
            assert(self.systems@[i as int].id == before[i as int].id);
            lemma_located(before, SystemId("ipp.camera"));
            lemma_located_same(before, self.systems@, SystemId("ipp.camera"), i as int);
        }
    }

    /// Whether an entity's authored driver currently has a valid incarnation
    /// binding. `None` when the entity or its driver does not exist, or the
    /// world has no constraint system.
    pub fn driver_bound(&self, entity: EntityId) -> (r: Option<bool>)
        requires
            constraints_at(self.systems@) matches Some(c) ==> c.wf(),
        ensures
            r is Some <==> self.world.state.spec_input(entity, LINEAR_DRIVER) is Some && constraints_at(self.systems@) is Some,
            r matches Some(b) ==> b == (match lookup(constraints_at(self.systems@)->0.state.bindings.view(), entity.bits) {
                Some(binding) => binding_valid(self.world.state, entity, binding),
                None => false,
            }),
    {
        if self.world.state.input(entity, LINEAR_DRIVER).is_none() {
            return None;
        }
        let i = match self.locate(SystemId("ipp.constraints")) {
            Some(i) => i,
            None => return None,
        };
        match &self.systems[i].system {
            SystemBox::Constraints(c) => c.driver_bound(&self.world.state, entity),
            _ => None,
        }
    }

    /// Queue producer bytes for the next ingress boundary.
    pub fn enqueue_asset(&mut self, upload: AssetUpload) -> (r: Result<(), ErrorReason>)
        requires
            assets_at(old(self).systems@) is Some,
        ensures
            r is Ok <==> producer_asset_valid(upload.key),
            r is Err ==> r == Err::<(), ErrorReason>(ErrorReason::InvalidAsset),
            assets_at(final(self).systems@) matches Some(a) && a.state.asset_queue@ == if r is Ok {
                assets_at(old(self).systems@)->0.state.asset_queue@.push(upload)
            } else {
                assets_at(old(self).systems@)->0.state.asset_queue@
            } && a.state.asset_pending@ == assets_at(old(self).systems@)->0.state.asset_pending@
                && a.state.source_users@ == assets_at(old(self).systems@)->0.state.source_users@
                && a.state.component_sources@ == assets_at(old(self).systems@)->0.state.component_sources@,
            final(self).systems@.len() == old(self).systems@.len(),
            forall|j: int| 0 <= j < old(self).systems@.len() && Some(j) != located(old(self).systems@, SystemId("ipp.asset-dependencies"))
                ==> #[trigger] final(self).systems@[j] == old(self).systems@[j],
            final(self).world == old(self).world,
            final(self).commands@ == old(self).commands@,
    {
        let i = self.locate(SystemId("ipp.asset-dependencies")).unwrap();
        let ghost before = self.systems@;
        let mut instance = self.systems.remove(i);
        let r = match &mut instance.system {
            SystemBox::AssetDependencies(a) => a.state.enqueue_asset(upload),
            _ => Err(ErrorReason::InvalidAsset),
        };
        self.systems.insert(i, instance);
        proof {
            assert forall|j: int| 0 <= j < before.len() && j != i implies #[trigger] self.systems@[j] == before[j] by {}
            lemma_located(before, SystemId("ipp.asset-dependencies"));
            lemma_located_same(before, self.systems@, SystemId("ipp.asset-dependencies"), i as int);
        }
        r
    }

    /// Complete upload receipts after each resource reports availability:
    /// `statuses[i]` is the Host's status of the i-th pending upload's
    /// resource. Outcomes carry the World's tick; settled uploads leave.
    pub fn take_asset_outcomes<S: Copy>(&mut self, statuses: Vec<UploadStatus<S>>) -> (r: Vec<AssetUploadOutcome<S>>)
        requires
            assets_at(old(self).systems@) matches Some(a) && statuses@.len() == a.state.asset_pending@.len(),
        ensures
            r@.map_values(|o: AssetUploadOutcome<S>| outcome_view(o)) == settled(
                assets_at(old(self).systems@)->0.state.asset_pending@,
                statuses@,
                old(self).world.tick,
            ),
            assets_at(final(self).systems@) matches Some(a) && a.state.asset_pending@ == unsettled(
                assets_at(old(self).systems@)->0.state.asset_pending@,
                statuses@,
            ) && a.state.asset_queue@ == assets_at(old(self).systems@)->0.state.asset_queue@
                && a.state.source_users@ == assets_at(old(self).systems@)->0.state.source_users@
                && a.state.component_sources@ == assets_at(old(self).systems@)->0.state.component_sources@,
            final(self).systems@.len() == old(self).systems@.len(),
            forall|j: int| 0 <= j < old(self).systems@.len() && Some(j) != located(old(self).systems@, SystemId("ipp.asset-dependencies"))
                ==> #[trigger] final(self).systems@[j] == old(self).systems@[j],
            final(self).world == old(self).world,
            final(self).commands@ == old(self).commands@,
    {
        let i = self.locate(SystemId("ipp.asset-dependencies")).unwrap();
        let ghost before = self.systems@;
        let tick = self.world.tick;
        let mut instance = self.systems.remove(i);
        let r = match &mut instance.system {
            SystemBox::AssetDependencies(a) => a.state.take_asset_outcomes(statuses, tick),
            _ => Vec::new(),
        };
        self.systems.insert(i, instance);
        proof {
            assert forall|j: int| 0 <= j < before.len() && j != i implies #[trigger] self.systems@[j] == before[j] by {}
            lemma_located(before, SystemId("ipp.asset-dependencies"));
            lemma_located_same(before, self.systems@, SystemId("ipp.asset-dependencies"), i as int);
        }
        r
    }

    /// Release one producer's uploaded registration unless remaining World
    /// demand retains the immutable source for its live consumers; returns
    /// whether the Host releases it.
    pub fn release_asset_upload(&mut self, key: AssetUploadIdentity) -> (r: bool)
        requires
            assets_at(old(self).systems@) is Some,
        ensures
            r == !upload_demanded(assets_at(old(self).systems@)->0.state.source_users@, old(self).world.id.0, key),
            final(self).systems@ == old(self).systems@,
            final(self).world == old(self).world,
            final(self).commands@ == old(self).commands@,
    {
        let i = self.locate(SystemId("ipp.asset-dependencies")).unwrap();
        match &self.systems[i].system {
            SystemBox::AssetDependencies(a) => !a.state.upload_retained(self.world.id, key),
            _ => true,
        }
    }

    /// Resolve a world-local producer key or a retained Host resource
    /// identity: `provider` is the Host's registered source of a Host
    /// resource number, `found` its lookup of this world's upload URI.
    pub fn resolve_asset_key(&self, key: AssetUploadIdentity, provider: Option<&AssetSource>, found: Option<AssetKey>) -> (r:
        Option<AssetKey>)
        ensures
            r == if key.asset >= 0x8000_0000_0000_0000 {
                if provider matches Some(p) && p.kind == key.kind && p.variant == key.variant {
                    Some(AssetKey(key.asset))
                } else {
                    None
                }
            } else {
                found
            },
    {
        resolve_asset_key(self.world.id, key, provider, found)
    }

    /// Number of upload replies still awaiting a resource-owned result.
    pub fn pending_asset_uploads(&self) -> (r: usize)
        requires
            assets_at(self.systems@) matches Some(a) && a.state.asset_queue@.len() + a.state.asset_pending@.len() <= usize::MAX,
        ensures
            r == assets_at(self.systems@)->0.state.asset_queue@.len() + assets_at(self.systems@)->0.state.asset_pending@.len(),
    {
        let i = self.locate(SystemId("ipp.asset-dependencies")).unwrap();
        match &self.systems[i].system {
            SystemBox::AssetDependencies(a) => a.state.pending_asset_uploads(),
            _ => 0,
        }
    }
}

proof fn lemma_located_at(systems: Seq<SystemInstance>, id: SystemId, i: int)
    requires
        0 <= i < systems.len(),
        systems[i].id.same(id),
        forall|j: int| 0 <= j < i ==> !systems[j].id.same(id),
    ensures
        located(systems, id) == Some(i),
    decreases i,
{
    if i > 0 {
        lemma_located_at(systems.drop_first(), id, i - 1);
    }
}

/// Replacing one instance by another of the same identity keeps every lookup.
proof fn lemma_located_same(a: Seq<SystemInstance>, b: Seq<SystemInstance>, id: SystemId, i: int)
    requires
        a.len() == b.len(),
        0 <= i < a.len(),
        located(a, id) == Some(i),
        b[i].id == a[i].id,
        forall|j: int| 0 <= j < a.len() && j != i ==> b[j] == a[j],
    ensures
        located(b, id) == Some(i),
{
    lemma_located(a, id);
    lemma_located_at(b, id, i);
}

} // verus!
