//! World-owned multi-entity animation controllers: their identities, durable
//! descriptions and the versioned binary form of their persistent state.
//! Floating-point quantities are carried as their IEEE-754 bit patterns.

pub mod binary;
pub mod codec;
pub mod component_values;
pub mod decoder;
pub mod validation;
pub mod persistence;
pub mod remap;
pub mod demand;
pub mod save;
pub mod restore;
pub mod commands;
pub mod lifecycle;
pub mod restoration;
pub mod target_index;

use crate::ids::{EntityId, ErrorReason, SystemId};
use crate::systems::SystemDependency;
use crate::world::FieldValue;
use vstd::prelude::*;

verus! {

/// Absolute controller-count guard, independent of reservation hints.
pub const MAX_CONTROLLERS: usize = 16384;

/// World-local controller identity, never recycled during a World's lifetime.
#[derive(Clone, Copy, Debug, PartialEq, Eq, Structural, PartialOrd, Ord, Hash)]
pub struct AnimationControllerId {
    pub bits: u64,
}

impl AnimationControllerId {
    /// Recover a serialized identity. Zero is rejected by controller operations.
    pub fn from_bits(bits: u64) -> (r: Self)
        ensures
            r.bits == bits,
    {
        AnimationControllerId { bits }
    }

    /// Persistent world-local identity.
    pub fn to_bits(self) -> (r: u64)
        ensures
            r == self.bits,
    {
        self.bits
    }
}

/// Component-local property binding resolved against the player's target.
#[derive(Clone, Debug, PartialEq)]
pub struct AnimationProperty {
    /// Compiled target component identity.
    pub component: u16,
    /// One exact exposed field offset, or four xyzw offsets for a rotation.
    pub offsets: Vec<u32>,
}

/// Stable target within the player's target entity.
#[derive(Clone, Debug, PartialEq)]
pub enum AnimationTrackTarget {
    /// Named dynamic component property, resolved to its identity when bound.
    DynamicProperty { component: u16, name: String },
    /// Target-generated component field offsets.
    AnimationProperty(AnimationProperty),
}

impl AnimationTrackTarget {
    pub open spec fn spec_component(&self) -> u16 {
        match self {
            AnimationTrackTarget::DynamicProperty { component, .. } => *component,
            AnimationTrackTarget::AnimationProperty(p) => p.component,
        }
    }

    pub open spec fn spec_indices(&self) -> Seq<u32> {
        match self {
            AnimationTrackTarget::DynamicProperty { .. } => Seq::empty(),
            AnimationTrackTarget::AnimationProperty(p) => p.offsets@,
        }
    }

    /// Target component identity, independent of any World binding.
    pub fn component(&self) -> (r: u16)
        ensures
            r == self.spec_component(),
    {
        match self {
            AnimationTrackTarget::DynamicProperty { component, .. } => *component,
            AnimationTrackTarget::AnimationProperty(p) => p.component,
        }
    }

    /// The offset property, when the target is not a named dynamic property.
    pub fn property(&self) -> (r: Option<&AnimationProperty>)
        ensures
            match self {
                AnimationTrackTarget::DynamicProperty { .. } => r is None,
                AnimationTrackTarget::AnimationProperty(p) => r == Some(p),
            },
    {
        match self {
            AnimationTrackTarget::DynamicProperty { .. } => None,
            AnimationTrackTarget::AnimationProperty(p) => Some(p),
        }
    }

    /// Exact field offsets; a named dynamic property has none.
    pub fn indices(&self) -> (r: &[u32])
        ensures
            r@ == self.spec_indices(),
    {
        match self {
            AnimationTrackTarget::DynamicProperty { .. } => &[],
            AnimationTrackTarget::AnimationProperty(p) => p.offsets.as_slice(),
        }
    }
}

/// Curve applied to crossfade progress.
#[derive(Clone, Copy, Debug, PartialEq, Eq, Structural)]
pub enum AnimationTransitionEasing {
    /// Constant-rate crossfade.
    Linear,
    /// Cubic smoothstep with zero slope at both endpoints.
    Smoothstep,
}

/// Shared clock status of a controller.
#[derive(Clone, Copy, Debug, PartialEq, Eq, Structural)]
pub enum AnimationPlaybackStatus {
    /// No sampled contribution; local position is retained.
    Stopped,
    /// Advance when all source bindings are ready.
    Playing,
    /// Hold local time and sampled contribution.
    Paused,
    /// Hold the final sample of a nonlooping controller.
    Completed,
}

/// Observable transition emitted once per actual state or failure change.
#[derive(Clone, Copy, Debug, PartialEq, Eq, Structural)]
pub enum AnimationPlaybackEventKind {
    /// Entered playing state.
    Started,
    /// Entered paused state.
    Paused,
    /// Contribution withdrawn.
    Stopped,
    /// Nonlooping endpoint reached.
    Completed,
    /// A bound target or source lifetime ended.
    Invalidated,
    /// A sampled contribution could not activate.
    Failed,
}

/// Completion of an ordered controller command.
#[derive(Clone, Copy, Debug)]
pub struct AnimationControllerOutcome {
    /// Caller correlation value.
    pub request_id: u64,
    /// A fresh identity for Create; None for the other successful commands.
    pub result: Result<Option<AnimationControllerId>, ErrorReason>,
}

/// A dynamic property value; float lanes are IEEE-754 single bit patterns.
#[derive(Clone, Copy, Debug, PartialEq)]
pub enum DynamicValue {
    F32(u32),
    I32(i32),
    U32(u32),
    Bool(bool),
    Asset(u64),
    Vec2([u32; 2]),
    Vec3([u32; 3]),
    Vec4([u32; 4]),
    Mat2([u32; 4]),
    Mat3([u32; 9]),
    Mat4([u32; 16]),
}

/// A typed property value or complete xyzw rotation.
#[derive(Clone, Copy, Debug, PartialEq)]
pub enum AnimationValue {
    /// An ordinary exposed field.
    Field(FieldValue),
    /// A dynamic property field.
    Dynamic(DynamicValue),
    /// Complete quaternion, normalized during sampling.
    Rotation([u32; 4]),
}

/// Serializable binding of one immutable source track to one entity property.
#[derive(Clone, Debug, PartialEq)]
pub struct AnimationDriverDescription {
    /// Clip source URI.
    pub source: String,
    /// Immutable source variant.
    pub variant: u32,
    /// Stable track index in the clip.
    pub track: u32,
    /// Exact target entity generation.
    pub target: EntityId,
    /// Exact component property coverage.
    pub property: AnimationTrackTarget,
    /// Contribution weight in 0..=1 (single bits).
    pub weight: u32,
    /// Apply a sampled delta from the reference value.
    pub additive: bool,
    /// Reference time for an additive driver (single bits).
    pub reference_time: u32,
    /// Repeat this clip on the controller clock instead of holding its endpoint.
    pub repeat: bool,
}

/// Authored controller parameters. Drivers may span arbitrary entities and clips.
#[derive(Clone, Debug, PartialEq)]
pub struct AnimationControllerDescription {
    /// Ordered independent target bindings sampled at one shared time.
    pub drivers: Vec<AnimationDriverDescription>,
    /// Finite signed clock multiplier (single bits).
    pub speed: u32,
    /// Wrap at the longest selected clip's duration.
    pub looping: bool,
}

/// Compact observable state for an active controller transition.
#[derive(Clone, Copy, Debug, PartialEq, Eq, Structural)]
pub struct AnimationControllerTransitionState {
    /// Total crossfade duration in Host seconds (double bits).
    pub duration: u64,
    /// Host time accumulated while the transition was ready and playing (double bits).
    pub elapsed: u64,
    /// Crossfade progress curve.
    pub easing: AnimationTransitionEasing,
    /// Whether source readiness currently freezes both clocks and progress.
    pub pending: bool,
}

/// Readable and serializable controller state.
#[derive(Clone, Debug, PartialEq)]
pub struct AnimationControllerSnapshot {
    /// Persistent world-local identity.
    pub id: AnimationControllerId,
    /// Driver descriptions and clock settings.
    pub description: AnimationControllerDescription,
    /// Current controller status.
    pub state: AnimationPlaybackStatus,
    /// Local time (double bits).
    pub time: u64,
    /// Active crossfade state, when this controller is transitioning.
    pub transition: Option<AnimationControllerTransitionState>,
}

/// Initial local time selected for a transition destination.
#[derive(Clone, Copy, Debug, PartialEq, Eq, Structural)]
pub enum AnimationTransitionStartTime {
    /// Start at the endpoint selected by the destination speed direction.
    Restart,
    /// Preserve the outgoing controller's local time, clamped to the destination.
    Preserve,
    /// Preserve the outgoing controller's normalized phase.
    MatchPhase,
    /// Start at an exact destination local time (double bits).
    Seek(u64),
}

/// Public controller clock state.
#[derive(Clone, Copy, Debug, PartialEq, Eq, Structural)]
pub struct AnimationControllerState {
    /// Controller identity.
    pub id: AnimationControllerId,
    /// Current clock status.
    pub state: AnimationPlaybackStatus,
    /// Current local time (double bits).
    pub time: u64,
}

/// Runtime transition, separate from correlated command outcomes.
#[derive(Clone, Copy, Debug, PartialEq, Eq, Structural)]
pub struct AnimationPlaybackEvent {
    /// Controller and resulting state.
    pub controller: AnimationControllerState,
    /// Actual transition.
    pub kind: AnimationPlaybackEventKind,
    /// Failure or invalidation diagnostic.
    pub reason: Option<ErrorReason>,
}

/// Destination and timing policy for an interruptible controller crossfade.
#[derive(Clone, Debug, PartialEq)]
pub struct AnimationControllerTransition {
    /// Replacement controller description sampled as the incoming side.
    pub description: AnimationControllerDescription,
    /// Finite nonnegative crossfade duration in Host seconds (double bits).
    pub duration: u64,
    /// Crossfade progress curve.
    pub easing: AnimationTransitionEasing,
    /// Destination clock initialization policy.
    pub start_time: AnimationTransitionStartTime,
}

/// Sparse durable origin captured when a crossfade is interrupted.
#[derive(Clone, Debug, PartialEq)]
pub struct AnimationFrozenTransitionValue {
    /// Entity whose property was captured.
    pub target: EntityId,
    /// Property represented by this sparse value.
    pub property: AnimationTrackTarget,
    /// Frozen outgoing contribution at the interruption boundary.
    pub value: AnimationValue,
    /// Live producer value to restore or fade toward.
    pub baseline: AnimationValue,
}

/// Durable outgoing side of an active crossfade.
#[derive(Clone, Debug, PartialEq)]
pub enum AnimationPersistentTransitionSource {
    /// Independently advancing outgoing controller.
    Live(AnimationControllerSnapshot),
    /// Sparse composite captured from an interrupted transition.
    Frozen {
        values: Vec<AnimationFrozenTransitionValue>,
        bindings: AnimationControllerSnapshot,
        reference_time: u64,
        reference_duration: u64,
    },
}

/// Persistent crossfade state; the destination remains the ordinary controller snapshot.
#[derive(Clone, Debug, PartialEq)]
pub struct AnimationPersistentTransition {
    /// Controller identity shared with the destination snapshot.
    pub id: AnimationControllerId,
    /// Durable outgoing side.
    pub source: AnimationPersistentTransitionSource,
    /// Deferred destination clock policy.
    pub start_time: AnimationTransitionStartTime,
}

/// Complete persistent controller state, including deleted identity high-water.
#[derive(Clone, Debug, PartialEq)]
pub struct AnimationPersistentState {
    /// Next fresh identity; never less than any existing or previously used ID.
    pub next_id: u64,
    /// Controllers in identity order.
    pub controllers: Vec<AnimationControllerSnapshot>,
    /// Semantic state for active crossfades, keyed by controller identity.
    pub transitions: Vec<AnimationPersistentTransition>,
    /// Controllers awaiting a negative-speed directional start after clip readiness.
    pub directional_starts: Vec<AnimationControllerId>,
}

impl Default for AnimationPersistentState {
    /// A fresh World's state: no controllers, next identity one.
    fn default() -> (r: Self)
        ensures
            r.next_id == 1,
            r.controllers@.len() == 0,
            r.transitions@.len() == 0,
            r.directional_starts@.len() == 0,
    {
        AnimationPersistentState {
            next_id: 1,
            controllers: Vec::new(),
            transitions: Vec::new(),
            directional_starts: Vec::new(),
        }
    }
}

/// Reusable factory of animation systems; it retains no world state.
pub struct AnimationSystemFactory;

impl AnimationSystemFactory {
    /// Stable factory and instance identity.
    pub fn id(&self) -> (r: SystemId)
        ensures
            r.same(SystemId("ipp.animation")),
    {
        SystemId("ipp.animation")
    }

    /// Animation runs first: it declares no predecessor.
    pub fn dependencies(&self) -> (r: Vec<SystemDependency>)
        ensures
            r@.len() == 0,
    {
        Vec::new()
    }

    /// Initial capacity the world reserves for this system's controllers.
    pub fn capacity_hints(&self) -> (r: Vec<(&'static str, usize)>)
        ensures
            r@.len() == 1,
            r@[0].0@ == "controllers"@,
            r@[0].1 == 128,
    {
        vec![("controllers", 128)]
    }
}

} // verus!
