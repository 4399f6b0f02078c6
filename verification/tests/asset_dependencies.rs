use lib::ids::{EntityId, ErrorReason, WorldId};
use lib::systems::asset_dependencies::{
    cached_source_key, resolve_asset_key, same_source_exec, source_key_from_fields, upload_uri, AssetDemandSelection, AssetDependencyAccess,
    AssetDependencyReadAccess, AssetDependencySystem, AssetDependencySystemFactory, AssetDependencySystemState,
    AssetKey, AssetSource, AssetTypeId, AssetUpload, AssetUploadIdentity, UploadStatus,
};
use lib::systems::SystemDependency;
use lib::world::{BOUNDING_GEOMETRY, CAMERA, MESH_INSTANCE};

const MESH: AssetTypeId = AssetTypeId(1);
const GEOMETRY: AssetTypeId = AssetTypeId(2);

fn selection(source: &str, variant: u32) -> AssetDemandSelection {
    AssetDemandSelection::new(MESH, source, variant)
}

fn has_source(list: &[AssetDemandSelection], source: &str, variant: u32) -> bool {
    list.iter().any(|s| s.same(&selection(source, variant)))
}

fn upload(id: u64, asset: u64) -> AssetUpload {
    AssetUpload { id, key: AssetUploadIdentity { kind: MESH, asset, variant: 0 }, bytes: vec![id as u8] }
}

/// A Host registry stand-in: registered sources and their keys.
struct Registry {
    sources: Vec<(AssetKey, AssetSource)>,
}

impl Registry {
    fn register(&mut self, key: u64, kind: AssetTypeId, uri: &str, variant: u32) -> AssetKey {
        self.sources.push((AssetKey(key), AssetSource { kind, uri: uri.to_string(), variant }));
        AssetKey(key)
    }

    fn get(&self, key: Option<AssetKey>) -> Option<&AssetSource> {
        let key = key?;
        self.sources.iter().find(|(k, _)| *k == key).map(|(_, s)| s)
    }

    /// Lookup of the world-scoped selection: `asset://PATH` is this world's
    /// `producer://WORLD/PATH`; other text is looked up as written.
    fn find(&self, world: WorldId, kind: AssetTypeId, source: &str, variant: u32) -> Option<AssetKey> {
        let scoped = match source.strip_prefix("asset://") {
            Some(path) => format!("producer://{}/{}", world.0, path),
            None => source.to_string(),
        };
        self.sources
            .iter()
            .find(|(_, s)| s.kind == kind && s.variant == variant && s.uri == scoped)
            .map(|(k, _)| *k)
    }

    fn resolve(
        &self,
        world: WorldId,
        previous: Option<AssetKey>,
        kind: AssetTypeId,
        source: &str,
        variant: u32,
    ) -> Option<AssetKey> {
        source_key_from_fields(
            world,
            previous,
            self.get(previous),
            kind,
            source,
            variant,
            self.find(world, kind, source, variant),
        )
    }
}

fn resolver<'a>(
    registry: &'a Registry,
    world: WorldId,
    kind: AssetTypeId,
    source: &'a str,
    variant: u32,
) -> impl Fn(Option<AssetKey>) -> Option<AssetKey> + 'a {
    move |previous| registry.resolve(world, previous, kind, source, variant)
}

#[test]
fn resolved_asset_cache_preserves_exact_producer_namespace() {
    let world = WorldId(4);
    let mut registry = Registry { sources: Vec::new() };
    let path = "1/7";
    let canonical = registry.register(10, MESH, &format!("producer://{}/{path}", world.0), 0);
    let foreign = registry.register(11, MESH, &format!("producer://{}/{path}", world.0 + 1), 0);
    for previous in [None, Some(canonical), Some(foreign)] {
        assert_eq!(registry.resolve(world, previous, MESH, "asset://1/7", 0), Some(canonical));
    }
    assert_eq!(registry.resolve(world, Some(canonical), MESH, "asset://1/70", 0), None);
}

#[test]
fn resolved_asset_cache_checks_source_type_variant_entity_and_slot_generation() {
    let world = WorldId(1);
    let mut registry = Registry { sources: Vec::new() };
    let uri = "archive!/mesh?name=opaque text";
    let first = registry.register(100, MESH, uri, 0);
    let other = registry.register(101, MESH, uri, 1);
    let entity = EntityId::new(3, 1);
    let replacement_entity = EntityId::new(3, 2);
    let mut cache: Vec<Option<(EntityId, AssetKey)>> = Vec::new();
    {
        let r = &registry;
        assert_eq!(cached_source_key(&mut cache, entity, resolver(r, world, MESH, uri, 0)), Some(first));
        assert_eq!(cached_source_key(&mut cache, entity, resolver(r, world, MESH, uri, 0)), Some(first));
        assert_eq!(cache[3], Some((entity, first)));
        assert_eq!(cached_source_key(&mut cache, replacement_entity, resolver(r, world, MESH, uri, 0)), Some(first));
        assert_eq!(cache[3], Some((replacement_entity, first)));
        assert_eq!(cached_source_key(&mut cache, replacement_entity, resolver(r, world, MESH, uri, 1)), Some(other));
        assert_eq!(cached_source_key(&mut cache, replacement_entity, resolver(r, world, GEOMETRY, uri, 1)), None);
        assert_eq!(cache[3], None);
    }

    // The Host frees `first` and a new registration of the same source takes
    // its slot under a new generation.
    registry.sources.retain(|(k, _)| *k != first);
    let replacement = registry.register(200, MESH, uri, 0);
    assert_ne!(first, replacement);
    let r = &registry;
    assert_eq!(cached_source_key(&mut cache, entity, resolver(r, world, MESH, uri, 0)), Some(replacement));
    assert_eq!(cache[3], Some((entity, replacement)));
    assert_eq!(cached_source_key(&mut cache, entity, resolver(r, world, MESH, "archive!/changed", 0)), None);
    assert_eq!(cache[3], None);
}

#[test]
fn local_asset_references_match_only_this_worlds_canonical_producer_uri() {
    assert!(same_source_exec("asset://1/7", "producer://4/1/7", 4));
    assert!(!same_source_exec("asset://1/7", "producer://5/1/7", 4));
    assert!(!same_source_exec("asset://1/7", "producer://04/1/7", 4));
    assert!(!same_source_exec("asset://1/7", "producer://4/1/70", 4));
    assert!(!same_source_exec("asset://1/7", "asset://1/7", 4));
    assert!(same_source_exec("producer://0/x", "producer://0/x", 9));
    assert!(same_source_exec("archive!/a", "archive!/a", 4));
    assert!(!same_source_exec("archive!/a", "archive!/b", 4));
    assert!(same_source_exec("asset://p", "producer://0/p", 0));
    assert!(same_source_exec("asset://", "producer://18446744073709551615/", u64::MAX));
}

#[test]
fn selections_compare_and_copy_by_type_source_and_variant() {
    let a = selection("asset://1/2", 0);
    assert!(a.same(&a.duplicate()));
    assert!(!a.same(&selection("asset://1/2", 1)));
    assert!(!a.same(&AssetDemandSelection::new(GEOMETRY, "asset://1/2", 0)));
    assert!(!a.same(&selection("asset://1/3", 0)));
}

#[test]
fn component_demand_counts_users_and_marks_changes() {
    let mut state = AssetDependencySystemState::new();
    let e1 = (EntityId::new(1, 0), MESH_INSTANCE);
    let e2 = (EntityId::new(2, 0), MESH_INSTANCE);
    state.replace_component_sources(e1, vec![selection("a", 0), selection("b", 0)]);
    state.replace_component_sources(e2, vec![selection("a", 0)]);
    let demand = state.authored_demand();
    assert_eq!(demand.len(), 2);
    assert!(has_source(&demand, "a", 0) && has_source(&demand, "b", 0));

    // Retained while any component still demands it.
    state.replace_component_sources(e1, Vec::new());
    let demand = state.authored_demand();
    assert_eq!(demand.len(), 1);
    assert!(has_source(&demand, "a", 0));

    let deltas = state.take_source_deltas();
    assert!(deltas.iter().any(|(s, retained)| s.same(&selection("a", 0)) && *retained));
    assert!(deltas.iter().any(|(s, retained)| s.same(&selection("b", 0)) && !*retained));
    assert!(state.take_source_deltas().is_empty());

    state.clear_authored_demand();
    assert!(state.authored_demand().is_empty());
}

#[test]
fn equal_demand_changes_nothing() {
    let mut state = AssetDependencySystemState::new();
    let key = (EntityId::new(1, 0), MESH_INSTANCE);
    state.replace_component_sources(key, vec![selection("a", 0)]);
    let _ = state.take_source_deltas();
    state.replace_component_sources(key, vec![selection("a", 0)]);
    assert!(state.take_source_deltas().is_empty());
    assert_eq!(state.authored_demand().len(), 1);
}

#[test]
fn update_authored_demand_returns_every_named_source() {
    let mut state = AssetDependencySystemState::new();
    let named = state.update_authored_demand(vec![
        ((EntityId::new(1, 0), MESH_INSTANCE), vec![selection("a", 0)]),
        ((EntityId::new(2, 0), CAMERA), vec![selection("b", 1), selection("a", 0)]),
    ]);
    assert!(has_source(&named, "a", 0) && has_source(&named, "b", 1));
    assert_eq!(state.authored_demand().len(), 2);
}

#[test]
fn animation_sources_retain_and_report_entries_and_exits() {
    let mut state = AssetDependencySystemState::new();
    state.set_animation_sources(vec![selection("clip", 0)]);
    let deltas = state.take_source_deltas();
    assert_eq!(deltas.len(), 1);
    assert!(deltas[0].0.same(&selection("clip", 0)) && deltas[0].1);
    state.set_animation_sources(vec![selection("clip", 0)]);
    assert!(state.take_source_deltas().is_empty());
    state.set_animation_sources(Vec::new());
    let deltas = state.take_source_deltas();
    assert_eq!(deltas.len(), 1);
    assert!(!deltas[0].1);
}

#[test]
fn uploads_are_queued_in_order_and_settled_as_resources_report() {
    let mut state = AssetDependencySystemState::new();
    assert_eq!(state.enqueue_asset(upload(1, 5)), Ok(()));
    assert_eq!(state.enqueue_asset(upload(2, 6)), Ok(()));
    assert_eq!(state.enqueue_asset(upload(3, 1 << 63)), Err(ErrorReason::InvalidAsset));
    assert_eq!(state.pending_asset_uploads(), 2);
    state.accept_asset_uploads(vec![Ok(AssetKey(50)), Err("refused".to_string())]);
    assert_eq!(state.asset_pending.len(), 2);
    assert_eq!((state.asset_pending[0].request_id, state.asset_pending[1].request_id), (1, 2));
    assert!(state.asset_queue.is_empty());
    assert_eq!(state.pending_asset_uploads(), 2);

    // The loaded resource is still loading; the refusal settles at once.
    let outcomes = state.take_asset_outcomes(vec![UploadStatus::Loading, UploadStatus::<u32>::Loading], 9);
    assert_eq!(outcomes.len(), 1);
    assert_eq!(outcomes[0].id, 2);
    assert_eq!(outcomes[0].tick, 9);
    assert_eq!(outcomes[0].result, Err("refused".to_string()));

    // A pending release holds the receipt; a release reports it.
    let outcomes = state.take_asset_outcomes(vec![UploadStatus::<u32>::PendingRelease], 10);
    assert!(outcomes.is_empty());
    let outcomes = state.take_asset_outcomes(vec![UploadStatus::<u32>::Released], 11);
    assert_eq!(outcomes.len(), 1);
    assert_eq!(outcomes[0].result, Err("Asset was released".to_string()));
    assert_eq!(state.pending_asset_uploads(), 0);
}

#[test]
fn failed_and_loaded_resources_report_their_results() {
    let mut state = AssetDependencySystemState::new();
    state.enqueue_asset(upload(1, 1)).unwrap();
    state.enqueue_asset(upload(2, 1)).unwrap();
    state.accept_asset_uploads(vec![Ok(AssetKey(1)), Ok(AssetKey(2))]);
    let outcomes = state.take_asset_outcomes(vec![UploadStatus::Failed("bad".to_string()), UploadStatus::Loaded(7u8)], 3);
    assert_eq!(outcomes.len(), 2);
    assert_eq!(outcomes[0].result, Err("bad".to_string()));
    assert_eq!(outcomes[1].result, Ok(7));
}

#[test]
fn mesh_component_commits_invalidate_evaluation_meshes() {
    let mut system = AssetDependencySystem::new();
    system.state.evaluation_meshes_initialized = true;
    system.after_commit(&[(EntityId::new(1, 0), CAMERA)]);
    assert!(system.state.evaluation_meshes_initialized);
    system.after_commit(&[(EntityId::new(1, 0), CAMERA), (EntityId::new(2, 0), BOUNDING_GEOMETRY)]);
    assert!(!system.state.evaluation_meshes_initialized);

    system.state.enqueue_asset(upload(1, 1)).unwrap();
    system.teardown();
    assert_eq!(system.state.pending_asset_uploads(), 0);
}

#[test]
fn factory_and_access_views() {
    let factory = AssetDependencySystemFactory;
    assert_eq!(factory.id().0, "ipp.asset-dependencies");
    assert!(matches!(factory.dependencies()[0], SystemDependency::After(lib::ids::SystemId("ipp.constraints"))));
    let mut system = factory.create();
    {
        let mut access = AssetDependencyAccess { world: WorldId(2), tick: 12, state: &mut system.state };
        assert_eq!(access.enqueue_asset(upload(8, 2)), Ok(()));
        assert_eq!(access.enqueue_asset(upload(9, u64::MAX)), Err(ErrorReason::InvalidAsset));
        assert!(access.take_asset_outcomes::<u8>(Vec::new()).is_empty());
    }
    {
        let read = AssetDependencyReadAccess { state: &system.state };
        assert_eq!(read.pending_asset_uploads(), 1);
    }
    {
        let mut access = AssetDependencyAccess { world: WorldId(2), tick: 12, state: &mut system.state };
        access.accept_asset_uploads(vec![Ok(AssetKey(3))]);
    }
    {
        let read = AssetDependencyReadAccess { state: &system.state };
        assert_eq!(read.pending_asset_uploads(), 1);
    }
    let mut access = AssetDependencyAccess { world: WorldId(2), tick: 13, state: &mut system.state };
    let outcomes = access.take_asset_outcomes(vec![UploadStatus::Loaded(1u8)]);
    assert_eq!(outcomes[0].tick, 13);
}

#[test]
fn upload_uris_name_the_world_type_and_asset_in_decimal() {
    let key = AssetUploadIdentity { kind: AssetTypeId(10), asset: 7, variant: 0 };
    assert_eq!(upload_uri(WorldId(0), key), b"producer://0/10/7".to_vec());
    let big = AssetUploadIdentity { kind: AssetTypeId(u32::MAX), asset: u64::MAX, variant: 0 };
    assert_eq!(
        String::from_utf8(upload_uri(WorldId(1234567890123), big)).unwrap(),
        "producer://1234567890123/4294967295/18446744073709551615"
    );
}

#[test]
fn an_upload_is_released_only_without_remaining_demand() {
    let key = AssetUploadIdentity { kind: MESH, asset: 7, variant: 0 };
    let mut state = AssetDependencySystemState::new();
    state.replace_component_sources((EntityId::new(1, 0), MESH_INSTANCE), vec![selection("asset://1/7", 0)]);
    {
        let mut access = AssetDependencyAccess { world: WorldId(3), tick: 0, state: &mut state };
        // `asset://1/7` is world 3's `producer://3/1/7`.
        assert!(!access.release_asset_upload(key));
        assert!(access.release_asset_upload(AssetUploadIdentity { variant: 1, ..key }));
        assert!(access.release_asset_upload(AssetUploadIdentity { asset: 70, ..key }));
    }
    {
        let mut other_world = AssetDependencyAccess { world: WorldId(4), tick: 0, state: &mut state };
        assert!(!other_world.release_asset_upload(key));
    }
    state.replace_component_sources((EntityId::new(1, 0), MESH_INSTANCE), vec![selection("producer://3/1/7", 0)]);
    let mut access = AssetDependencyAccess { world: WorldId(3), tick: 0, state: &mut state };
    assert!(!access.release_asset_upload(key));
    let mut elsewhere = AssetDependencyAccess { world: WorldId(5), tick: 0, state: &mut state };
    assert!(elsewhere.release_asset_upload(key));
}

#[test]
fn host_resource_numbers_resolve_through_their_registered_source() {
    let world = WorldId(3);
    let source = AssetSource { kind: MESH, uri: "archive!/x".to_string(), variant: 2 };
    let host = AssetUploadIdentity { kind: MESH, asset: (1 << 63) | 5, variant: 2 };
    assert_eq!(resolve_asset_key(world, host, Some(&source), Some(AssetKey(1))), Some(AssetKey((1 << 63) | 5)));
    assert_eq!(resolve_asset_key(world, AssetUploadIdentity { variant: 1, ..host }, Some(&source), None), None);
    assert_eq!(resolve_asset_key(world, host, None, Some(AssetKey(1))), None);
    let local = AssetUploadIdentity { kind: MESH, asset: 5, variant: 2 };
    assert_eq!(resolve_asset_key(world, local, Some(&source), Some(AssetKey(8))), Some(AssetKey(8)));
    assert_eq!(resolve_asset_key(world, local, Some(&source), None), None);
}

#[test]
fn owed_uploads_are_accepted_less_returned() {
    let mut state = AssetDependencySystemState::new();
    let mut accepted = 0usize;
    let mut returned = 0usize;
    for (id, asset) in [(1u64, 5u64), (2, 1 << 63), (3, 7)] {
        if state.enqueue_asset(upload(id, asset)).is_ok() {
            accepted += 1;
        }
    }
    state.accept_asset_uploads(vec![Err("refused".to_string()), Ok(AssetKey(9))]);
    let outcomes = state.take_asset_outcomes(vec![UploadStatus::<u32>::Loading, UploadStatus::Loading], 4);
    assert!(outcomes.iter().all(|o| o.id != 3));
    returned += outcomes.len();
    assert_eq!(state.pending_asset_uploads(), accepted - returned);
    // An upload only queued yields no outcome.
    assert_eq!(state.enqueue_asset(upload(4, 8)), Ok(()));
    accepted += 1;
    let outcomes = state.take_asset_outcomes(vec![UploadStatus::Loaded(1u32)], 5);
    assert!(outcomes.iter().all(|o| o.id != 4));
    returned += outcomes.len();
    assert_eq!((accepted, returned), (3, 2));
    assert_eq!(state.pending_asset_uploads(), accepted - returned);
}
