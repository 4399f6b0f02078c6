# World systems

Verified world systems of a scene runtime: scoped system contexts and
dependency bindings, asset demand and producer uploads, camera selection,
scalar constraints, entity-reference cleanup, and the persistent side of
animation controllers (their durable descriptions, the versioned binary form
of their state, saving and restoring a World's controllers, crossfade
commands, invalidation, target indexing, clip demand and component staging).

Every function carries a `requires`/`ensures` contract proved by Verus, except three
small wrappers of std (`String::from_utf8`, `String::capacity`, `Vec::capacity`)
whose contracts are trusted.
Floating-point quantities are carried as IEEE-754 bit patterns.

Layout:

- `src/ids.rs`, `src/world.rs`, `src/keyed.rs`, `src/context.rs`: identities,
  the entity/component model and world-level access.
- `src/systems/`: one module per system; `src/systems/animation/` holds the
  persistence codec (`binary`, `codec`, `decoder`, `validation`,
  `persistence`), entity remapping (`remap`), saving (`save`), the controller
  registry and its restoration (`restore`), crossfades and removal (`commands`),
  invalidation (`lifecycle`), input restoration plans (`restoration`), the target index (`target_index`), clip demand
  (`demand`) and staged component values (`component_values`).
- `tests/`: executable scenarios for each module.
