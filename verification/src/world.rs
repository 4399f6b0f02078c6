//! World storage model shared by the systems: generational allocation,
//! authored entity records with component input incarnations, and the
//! effective component storage addressed by (component, slot index).

use crate::ids::{EntityId, ErrorReason, WorldId};
use vstd::prelude::*;

verus! {

/// Compiled component identities used by the world systems.
pub const TRANSFORM: u16 = 1;
pub const CAMERA: u16 = 2;
pub const SCALAR: u16 = 3;
pub const LINEAR_DRIVER: u16 = 4;
pub const MESH_INSTANCE: u16 = 5;
pub const BOUNDING_GEOMETRY: u16 = 6;
pub const PICKING_GEOMETRY: u16 = 7;
pub const SKELETON: u16 = 8;
pub const CUSTOM_MATERIAL: u16 = 9;

/// One exposed numeric or reference field; floats are carried as IEEE bits.
#[derive(Clone, Copy, Debug, PartialEq, Eq, Structural)]
pub enum FieldValue {
    F32(u32),
    U32(u32),
    U64(u64),
    Bool(bool),
    Entity(EntityId),
}

/// Typed component value: its registry identity and its fields by offset.
#[derive(Debug)]
pub struct ComponentValue {
    pub type_id: u16,
    pub fields: Vec<(u32, FieldValue)>,
}

impl ComponentValue {
    /// Components whose properties are addressed by name rather than offset.
    pub open spec fn spec_supports_dynamic_properties(component: u16) -> bool {
        component == CUSTOM_MATERIAL
    }

    /// Whether a component carries named dynamic properties.
    pub fn supports_dynamic_properties(component: u16) -> (r: bool)
        ensures
            r == Self::spec_supports_dynamic_properties(component),
    {
        component == CUSTOM_MATERIAL
    }

    /// Registry identity of this component.
    pub fn type_id(&self) -> (r: u16)
        ensures
            r == self.type_id,
    {
        self.type_id
    }

    /// Field-for-field copy.
    pub fn duplicate(&self) -> (r: ComponentValue)
        ensures
            r.type_id == self.type_id,
            r.fields@ == self.fields@,
    {
        let mut fields: Vec<(u32, FieldValue)> = Vec::new();
        let mut i: usize = 0;
        while i < self.fields.len()
            invariant
                i <= self.fields@.len(),
                fields@ == self.fields@.subrange(0, i as int),
            decreases self.fields@.len() - i,
        {
            fields.push(self.fields[i]);
            i = i + 1;
            assert(fields@ =~= self.fields@.subrange(0, i as int));
        }
        assert(fields@ =~= self.fields@);
        ComponentValue { type_id: self.type_id, fields }
    }

    /// Value of the first field stored at an offset.
    pub open spec fn spec_field(self, offset: u32) -> Option<FieldValue> {
        first_field(self.fields@, offset)
    }

    /// Read one field by offset.
    pub fn field(&self, offset: u32) -> (r: Option<FieldValue>)
        ensures
            r == self.spec_field(offset),
    {
        let mut i: usize = 0;
        assert(self.fields@.subrange(0, self.fields@.len() as int) =~= self.fields@);
        while i < self.fields.len()
            invariant
                i <= self.fields@.len(),
                first_field(self.fields@, offset) == first_field(
                    self.fields@.subrange(i as int, self.fields@.len() as int),
                    offset,
                ),
            decreases self.fields@.len() - i,
        {
            let ghost s = self.fields@.subrange(i as int, self.fields@.len() as int);
            if self.fields[i].0 == offset {
                return Some(self.fields[i].1);
            }
            assert(s.drop_first() =~= self.fields@.subrange(i + 1, self.fields@.len() as int));
            i = i + 1;
        }
        assert(self.fields@.subrange(i as int, self.fields@.len() as int) =~= Seq::<(u32, FieldValue)>::empty());
        None
    }

    /// Replace the first field stored at an offset, or append it.
    pub fn set_field(&mut self, offset: u32, value: FieldValue)
        ensures
            final(self).type_id == old(self).type_id,
            final(self).spec_field(offset) == Some(value),
            forall|o: u32| o != offset ==> final(self).spec_field(o) == old(self).spec_field(o),
    {
        let mut i: usize = 0;
        while i < self.fields.len()
            invariant
                i <= self.fields@.len(),
                self.fields@ == old(self).fields@,
                self.type_id == old(self).type_id,
                forall|j: int| 0 <= j < i ==> self.fields@[j].0 != offset,
            decreases self.fields@.len() - i,
        {
            if self.fields[i].0 == offset {
                let ghost before = self.fields@;
                self.fields.set(i, (offset, value));
                proof {
                    lemma_first_field_update(before, i as int, offset, value);
                }
                return;
            }
            i = i + 1;
        }
        let ghost before = self.fields@;
        self.fields.push((offset, value));
        proof {
            lemma_first_field_push(before, offset, value);
        }
    }
}

proof fn lemma_first_field_update(fields: Seq<(u32, FieldValue)>, i: int, offset: u32, value: FieldValue)
    requires
        0 <= i < fields.len(),
        fields[i].0 == offset,
        forall|j: int| 0 <= j < i ==> fields[j].0 != offset,
    ensures
        first_field(fields.update(i, (offset, value)), offset) == Some(value),
        forall|o: u32| o != offset ==> first_field(fields.update(i, (offset, value)), o) == first_field(fields, o),
    decreases i,
{
    let updated = fields.update(i, (offset, value));
    if i > 0 {
        lemma_first_field_update(fields.drop_first(), i - 1, offset, value);
        assert(updated.drop_first() =~= fields.drop_first().update(i - 1, (offset, value)));
        assert forall|o: u32| o != offset implies first_field(updated, o) == first_field(fields, o) by {
            assert(updated[0] == fields[0]);
            if fields[0].0 != o {
                assert(first_field(updated.drop_first(), o) == first_field(fields.drop_first(), o));
            }
        }
    } else {
        assert(updated.drop_first() =~= fields.drop_first());
        assert forall|o: u32| o != offset implies first_field(updated, o) == first_field(fields, o) by {
            assert(updated[0].0 == offset);
            assert(fields[0].0 == offset);
        }
    }
}

proof fn lemma_first_field_push(fields: Seq<(u32, FieldValue)>, offset: u32, value: FieldValue)
    requires
        forall|j: int| 0 <= j < fields.len() ==> fields[j].0 != offset,
    ensures
        first_field(fields.push((offset, value)), offset) == Some(value),
        forall|o: u32| o != offset ==> first_field(fields.push((offset, value)), o) == first_field(fields, o),
    decreases fields.len(),
{
    let pushed = fields.push((offset, value));
    if fields.len() > 0 {
        lemma_first_field_push(fields.drop_first(), offset, value);
        assert(pushed.drop_first() =~= fields.drop_first().push((offset, value)));
        assert forall|o: u32| o != offset implies first_field(pushed, o) == first_field(fields, o) by {
            assert(pushed[0] == fields[0]);
            if fields[0].0 != o {
                assert(first_field(pushed.drop_first(), o) == first_field(fields.drop_first(), o));
            }
        }
    } else {
        assert forall|o: u32| o != offset implies first_field(pushed, o) == first_field(fields, o) by {
            assert(pushed.drop_first() =~= Seq::<(u32, FieldValue)>::empty());
            assert(pushed[0].0 == offset);
            assert(first_field(pushed.drop_first(), o) == None::<FieldValue>);
        }
    }
}

/// First value stored at an offset in a field list.
pub open spec fn first_field(fields: Seq<(u32, FieldValue)>, offset: u32) -> Option<FieldValue>
    decreases fields.len(),
{
    if fields.len() == 0 {
        None
    } else if fields[0].0 == offset {
        Some(fields[0].1)
    } else {
        first_field(fields.drop_first(), offset)
    }
}

/// Generational slot allocator: each slot records its live generation, if any.
pub struct EntityAllocator {
    pub generations: Vec<Option<u32>>,
}

impl EntityAllocator {
    pub open spec fn live(self, entity: EntityId) -> bool {
        &&& entity.spec_index() < self.generations@.len()
        &&& self.generations@[entity.spec_index() as int] == Some(entity.spec_generation() as u32)
    }

    /// Whether the exact generation currently occupies its slot.
    pub fn contains(&self, entity: EntityId) -> (r: bool)
        ensures
            r == self.live(entity),
    {
        let index = entity.index() as usize;
        if index >= self.generations.len() {
            return false;
        }
        match self.generations[index] {
            Some(generation) => generation == entity.generation(),
            None => false,
        }
    }
}

/// Authored input of one component layer; the incarnation changes whenever
/// the input is replaced.
#[derive(Debug)]
pub struct ComponentInput {
    pub incarnation: u64,
    pub value: ComponentValue,
}

/// One authored component of an entity.
#[derive(Debug)]
pub struct ComponentLayer {
    pub component: u16,
    pub input: Option<ComponentInput>,
}

/// Normalized entity metadata.
#[derive(Clone, Copy, Debug, PartialEq, Eq, Structural)]
pub struct EntityMetadata {
    pub active: bool,
    pub layer: u32,
}

/// Authored record of one entity.
#[derive(Debug)]
pub struct EntityRecord {
    pub id: EntityId,
    pub metadata: EntityMetadata,
    pub layers: Vec<ComponentLayer>,
}

/// Index of the first layer of a component.
pub open spec fn layer_index(layers: Seq<ComponentLayer>, component: u16) -> Option<int>
    decreases layers.len(),
{
    if layers.len() == 0 {
        None
    } else if layers.last().component == component {
        match layer_index(layers.drop_last(), component) {
            Some(i) => Some(i),
            None => Some(layers.len() - 1),
        }
    } else {
        layer_index(layers.drop_last(), component)
    }
}

pub proof fn lemma_layer_index(layers: Seq<ComponentLayer>, component: u16)
    ensures
        layer_index(layers, component) matches Some(i) ==> 0 <= i < layers.len()
            && layers[i].component == component
            && forall|j: int| 0 <= j < i ==> layers[j].component != component,
        layer_index(layers, component) is None ==> forall|j: int|
            0 <= j < layers.len() ==> layers[j].component != component,
    decreases layers.len(),
{
    if layers.len() > 0 {
        let rest = layers.drop_last();
        lemma_layer_index(rest, component);
        assert(forall|j: int| 0 <= j < rest.len() ==> rest[j] == layers[j]);
    }
}

/// Authored input value of a component of an optional record.
pub open spec fn input_value_of(record: Option<EntityRecord>, component: u16) -> Option<ComponentValue> {
    match record {
        Some(r) => r.spec_input_value(component),
        None => None,
    }
}

/// Field of an optional component value.
pub open spec fn field_of(value: Option<ComponentValue>, offset: u32) -> Option<FieldValue> {
    match value {
        Some(v) => v.spec_field(offset),
        None => None,
    }
}

/// Layer lists with identical component sequences locate every component identically.
pub proof fn lemma_layer_index_same_components(a: Seq<ComponentLayer>, b: Seq<ComponentLayer>, component: u16)
    requires
        a.len() == b.len(),
        forall|i: int| 0 <= i < a.len() ==> a[i].component == b[i].component,
    ensures
        layer_index(a, component) == layer_index(b, component),
    decreases a.len(),
{
    if a.len() > 0 {
        lemma_layer_index_same_components(a.drop_last(), b.drop_last(), component);
    }
}

impl EntityRecord {
    /// Incarnation of the authored input of a component, if present.
    pub open spec fn spec_input(self, component: u16) -> Option<u64> {
        match layer_index(self.layers@, component) {
            Some(i) => match self.layers@[i].input {
                Some(input) => Some(input.incarnation),
                None => None,
            },
            None => None,
        }
    }

    /// Authored input value of a component, if present.
    pub open spec fn spec_input_value(self, component: u16) -> Option<ComponentValue> {
        match layer_index(self.layers@, component) {
            Some(i) => match self.layers@[i].input {
                Some(input) => Some(input.value),
                None => None,
            },
            None => None,
        }
    }

    fn find_layer(&self, component: u16) -> (r: Option<usize>)
        ensures
            r matches Some(i) ==> layer_index(self.layers@, component) == Some(i as int),
            r is None ==> layer_index(self.layers@, component) is None,
    {
        proof {
            lemma_layer_index(self.layers@, component);
        }
        let mut i: usize = 0;
        while i < self.layers.len()
            invariant
                i <= self.layers@.len(),
                forall|j: int| 0 <= j < i ==> self.layers@[j].component != component,
                layer_index(self.layers@, component) matches Some(k) ==> 0 <= k < self.layers@.len()
                    && self.layers@[k].component == component
                    && forall|j: int| 0 <= j < k ==> self.layers@[j].component != component,
                layer_index(self.layers@, component) is None ==> forall|j: int|
                    0 <= j < self.layers@.len() ==> self.layers@[j].component != component,
            decreases self.layers@.len() - i,
        {
            if self.layers[i].component == component {
                return Some(i);
            }
            i = i + 1;
        }
        None
    }

    /// Overwrite one field of this record's authored input of a component.
    pub fn write_input_field(&mut self, component: u16, field: FieldWrite) -> (r: bool)
        ensures
            final(self).id == old(self).id,
            final(self).metadata == old(self).metadata,
            forall|c: u16| #[trigger] final(self).spec_input(c) == old(self).spec_input(c),
            r == old(self).spec_input_value(component) is Some,
            r ==> field_of(final(self).spec_input_value(component), field.offset) == Some(field.value),
            !r ==> final(self).spec_input_value(component) is None,
            forall|c: u16|
                c != component ==> #[trigger] final(self).spec_input_value(c) == old(self).spec_input_value(c),
            forall|o: u32|
                o != field.offset ==> #[trigger] field_of(final(self).spec_input_value(component), o)
                    == field_of(old(self).spec_input_value(component), o),
    {
        proof {
            lemma_layer_index(self.layers@, component);
        }
        let j = match self.find_layer(component) {
            Some(j) => j,
            None => return false,
        };
        let ghost old_layers = self.layers@;
        let mut layer = self.layers.remove(j);
        let r = match layer.input {
            Some(mut input) => {
                input.value.set_field(field.offset, field.value);
                layer.input = Some(input);
                true
            },
            None => {
                layer.input = None;
                false
            },
        };
        self.layers.insert(j, layer);
        proof {
            let new_layers = self.layers@;
            assert(new_layers =~= old_layers.update(j as int, layer));
            assert forall|c: u16| #[trigger] layer_index(new_layers, c) == layer_index(old_layers, c) by {
                lemma_layer_index_same_components(new_layers, old_layers, c);
            }
            assert forall|c: u16| #[trigger] self.spec_input(c) == old(self).spec_input(c) by {
                lemma_layer_index(old_layers, c);
            }
            assert forall|c: u16| c != component implies #[trigger] self.spec_input_value(c)
                == old(self).spec_input_value(c) by {
                lemma_layer_index(old_layers, c);
            }
        }
        r
    }

    /// Incarnation of the authored input of a component.
    pub fn input(&self, component: u16) -> (r: Option<u64>)
        ensures
            r == self.spec_input(component),
    {
        proof {
            lemma_layer_index(self.layers@, component);
        }
        match self.find_layer(component) {
            Some(i) => match &self.layers[i].input {
                Some(input) => Some(input.incarnation),
                None => None,
            },
            None => None,
        }
    }

    /// Borrow the authored input value of a component.
    pub fn input_value(&self, component: u16) -> (r: Option<&ComponentValue>)
        ensures
            r matches Some(v) ==> self.spec_input_value(component) == Some(*v),
            r is None ==> self.spec_input_value(component) is None,
    {
        proof {
            lemma_layer_index(self.layers@, component);
        }
        match self.find_layer(component) {
            Some(i) => match &self.layers[i].input {
                Some(input) => Some(&input.value),
                None => None,
            },
            None => None,
        }
    }
}

/// Index of the first record of an entity.
pub open spec fn find_record(records: Seq<EntityRecord>, entity: EntityId) -> Option<int>
    decreases records.len(),
{
    if records.len() == 0 {
        None
    } else if records[0].id == entity {
        Some(0)
    } else {
        match find_record(records.drop_first(), entity) {
            Some(i) => Some(i + 1),
            None => None,
        }
    }
}

pub proof fn lemma_find_record(records: Seq<EntityRecord>, entity: EntityId)
    ensures
        find_record(records, entity) matches Some(i) ==> 0 <= i < records.len()
            && records[i].id == entity
            && forall|j: int| 0 <= j < i ==> records[j].id != entity,
        find_record(records, entity) is None ==> forall|j: int|
            0 <= j < records.len() ==> records[j].id != entity,
    decreases records.len(),
{
    if records.len() > 0 {
        lemma_find_record(records.drop_first(), entity);
        assert(forall|j: int| 0 < j < records.len() ==> records.drop_first()[j - 1] == records[j]);
    }
}

/// Records with identical identity sequences locate every entity at the same index.
pub proof fn lemma_find_record_same_ids(a: Seq<EntityRecord>, b: Seq<EntityRecord>, entity: EntityId)
    requires
        a.len() == b.len(),
        forall|i: int| 0 <= i < a.len() ==> a[i].id == b[i].id,
    ensures
        find_record(a, entity) == find_record(b, entity),
    decreases a.len(),
{
    if a.len() > 0 {
        lemma_find_record_same_ids(a.drop_first(), b.drop_first(), entity);
    }
}

/// Entity records in strictly ascending identity order.
pub open spec fn records_sorted(records: Seq<EntityRecord>) -> bool {
    forall|i: int, j: int| 0 <= i < j < records.len() ==> records[i].id.bits < records[j].id.bits
}

/// Authored entity records and their live allocation.
pub struct WorldEntityState {
    pub allocator: EntityAllocator,
    pub entities: Vec<EntityRecord>,
}

impl WorldEntityState {
    pub open spec fn wf(self) -> bool {
        records_sorted(self.entities@)
    }

    /// Position of an entity's record.
    pub open spec fn record_index(self, entity: EntityId) -> Option<int> {
        find_record(self.entities@, entity)
    }

    /// The record of an entity, if present.
    pub open spec fn record(self, entity: EntityId) -> Option<EntityRecord> {
        match self.record_index(entity) {
            Some(i) => Some(self.entities@[i]),
            None => None,
        }
    }

    pub open spec fn has(self, entity: EntityId) -> bool {
        self.record(entity) is Some
    }

    /// Incarnation of one authored component input.
    pub open spec fn spec_input(self, entity: EntityId, component: u16) -> Option<u64> {
        match self.record(entity) {
            Some(r) => r.spec_input(component),
            None => None,
        }
    }

    /// Index of an entity's record.
    pub fn position(&self, entity: EntityId) -> (r: Option<usize>)
        ensures
            r matches Some(i) ==> self.record_index(entity) == Some(i as int),
            r is None ==> self.record_index(entity) is None,
    {
        proof {
            lemma_find_record(self.entities@, entity);
        }
        let mut i: usize = 0;
        while i < self.entities.len()
            invariant
                i <= self.entities@.len(),
                forall|j: int| 0 <= j < i ==> self.entities@[j].id != entity,
                find_record(self.entities@, entity) matches Some(k) ==> 0 <= k < self.entities@.len()
                    && self.entities@[k].id == entity
                    && forall|j: int| 0 <= j < k ==> self.entities@[j].id != entity,
                find_record(self.entities@, entity) is None ==> forall|j: int|
                    0 <= j < self.entities@.len() ==> self.entities@[j].id != entity,
            decreases self.entities@.len() - i,
        {
            if self.entities[i].id == entity {
                return Some(i);
            }
            i = i + 1;
        }
        None
    }

    /// Locate an entity's record.
    pub fn get(&self, entity: EntityId) -> (r: Option<&EntityRecord>)
        ensures
            r matches Some(rec) ==> self.record(entity) == Some(*rec),
            r is None ==> self.record(entity) is None,
    {
        proof {
            lemma_find_record(self.entities@, entity);
        }
        let mut i: usize = 0;
        while i < self.entities.len()
            invariant
                i <= self.entities@.len(),
                forall|j: int| 0 <= j < i ==> self.entities@[j].id != entity,
                find_record(self.entities@, entity) matches Some(k) ==> 0 <= k < self.entities@.len()
                    && self.entities@[k].id == entity
                    && forall|j: int| 0 <= j < k ==> self.entities@[j].id != entity,
                find_record(self.entities@, entity) is None ==> forall|j: int|
                    0 <= j < self.entities@.len() ==> self.entities@[j].id != entity,
            decreases self.entities@.len() - i,
        {
            if self.entities[i].id == entity {
                return Some(&self.entities[i]);
            }
            i = i + 1;
        }
        None
    }

    /// Whether an entity has an authored record.
    pub fn contains_key(&self, entity: EntityId) -> (r: bool)
        ensures
            r == self.has(entity),
    {
        self.get(entity).is_some()
    }

    /// Authored input incarnation of an entity's component.
    pub fn input(&self, entity: EntityId, component: u16) -> (r: Option<u64>)
        ensures
            r == self.spec_input(entity, component),
    {
        match self.get(entity) {
            Some(record) => record.input(component),
            None => None,
        }
    }

    /// Overwrite one field of an entity's authored component input. Returns
    /// whether that input exists.
    pub fn write_input_field(&mut self, entity: EntityId, component: u16, field: FieldWrite) -> (r: bool)
        requires
            old(self).wf(),
        ensures
            final(self).wf(),
            final(self).allocator == old(self).allocator,
            final(self).entities@.len() == old(self).entities@.len(),
            forall|i: int| 0 <= i < old(self).entities@.len() ==> #[trigger] final(self).entities@[i].id
                == old(self).entities@[i].id,
            forall|e: EntityId, c: u16| #[trigger] final(self).spec_input(e, c) == old(self).spec_input(e, c),
            forall|e: EntityId| #[trigger] final(self).has(e) == old(self).has(e),
            r == (old(self).record(entity) matches Some(rec) && rec.spec_input_value(component) is Some),
            r ==> field_of(input_value_of(final(self).record(entity), component), field.offset) == Some(
                field.value,
            ),
            forall|e: EntityId, c: u16|
                !(e == entity && c == component) ==> #[trigger] input_value_of(final(self).record(e), c)
                    == input_value_of(old(self).record(e), c),
            forall|o: u32|
                o != field.offset ==> #[trigger] field_of(input_value_of(final(self).record(entity), component), o)
                    == field_of(input_value_of(old(self).record(entity), component), o),
    {
        let i = match self.position(entity) {
            Some(i) => i,
            None => return false,
        };
        proof {
            lemma_find_record(self.entities@, entity);
        }
        let ghost old_entities = self.entities@;
        assert(find_record(old_entities, entity) == Some(i as int));
        let mut record = self.entities.remove(i);
        let r = record.write_input_field(component, field);
        self.entities.insert(i, record);
        proof {
            let new_entities = self.entities@;
            assert(new_entities =~= old_entities.update(i as int, record));
            assert forall|e: EntityId| #[trigger] find_record(new_entities, e) == find_record(old_entities, e) by {
                lemma_find_record_same_ids(new_entities, old_entities, e);
            }
            assert(records_sorted(new_entities)) by {
                assert forall|a: int, b: int| 0 <= a < b < new_entities.len() implies
                    new_entities[a].id.bits < new_entities[b].id.bits by {
                    assert(new_entities[a].id == old_entities[a].id);
                    assert(new_entities[b].id == old_entities[b].id);
                }
            }
            assert forall|e: EntityId, c: u16| #[trigger] self.spec_input(e, c) == old(self).spec_input(e, c) by {
                assert(find_record(new_entities, e) == find_record(old_entities, e));
                lemma_find_record(old_entities, e);
            }
            assert(find_record(new_entities, entity) == Some(i as int));
            assert(self.record(entity) == Some(record));
            assert(old(self).record(entity) == Some(old_entities[i as int]));
            assert forall|e: EntityId| #[trigger] self.has(e) == old(self).has(e) by {
                assert(find_record(new_entities, e) == find_record(old_entities, e));
            }
            assert forall|e: EntityId, c: u16|
                !(e == entity && c == component) implies #[trigger] input_value_of(self.record(e), c)
                    == input_value_of(old(self).record(e), c) by {
                assert(find_record(new_entities, e) == find_record(old_entities, e));
                lemma_find_record(old_entities, e);
            }
        }
        r
    }

    /// Identities in stable ascending order.
    pub fn keys(&self) -> (r: Vec<EntityId>)
        ensures
            r@.len() == self.entities@.len(),
            forall|i: int| 0 <= i < r@.len() ==> r@[i] == self.entities@[i].id,
    {
        let mut out: Vec<EntityId> = Vec::new();
        let mut i: usize = 0;
        while i < self.entities.len()
            invariant
                i <= self.entities@.len(),
                out@.len() == i,
                forall|j: int| 0 <= j < i ==> out@[j] == self.entities@[j].id,
            decreases self.entities@.len() - i,
        {
            out.push(self.entities[i].id);
            i = i + 1;
        }
        out
    }
}

/// One occupied effective component slot.
#[derive(Debug)]
pub struct StoredComponent {
    pub index: usize,
    pub value: ComponentValue,
}

/// Effective component storage, addressed by slot index and component type.
pub struct ComponentStorage {
    pub slots: Vec<StoredComponent>,
}

impl ComponentStorage {
    /// Occupied slots are unique per (slot index, component type).
    pub open spec fn wf(self) -> bool {
        forall|i: int, j: int|
            0 <= i < j < self.slots@.len() ==> !(self.slots@[i].index == self.slots@[j].index
                && self.slots@[i].value.type_id == self.slots@[j].value.type_id)
    }

    /// Whether a component is stored for a slot.
    pub open spec fn occupied(self, component: u16, index: usize) -> bool {
        exists|i: int|
            0 <= i < self.slots@.len() && self.slots@[i].index == index
                && self.slots@[i].value.type_id == component
    }

    /// The stored value of a component for a slot.
    pub open spec fn value(self, component: u16, index: usize) -> ComponentValue
        recommends
            self.occupied(component, index),
    {
        self.slots@[choose|i: int|
            0 <= i < self.slots@.len() && self.slots@[i].index == index
                && self.slots@[i].value.type_id == component].value
    }

    /// Read a copy of one effective component.
    pub fn get(&self, component: u16, index: usize) -> (r: Option<ComponentValue>)
        requires
            self.wf(),
        ensures
            r is Some <==> self.occupied(component, index),
            r matches Some(v) ==> v.type_id == self.value(component, index).type_id
                && v.fields@ == self.value(component, index).fields@,
    {
        let mut i: usize = 0;
        while i < self.slots.len()
            invariant
                self.wf(),
                i <= self.slots@.len(),
                forall|j: int|
                    0 <= j < i ==> !(self.slots@[j].index == index && self.slots@[j].value.type_id
                        == component),
            decreases self.slots@.len() - i,
        {
            if self.slots[i].index == index && self.slots[i].value.type_id == component {
                proof {
                    let k = choose|k: int|
                        0 <= k < self.slots@.len() && self.slots@[k].index == index
                            && self.slots@[k].value.type_id == component;
                    assert(k == i);
                }
                return Some(self.slots[i].value.duplicate());
            }
            i = i + 1;
        }
        None
    }

    /// Append copies of every component stored for a slot, ascending by type.
    pub fn inspect(&self, index: usize, out: &mut Vec<ComponentValue>)
        requires
            self.wf(),
        ensures
            final(out)@.len() >= old(out)@.len(),
            forall|i: int| 0 <= i < old(out)@.len() ==> final(out)@[i] == old(out)@[i],
            forall|i: int|
                old(out)@.len() <= i < final(out)@.len() ==> self.occupied(
                    #[trigger] final(out)@[i].type_id,
                    index,
                ) && final(out)@[i].fields@ == self.value(final(out)@[i].type_id, index).fields@,
            forall|c: u16|
                self.occupied(c, index) ==> exists|i: int|
                    old(out)@.len() <= i < final(out)@.len() && #[trigger] final(out)@[i].type_id
                        == c,
            forall|i: int, j: int|
                old(out)@.len() <= i < j < final(out)@.len() ==> final(out)@[i].type_id
                    < final(out)@[j].type_id,
    {
        let start = out.len();
        let mut component: u32 = 0;
        while component <= 0xffff
            invariant
                self.wf(),
                out@.len() >= start,
                start == old(out)@.len(),
                forall|i: int| 0 <= i < start ==> out@[i] == old(out)@[i],
                forall|i: int|
                    start <= i < out@.len() ==> self.occupied(#[trigger] out@[i].type_id, index)
                        && out@[i].fields@ == self.value(out@[i].type_id, index).fields@
                        && out@[i].type_id < component,
                forall|c: u16|
                    c < component && self.occupied(c, index) ==> exists|i: int|
                        start <= i < out@.len() && #[trigger] out@[i].type_id == c,
                forall|i: int, j: int|
                    start <= i < j < out@.len() ==> out@[i].type_id < out@[j].type_id,
            decreases 0x10000 - component,
        {
            let c = component as u16;
            assert(c == component);
            let ghost before = out@;
            match self.get(c, index) {
                Some(value) => {
                    out.push(value);
                    assert(out@[out@.len() - 1].type_id == c);
                },
                None => {},
            }
            assert(forall|d: u16|
                d < component + 1 && self.occupied(d, index) ==> exists|i: int|
                    start <= i < out@.len() && #[trigger] out@[i].type_id == d) by {
                assert forall|d: u16|
                    d < component + 1 && self.occupied(d, index) implies exists|i: int|
                    start <= i < out@.len() && #[trigger] out@[i].type_id == d by {
                    if d < component {
                        let i = choose|i: int| start <= i < before.len() && #[trigger] before[i].type_id == d;
                        assert(out@[i] == before[i]);
                    } else {
                        assert(out@[out@.len() - 1].type_id == d);
                    }
                }
            }
            component = component + 1;
        }
    }
}

/// Simulation state of one World: identity, clock, effective storage and
/// committed authored records.
pub struct WorldSimulationState {
    pub id: WorldId,
    pub identity: usize,
    pub tick: u64,
    pub components: ComponentStorage,
    pub state: WorldEntityState,
    pub restoring: bool,
    pub forced_cleanup: bool,
    pub lifecycle_cleanup: Vec<(EntityId, ComponentValue)>,
}

impl WorldSimulationState {
    pub open spec fn wf(self) -> bool {
        self.components.wf() && self.state.wf()
    }
}

/// Entity handle in an ordered command: an identity or a batch alias.
#[derive(Clone, Copy, Debug, PartialEq, Eq, Structural)]
pub enum EntityRef {
    Handle(EntityId),
    Alias(u32),
}

/// Field write addressed by byte offset within a component.
#[derive(Clone, Copy, Debug, PartialEq, Eq, Structural)]
pub struct FieldWrite {
    pub offset: u32,
    pub value: FieldValue,
}

/// Ordered authoring operation interpreted by subsystem handlers.
#[derive(Clone, Copy, Debug, PartialEq, Eq, Structural)]
pub enum Command {
    SetField { entity: EntityRef, component: u16, field: FieldWrite },
    RemoveComponent { entity: EntityRef, component: u16 },
    DeleteEntity { entity: EntityRef },
}

/// Staged authored changes of one ordered operation.
pub struct WorldMutationState {
    pub entities_state: WorldEntityState,
    /// Touched components with the incarnation they had before the operation.
    pub changed: Vec<((EntityId, u16), Option<u64>)>,
    pub operation_components: Vec<(EntityId, u16)>,
    pub operation_created: Vec<EntityId>,
    pub operation_deleted: Vec<EntityId>,
    pub dirty: Vec<(EntityId, u16)>,
    pub explicit_fields: Vec<(EntityId, u16, u32)>,
}

/// Value recorded for a key in an association list (first match).
pub open spec fn assoc<K, V>(pairs: Seq<(K, V)>, key: K) -> Option<V>
    decreases pairs.len(),
{
    if pairs.len() == 0 {
        None
    } else if pairs[0].0 == key {
        Some(pairs[0].1)
    } else {
        assoc(pairs.drop_first(), key)
    }
}

impl WorldMutationState {
    /// The previous incarnation recorded for a touched component.
    pub fn changed_before(&self, entity: EntityId, component: u16) -> (r: Option<Option<u64>>)
        ensures
            r == assoc(self.changed@, (entity, component)),
    {
        let mut i: usize = 0;
        assert(self.changed@.subrange(0, self.changed@.len() as int) =~= self.changed@);
        while i < self.changed.len()
            invariant
                i <= self.changed@.len(),
                assoc(self.changed@, (entity, component)) == assoc(
                    self.changed@.subrange(i as int, self.changed@.len() as int),
                    (entity, component),
                ),
            decreases self.changed@.len() - i,
        {
            let ghost s = self.changed@.subrange(i as int, self.changed@.len() as int);
            let (key, before) = self.changed[i];
            if key.0 == entity && key.1 == component {
                return Some(before);
            }
            assert(s.drop_first() =~= self.changed@.subrange(i + 1, self.changed@.len() as int));
            i = i + 1;
        }
        assert(self.changed@.subrange(i as int, self.changed@.len() as int) =~= Seq::<((EntityId, u16), Option<u64>)>::empty());
        None
    }

    /// Resolve a handle or a provisional alias against staged identities.
    pub fn resolve(&self, reference: EntityRef, aliases: &Vec<(u32, EntityId)>) -> (r: Result<
        EntityId,
        ErrorReason,
    >)
        ensures
            match reference {
                EntityRef::Handle(id) => r == if self.entities_state.allocator.live(id) {
                    Ok::<EntityId, ErrorReason>(id)
                } else {
                    Err(ErrorReason::InvalidEntity)
                },
                EntityRef::Alias(a) => r == match assoc(aliases@, a) {
                    Some(id) => Ok::<EntityId, ErrorReason>(id),
                    None => Err(ErrorReason::InvalidEntity),
                },
            },
    {
        match reference {
            EntityRef::Handle(id) => {
                if self.entities_state.allocator.contains(id) {
                    Ok(id)
                } else {
                    Err(ErrorReason::InvalidEntity)
                }
            },
            EntityRef::Alias(alias) => {
                let mut i: usize = 0;
                assert(aliases@.subrange(0, aliases@.len() as int) =~= aliases@);
                while i < aliases.len()
                    invariant
                        reference == EntityRef::Alias(alias),
                        i <= aliases@.len(),
                        assoc(aliases@, alias) == assoc(
                            aliases@.subrange(i as int, aliases@.len() as int),
                            alias,
                        ),
                    decreases aliases@.len() - i,
                {
                    let ghost s = aliases@.subrange(i as int, aliases@.len() as int);
                    assert(s[0] == aliases@[i as int]);
                    if aliases[i].0 == alias {
                        assert(assoc(s, alias) == Some(aliases@[i as int].1));
                        return Ok(aliases[i].1);
                    }
                    assert(s.drop_first() =~= aliases@.subrange(i + 1, aliases@.len() as int));
                    i = i + 1;
                }
                assert(aliases@.subrange(i as int, aliases@.len() as int) =~= Seq::<(u32, EntityId)>::empty());
                Err(ErrorReason::InvalidEntity)
            },
        }
    }
}

} // verus!
