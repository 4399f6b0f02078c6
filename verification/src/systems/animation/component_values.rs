//! Reusable ordered staging for only the components affected by one
//! controller: whole component values by (entity, component), and pending
//! numeric field writes for components not yet staged whole. Reads see
//! earlier writes in declaration order.

use crate::ids::{EntityId, ErrorReason};
use crate::systems::animation::validation::{finite32, is_finite32};
use crate::world::{ComponentStorage, ComponentValue, FieldValue};
use vstd::prelude::*;

verus! {

/// Staged component values, ascending by (entity, component).
pub type ComponentScratch = Vec<((EntityId, u16), Option<ComponentValue>)>;

/// Pending numeric field writes by ((entity, component), offset).
pub type PropertyScratch = Vec<(((EntityId, u16), u32), FieldValue)>;

/// Order of staging keys: by entity identity, then component type.
pub open spec fn key_lt(a: (EntityId, u16), b: (EntityId, u16)) -> bool {
    a.0.bits < b.0.bits || (a.0.bits == b.0.bits && a.1 < b.1)
}

/// Keys strictly ascending.
pub open spec fn sorted_keys(v: Seq<((EntityId, u16), Option<ComponentValue>)>) -> bool {
    forall|i: int, j: int| 0 <= i < j < v.len() ==> key_lt((#[trigger] v[i]).0, (#[trigger] v[j]).0)
}

/// No two pending writes address one field.
pub open spec fn unique_fields(p: Seq<(((EntityId, u16), u32), FieldValue)>) -> bool {
    forall|i: int, j: int| 0 <= i < j < p.len() ==> (#[trigger] p[i]).0 != (#[trigger] p[j]).0
}

/// The staged entry of a key: `Some(None)` when only numeric writes are
/// pending for it.
pub open spec fn staged_entry(v: Seq<((EntityId, u16), Option<ComponentValue>)>, key: (EntityId, u16)) -> Option<
    Option<ComponentValue>,
> {
    if exists|i: int| 0 <= i < v.len() && (#[trigger] v[i]).0 == key {
        Some(v[choose|i: int| 0 <= i < v.len() && (#[trigger] v[i]).0 == key].1)
    } else {
        None
    }
}

/// The pending write of a field (the last one recorded).
pub open spec fn pending_write(p: Seq<(((EntityId, u16), u32), FieldValue)>, key: (EntityId, u16), offset: u32) -> Option<
    FieldValue,
>
    decreases p.len(),
{
    if p.len() == 0 {
        None
    } else if p.last().0 == (key, offset) {
        Some(p.last().1)
    } else {
        pending_write(p.drop_last(), key, offset)
    }
}

/// Fields of `created` after the pending writes of `key` are applied in order.
pub open spec fn with_pending(created: ComponentValue, p: Seq<(((EntityId, u16), u32), FieldValue)>, key: (
    EntityId,
    u16,
), offset: u32) -> Option<FieldValue> {
    match pending_write(p, key, offset) {
        Some(v) => Some(v),
        None => created.spec_field(offset),
    }
}

/// Values a numeric read may report: anything but an entity reference.
pub open spec fn numeric_value(v: FieldValue) -> bool {
    !(v is Entity)
}

/// Reusable ordered staging of one controller's component updates.
pub struct AnimationComponentValues {
    pub values: ComponentScratch,
    pub properties: PropertyScratch,
}

impl AnimationComponentValues {
    pub open spec fn wf(&self) -> bool {
        sorted_keys(self.values@) && unique_fields(self.properties@)
    }

    /// Staging over reusable scratch; the component scratch arrives empty.
    pub fn new(values: ComponentScratch, properties: PropertyScratch) -> (r: Self)
        requires
            values@.len() == 0,
        ensures
            r.values@.len() == 0,
            r.properties@ == properties@,
            unique_fields(properties@) ==> r.wf(),
    {
        AnimationComponentValues { values, properties }
    }

    /// Position of a key, or where it would be inserted.
    fn search(&self, key: (EntityId, u16)) -> (r: (bool, usize))
        requires
            sorted_keys(self.values@),
        ensures
            r.1 <= self.values@.len(),
            forall|i: int| 0 <= i < r.1 ==> key_lt((#[trigger] self.values@[i]).0, key),
            r.0 ==> r.1 < self.values@.len() && self.values@[r.1 as int].0 == key,
            !r.0 ==> forall|i: int| r.1 <= i < self.values@.len() ==> key_lt(key, (#[trigger] self.values@[i]).0),
    {
        let mut lo: usize = 0;
        let mut hi: usize = self.values.len();
        while lo < hi
            invariant
                sorted_keys(self.values@),
                lo <= hi <= self.values@.len(),
                forall|i: int| 0 <= i < lo ==> key_lt((#[trigger] self.values@[i]).0, key),
                forall|i: int| hi <= i < self.values@.len() ==> key_lt(key, (#[trigger] self.values@[i]).0),
            decreases hi - lo,
        {
            let mid = lo + (hi - lo) / 2;
            let k = self.values[mid].0;
            if k.0.bits == key.0.bits && k.1 == key.1 {
                return (true, mid);
            } else if k.0.bits < key.0.bits || (k.0.bits == key.0.bits && k.1 < key.1) {
                proof {
                    assert forall|i: int| 0 <= i < mid + 1 implies key_lt((#[trigger] self.values@[i]).0, key) by {
                        if i < mid {
                            assert(key_lt(self.values@[i].0, self.values@[mid as int].0));
                        }
                    }
                }
                lo = mid + 1;
            } else {
                proof {
                    assert forall|i: int| mid <= i < self.values@.len() implies key_lt(key, (#[trigger] self.values@[i]).0) by {
                        if i > mid {
                            assert(key_lt(self.values@[mid as int].0, self.values@[i].0));
                        }
                    }
                }
                hi = mid;
            }
        }
        (false, lo)
    }
}

/// The value a numeric read of a field observes: the staged component's
/// field, else the pending write, else the stored value.
pub open spec fn observed(
    values: Seq<((EntityId, u16), Option<ComponentValue>)>,
    properties: Seq<(((EntityId, u16), u32), FieldValue)>,
    key: (EntityId, u16),
    offset: u32,
    stored: Option<FieldValue>,
) -> Option<FieldValue> {
    match staged_entry(values, key) {
        Some(Some(c)) => c.spec_field(offset),
        _ => match pending_write(properties, key, offset) {
            Some(v) => Some(v),
            None => stored,
        },
    }
}

proof fn lemma_entry_at(v: Seq<((EntityId, u16), Option<ComponentValue>)>, i: int)
    requires
        sorted_keys(v),
        0 <= i < v.len(),
    ensures
        staged_entry(v, v[i].0) == Some(v[i].1),
{
    let k = choose|j: int| 0 <= j < v.len() && (#[trigger] v[j]).0 == v[i].0;
    if k < i {
        assert(key_lt(v[k].0, v[i].0));
    } else if k > i {
        assert(key_lt(v[i].0, v[k].0));
    }
}

proof fn lemma_entry_absent(v: Seq<((EntityId, u16), Option<ComponentValue>)>, key: (EntityId, u16))
    requires
        forall|i: int| 0 <= i < v.len() ==> (#[trigger] v[i]).0 != key,
    ensures
        staged_entry(v, key) is None,
{
}

/// Inserting a key at its sorted position keeps the order and every other entry.
proof fn lemma_insert_sorted(v: Seq<((EntityId, u16), Option<ComponentValue>)>, i: int, e: ((EntityId, u16), Option<ComponentValue>))
    requires
        sorted_keys(v),
        0 <= i <= v.len(),
        forall|j: int| 0 <= j < i ==> key_lt((#[trigger] v[j]).0, e.0),
        forall|j: int| i <= j < v.len() ==> key_lt(e.0, (#[trigger] v[j]).0),
    ensures
        sorted_keys(v.insert(i, e)),
        staged_entry(v.insert(i, e), e.0) == Some(e.1),
        forall|k: (EntityId, u16)| k != e.0 ==> #[trigger] staged_entry(v.insert(i, e), k) == staged_entry(v, k),
{
    let w = v.insert(i, e);
    assert forall|a: int, b: int| 0 <= a < b < w.len() implies key_lt((#[trigger] w[a]).0, (#[trigger] w[b]).0) by {
        if b < i {
            assert(w[a] == v[a] && w[b] == v[b]);
        } else if b == i {
            assert(w[a] == v[a]);
        } else if a < i {
            assert(w[a] == v[a] && w[b] == v[b - 1]);
            assert(key_lt(e.0, v[b - 1].0));
        } else if a == i {
            assert(w[b] == v[b - 1]);
        } else {
            assert(w[a] == v[a - 1] && w[b] == v[b - 1]);
        }
    }
    lemma_entry_at(w, i);
    assert forall|k: (EntityId, u16)| k != e.0 implies #[trigger] staged_entry(w, k) == staged_entry(v, k) by {
        if exists|j: int| 0 <= j < v.len() && (#[trigger] v[j]).0 == k {
            let j = choose|j: int| 0 <= j < v.len() && (#[trigger] v[j]).0 == k;
            lemma_entry_at(v, j);
            let jw = if j < i { j } else { j + 1 };
            assert(w[jw] == v[j]);
            lemma_entry_at(w, jw);
        } else {
            assert forall|j: int| 0 <= j < w.len() implies (#[trigger] w[j]).0 != k by {
                if j < i {
                    assert(w[j] == v[j]);
                } else if j > i {
                    assert(w[j] == v[j - 1]);
                }
            }
        }
    }
}

/// Replacing the component of one entry keeps the order and every other entry.
proof fn lemma_update_sorted(v: Seq<((EntityId, u16), Option<ComponentValue>)>, i: int, c: Option<ComponentValue>)
    requires
        sorted_keys(v),
        0 <= i < v.len(),
    ensures
        sorted_keys(v.update(i, (v[i].0, c))),
        staged_entry(v.update(i, (v[i].0, c)), v[i].0) == Some(c),
        forall|k: (EntityId, u16)| k != v[i].0 ==> #[trigger] staged_entry(v.update(i, (v[i].0, c)), k) == staged_entry(v, k),
{
    let w = v.update(i, (v[i].0, c));
    assert forall|a: int, b: int| 0 <= a < b < w.len() implies key_lt((#[trigger] w[a]).0, (#[trigger] w[b]).0) by {
        assert(w[a].0 == v[a].0 && w[b].0 == v[b].0);
    }
    lemma_entry_at(w, i);
    assert forall|k: (EntityId, u16)| k != v[i].0 implies #[trigger] staged_entry(w, k) == staged_entry(v, k) by {
        if exists|j: int| 0 <= j < v.len() && (#[trigger] v[j]).0 == k {
            let j = choose|j: int| 0 <= j < v.len() && (#[trigger] v[j]).0 == k;
            lemma_entry_at(v, j);
            assert(w[j] == v[j]);
            lemma_entry_at(w, j);
        } else {
            assert forall|j: int| 0 <= j < w.len() implies (#[trigger] w[j]).0 != k by {
                assert(w[j].0 == v[j].0);
            }
        }
    }
}

proof fn lemma_pending_update(
    p: Seq<(((EntityId, u16), u32), FieldValue)>,
    j: int,
    v: FieldValue,
    key: (EntityId, u16),
    offset: u32,
)
    requires
        unique_fields(p),
        0 <= j < p.len(),
    ensures
        pending_write(p.update(j, (p[j].0, v)), key, offset) == if (key, offset) == p[j].0 {
            Some(v)
        } else {
            pending_write(p, key, offset)
        },
    decreases p.len(),
{
    let w = p.update(j, (p[j].0, v));
    if j < p.len() - 1 {
        assert(w.last() == p.last());
        assert(w.drop_last() =~= p.drop_last().update(j, (p[j].0, v)));
        if p.last().0 != (key, offset) {
            assert forall|a: int, b: int| 0 <= a < b < p.drop_last().len() implies (#[trigger] p.drop_last()[a]).0
                != (#[trigger] p.drop_last()[b]).0 by {
                assert(p.drop_last()[a] == p[a] && p.drop_last()[b] == p[b]);
            }
            lemma_pending_update(p.drop_last(), j, v, key, offset);
        } else {
            assert(p[j].0 != p[p.len() - 1].0);
        }
    } else {
        assert(w.drop_last() =~= p.drop_last());
    }
}

proof fn lemma_pending_absent(p: Seq<(((EntityId, u16), u32), FieldValue)>, key: (EntityId, u16), offset: u32)
    requires
        forall|i: int| 0 <= i < p.len() ==> (#[trigger] p[i]).0 != (key, offset),
    ensures
        pending_write(p, key, offset) is None,
    decreases p.len(),
{
    if p.len() > 0 {
        assert(p.last() == p[p.len() - 1]);
        lemma_pending_absent(p.drop_last(), key, offset);
    }
}

impl AnimationComponentValues {
    /// Record a numeric field write. A staged component takes it directly;
    /// otherwise it is pending until the component is staged. A non-finite
    /// single is refused.
    #[verifier::rlimit(40)]
    pub fn set_numeric(&mut self, key: (EntityId, u16), offset: u32, value: FieldValue) -> (r: Result<(), ErrorReason>)
        requires
            old(self).wf(),
        ensures
            final(self).wf(),
            r is Err <==> (value matches FieldValue::F32(x) && !finite32(x)),
            r is Err ==> r == Err::<(), ErrorReason>(ErrorReason::InvalidValue) && final(self).values@ == old(self).values@
                && final(self).properties@ == old(self).properties@,
            r is Ok ==> forall|k: (EntityId, u16), o: u32, st: Option<FieldValue>| #[trigger] observed(
                final(self).values@,
                final(self).properties@,
                k,
                o,
                st,
            ) == if k == key && o == offset {
                Some(value)
            } else {
                observed(old(self).values@, old(self).properties@, k, o, st)
            },
            r is Ok ==> forall|k: (EntityId, u16)| k != key ==> #[trigger] staged_entry(final(self).values@, k) == staged_entry(
                old(self).values@,
                k,
            ),
            r is Ok ==> match staged_entry(old(self).values@, key) {
                Some(Some(c)) => staged_entry(final(self).values@, key) matches Some(Some(d)) && d.type_id == c.type_id
                    && final(self).properties@ == old(self).properties@,
                _ => staged_entry(final(self).values@, key) == Some(None::<ComponentValue>) && forall|k: (EntityId, u16), o: u32|
                    #[trigger] pending_write(final(self).properties@, k, o) == if k == key && o == offset {
                        Some(value)
                    } else {
                        pending_write(old(self).properties@, k, o)
                    },
            },
    {
        if let FieldValue::F32(x) = value {
            if !is_finite32(x) {
                return Err(ErrorReason::InvalidValue);
            }
        }
        let ghost v0 = self.values@;
        let ghost p0 = self.properties@;
        let (found, index) = self.search(key);
        if !found {
            proof {
                lemma_insert_sorted(v0, index as int, (key, None));
            }
            self.values.insert(index, (key, None));
        } else {
            proof {
                lemma_entry_at(v0, index as int);
            }
        }
        let ghost v1 = self.values@;
        proof {
            lemma_entry_at(v1, index as int);
        }
        if self.values[index].1.is_some() {
            let mut c = match &self.values[index].1 {
                Some(staged) => staged.duplicate(),
                None => ComponentValue { type_id: key.1, fields: Vec::new() },
            };
            c.set_field(offset, value);
            proof {
                lemma_update_sorted(v1, index as int, Some(c));
            }
            self.values.set(index, (key, Some(c)));
            proof {
                assert forall|k: (EntityId, u16), o: u32, st: Option<FieldValue>| #[trigger] observed(
                    self.values@,
                    self.properties@,
                    k,
                    o,
                    st,
                ) == if k == key && o == offset {
                    Some(value)
                } else {
                    observed(v0, p0, k, o, st)
                } by {
                    if k != key && !found {
                        assert(staged_entry(v0, k) == staged_entry(v1, k));
                    }
                }
            }
            return Ok(());
        }
        let mut j: usize = 0;
        while j < self.properties.len()
            invariant
                self.properties@ == p0,
                unique_fields(p0),
                j <= p0.len(),
                forall|i: int| 0 <= i < j ==> (#[trigger] p0[i]).0 != (key, offset),
            ensures
                self.properties@ == p0,
                j <= p0.len(),
                forall|i: int| 0 <= i < j ==> (#[trigger] p0[i]).0 != (key, offset),
                j < p0.len() ==> p0[j as int].0 == (key, offset),
            decreases p0.len() - j,
        {
            if self.properties[j].0.0.0.bits == key.0.bits && self.properties[j].0.0.1 == key.1 && self.properties[j].0.1
                == offset {
                break;
            }
            j = j + 1;
        }
        if j < self.properties.len() {
            assert(p0[j as int].0 == (key, offset));
            self.properties.set(j, ((key, offset), value));
            proof {
                assert(self.properties@ == p0.update(j as int, (p0[j as int].0, value)));
                assert forall|a: int, b: int| 0 <= a < b < self.properties@.len() implies (#[trigger] self.properties@[a]).0
                    != (#[trigger] self.properties@[b]).0 by {
                    assert(self.properties@[a].0 == p0[a].0 && self.properties@[b].0 == p0[b].0);
                }
                assert forall|k: (EntityId, u16), o: u32| #[trigger] pending_write(self.properties@, k, o) == if k == key
                    && o == offset {
                    Some(value)
                } else {
                    pending_write(p0, k, o)
                } by {
                    lemma_pending_update(p0, j as int, value, k, o);
                }
            }
        } else {
            self.properties.push(((key, offset), value));
            proof {
                assert forall|a: int, b: int| 0 <= a < b < self.properties@.len() implies (#[trigger] self.properties@[a]).0
                    != (#[trigger] self.properties@[b]).0 by {
                    if b == p0.len() {
                        assert(self.properties@[a] == p0[a]);
                    } else {
                        assert(self.properties@[a] == p0[a] && self.properties@[b] == p0[b]);
                    }
                }
                assert forall|k: (EntityId, u16), o: u32| #[trigger] pending_write(self.properties@, k, o) == if k == key
                    && o == offset {
                    Some(value)
                } else {
                    pending_write(p0, k, o)
                } by {
                    assert(self.properties@.drop_last() =~= p0);
                }
            }
        }
        proof {
            assert forall|k: (EntityId, u16), o: u32, st: Option<FieldValue>| #[trigger] observed(
                self.values@,
                self.properties@,
                k,
                o,
                st,
            ) == if k == key && o == offset {
                Some(value)
            } else {
                observed(v0, p0, k, o, st)
            } by {
                if k != key && !found {
                    assert(staged_entry(v0, k) == staged_entry(v1, k));
                }
                assert(pending_write(self.properties@, k, o) == if k == key && o == offset {
                    Some(value)
                } else {
                    pending_write(p0, k, o)
                });
            }
        }
        Ok(())
    }
}

/// The stored value of a field in effective storage, by the key's slot index.
pub open spec fn stored_field(storage: ComponentStorage, key: (EntityId, u16), offset: u32) -> Option<FieldValue> {
    if storage.occupied(key.1, key.0.spec_index() as usize) {
        storage.value(key.1, key.0.spec_index() as usize).spec_field(offset)
    } else {
        None
    }
}

/// Fields of a created component after applying, in order, the pending
/// writes of its key.
pub open spec fn applied(created: ComponentValue, p: Seq<(((EntityId, u16), u32), FieldValue)>, key: (EntityId, u16), v: ComponentValue) -> bool {
    &&& v.type_id == created.type_id
    &&& forall|o: u32| #[trigger] v.spec_field(o) == with_pending(created, p, key, o)
}

impl AnimationComponentValues {
    /// The numeric value a read of a field observes: the staged component's
    /// field, else the pending write, else the stored value. `numeric` is the
    /// component registry's answer whether the field is a numeric animatable
    /// property; entity references are never numeric values.
    pub fn numeric_current(&self, key: (EntityId, u16), offset: u32, storage: &ComponentStorage, numeric: bool) -> (r: Option<
        FieldValue,
    >)
        requires
            self.wf(),
            storage.wf(),
        ensures
            r == if !numeric {
                None
            } else {
                match observed(self.values@, self.properties@, key, offset, stored_field(*storage, key, offset)) {
                    Some(v) => if numeric_value(v) {
                        Some(v)
                    } else {
                        None
                    },
                    None => None,
                }
            },
    {
        if !numeric {
            return None;
        }
        let (found, index) = self.search(key);
        proof {
            if found {
                lemma_entry_at(self.values@, index as int);
            } else {
                assert forall|i: int| 0 <= i < self.values@.len() implies (#[trigger] self.values@[i]).0 != key by {
                    if i < index {
                        assert(key_lt(self.values@[i].0, key));
                    } else {
                        assert(key_lt(key, self.values@[i].0));
                    }
                }
            }
        }
        let value = if found && self.values[index].1.is_some() {
            match &self.values[index].1 {
                Some(c) => c.field(offset),
                None => None,
            }
        } else {
            let pending = match find_pending(&self.properties, key, offset) {
                Some(j) => {
                    proof {
                        lemma_pending_unique(self.properties@, j as int);
                    }
                    Some(self.properties[j].1)
                },
                None => None,
            };
            match pending {
                Some(v) => Some(v),
                None => {
                    proof {
                        lemma_pending_absent(self.properties@, key, offset);
                    }
                    match storage.get(key.1, key.0.index() as usize) {
                        Some(c) => c.field(offset),
                        None => None,
                    }
                },
            }
        };
        match value {
            Some(FieldValue::Entity(_)) => None,
            Some(v) => Some(v),
            None => None,
        }
    }
}

/// Position of the pending write of a field.
fn find_pending(p: &PropertyScratch, key: (EntityId, u16), offset: u32) -> (r: Option<usize>)
    ensures
        r matches Some(j) ==> j < p@.len() && p@[j as int].0 == (key, offset),
        r is None ==> forall|i: int| 0 <= i < p@.len() ==> (#[trigger] p@[i]).0 != (key, offset),
{
    let mut j: usize = 0;
    while j < p.len()
        invariant
            j <= p@.len(),
            forall|i: int| 0 <= i < j ==> (#[trigger] p@[i]).0 != (key, offset),
        decreases p@.len() - j,
    {
        if p[j].0.0.0.bits == key.0.bits && p[j].0.0.1 == key.1 && p[j].0.1 == offset {
            assert(p@[j as int].0.0.0 == key.0);
            return Some(j);
        }
        j = j + 1;
    }
    None
}

/// With unique fields, the pending write of a field is its only entry.
proof fn lemma_pending_unique(p: Seq<(((EntityId, u16), u32), FieldValue)>, j: int)
    requires
        unique_fields(p),
        0 <= j < p.len(),
    ensures
        pending_write(p, p[j].0.0, p[j].0.1) == Some(p[j].1),
    decreases p.len(),
{
    if j < p.len() - 1 {
        assert(p.last().0 != p[j].0);
        assert(p.drop_last()[j] == p[j]);
        assert forall|a: int, b: int| 0 <= a < b < p.drop_last().len() implies (#[trigger] p.drop_last()[a]).0
            != (#[trigger] p.drop_last()[b]).0 by {
            assert(p.drop_last()[a] == p[a] && p.drop_last()[b] == p[b]);
        }
        lemma_pending_unique(p.drop_last(), j);
    }
}

impl AnimationComponentValues {
    /// Apply the pending writes of a key, in order, to a created component.
    fn apply_pending(&self, key: (EntityId, u16), value: &mut ComponentValue)
        ensures
            applied(*old(value), self.properties@, key, *final(value)),
    {
        let ghost created = *value;
        let mut j: usize = 0;
        while j < self.properties.len()
            invariant
                j <= self.properties@.len(),
                value.type_id == created.type_id,
                forall|o: u32| #[trigger] value.spec_field(o) == with_pending(created, self.properties@.subrange(0, j as int), key, o),
            decreases self.properties@.len() - j,
        {
            let ghost prefix = self.properties@.subrange(0, j + 1);
            let entry = &self.properties[j];
            assert(prefix.drop_last() =~= self.properties@.subrange(0, j as int));
            assert(prefix.last() == self.properties@[j as int]);
            if entry.0.0.0.bits == key.0.bits && entry.0.0.1 == key.1 {
                assert(entry.0.0 == key);
                value.set_field(entry.0.1, entry.1);
            }
            j = j + 1;
        }
        assert(self.properties@.subrange(0, j as int) =~= self.properties@);
    }

    /// The staged component of a key, created on first use. A key with only
    /// pending numeric writes receives them, in order, on creation.
    pub fn get_or_insert<F: FnOnce() -> Result<ComponentValue, ErrorReason>>(&mut self, key: (EntityId, u16), create: F) -> (r:
        Result<&mut ComponentValue, ErrorReason>)
        requires
            old(self).wf(),
            create.requires(()),
        ensures
            final(self).properties@ == old(self).properties@,
            sorted_keys(final(self).values@),
            staged_entry(old(self).values@, key) matches Some(Some(c)) ==> r matches Ok(v) && *v == c,
            staged_entry(old(self).values@, key) == Some(None::<ComponentValue>) ==> match r {
                Ok(v) => exists|created: ComponentValue|
                    #![trigger create.ensures((), Ok::<ComponentValue, ErrorReason>(created))]
                    create.ensures((), Ok::<ComponentValue, ErrorReason>(created)) && applied(created, old(self).properties@, key, *v),
                Err(e) => create.ensures((), Err::<ComponentValue, ErrorReason>(e)),
            },
            staged_entry(old(self).values@, key) is None ==> match r {
                Ok(v) => create.ensures((), Ok::<ComponentValue, ErrorReason>(*v)),
                Err(e) => create.ensures((), Err::<ComponentValue, ErrorReason>(e)),
            },
            r is Err ==> final(self).values@ == old(self).values@,
            r matches Ok(v) ==> staged_entry(final(self).values@, key) == Some(Some(*final(v))),
            forall|k: (EntityId, u16)| k != key ==> #[trigger] staged_entry(final(self).values@, k) == staged_entry(
                old(self).values@,
                k,
            ),
    {
        let ghost v0 = self.values@;
        let ghost mut created_with: Option<ComponentValue> = None;
        let (found, index) = self.search(key);
        if !found {
            proof {
                assert forall|i: int| 0 <= i < v0.len() implies (#[trigger] v0[i]).0 != key by {
                    if i < index {
                        assert(key_lt(v0[i].0, key));
                    } else {
                        assert(key_lt(key, v0[i].0));
                    }
                }
                lemma_entry_absent(v0, key);
            }
            let value = create()?;
            proof {
                lemma_insert_sorted(v0, index as int, (key, Some(value)));
            }
            self.values.insert(index, (key, Some(value)));
        } else {
            proof {
                lemma_entry_at(v0, index as int);
            }
            if self.values[index].1.is_none() {
                let mut value = create()?;
                proof {
                    created_with = Some(value);
                }
                self.apply_pending(key, &mut value);
                proof {
                    lemma_update_sorted(v0, index as int, Some(value));
                }
                self.values.set(index, (key, Some(value)));
            }
        }
        let ghost v1 = self.values@;
        proof {
            lemma_entry_at(v1, index as int);
            assert(v1[index as int].1 is Some);
        }
        let entry = &mut self.values[index];
        let slot = &mut entry.1;
        proof {
            lemma_update_sorted(v1, index as int, *final(slot));
        }
        match slot {
            Some(value) => {
                proof {
                    if created_with is Some {
                        assert(applied(created_with->0, self.properties@, key, *value));
                    }
                }
                Ok(value)
            },
            None => {
                proof {
                    assert(false);
                }
                Err(ErrorReason::InvalidValue)
            },
        }
    }
}

impl AnimationComponentValues {
    /// Exclusive access to the `i`-th staged entry's component, in key order;
    /// `None` past the end or where only numeric writes are pending.
    pub fn values_mut(&mut self, i: usize) -> (r: Option<&mut ComponentValue>)
        ensures
            final(self).properties@ == old(self).properties@,
            r is Some <==> i < old(self).values@.len() && old(self).values@[i as int].1 is Some,
            r is None <==> indexed_value(old(self).values@, i as int) is None,
            r matches Some(v) ==> Some(*v) == indexed_value(old(self).values@, i as int),
            r matches Some(v) ==> Some(*v) == old(self).values@[i as int].1 && final(self).values@ == old(
                self,
            ).values@.update(i as int, (old(self).values@[i as int].0, Some(*final(v)))),
            r is None ==> final(self).values@ == old(self).values@,
            old(self).wf() ==> final(self).wf(),
    {
        if i >= self.values.len() {
            return None;
        }
        let ghost v0 = self.values@;
        let entry = &mut self.values[i];
        let slot = &mut entry.1;
        proof {
            if sorted_keys(v0) {
                lemma_update_sorted(v0, i as int, *final(slot));
            }
        }
        match slot {
            Some(value) => Some(value),
            None => None,
        }
    }

    /// Hand out the pending writes and drain the staged components in key
    /// order; the component scratch is left empty for reuse.
    pub fn drain(&mut self) -> (r: (&PropertyScratch, ComponentScratch))
        ensures
            r.0@ == old(self).properties@,
            r.1@ == old(self).values@,
            final(self).values@.len() == 0,
            final(self).properties@ == old(self).properties@,
    {
        let mut drained: ComponentScratch = Vec::new();
        drained.append(&mut self.values);
        assert(drained@ =~= old(self).values@);
        (&self.properties, drained)
    }

    /// Return the scratch for the next controller; pending writes are
    /// discarded and the staged components must have been drained.
    pub fn into_scratch(self) -> (r: (ComponentScratch, PropertyScratch))
        requires
            self.values@.len() == 0,
        ensures
            r.0@.len() == 0,
            r.1@.len() == 0,
    {
        let mut properties = self.properties;
        properties.clear();
        (self.values, properties)
    }
}

/// Staging a component created from its stored value changes no read of
/// it: pending numeric writes still win, and every other field reads as
/// stored.
pub proof fn lemma_staging_keeps_reads(
    before: Seq<((EntityId, u16), Option<ComponentValue>)>,
    after: Seq<((EntityId, u16), Option<ComponentValue>)>,
    properties: Seq<(((EntityId, u16), u32), FieldValue)>,
    key: (EntityId, u16),
    created: ComponentValue,
    staged: ComponentValue,
    offset: u32,
)
    requires
        !(staged_entry(before, key) matches Some(Some(_))),
        staged_entry(after, key) == Some(Some(staged)),
        applied(created, properties, key, staged),
    ensures
        observed(after, properties, key, offset, created.spec_field(offset)) == observed(
            before,
            properties,
            key,
            offset,
            created.spec_field(offset),
        ),
{
    assert(staged.spec_field(offset) == with_pending(created, properties, key, offset));
}


/// The component `values_mut(i)` hands out, if any.
pub open spec fn indexed_value(vs: Seq<((EntityId, u16), Option<ComponentValue>)>, i: int) -> Option<ComponentValue> {
    if 0 <= i < vs.len() {
        vs[i].1
    } else {
        None
    }
}

/// The components handed out by `values_mut` at the indices below `n`, in
/// index order.
pub open spec fn accessed(vs: Seq<((EntityId, u16), Option<ComponentValue>)>, n: int) -> Seq<ComponentValue>
    decreases n,
{
    if n <= 0 {
        Seq::empty()
    } else {
        match indexed_value(vs, n - 1) {
            Some(v) => accessed(vs, n - 1).push(v),
            None => accessed(vs, n - 1),
        }
    }
}

/// The components a drained scratch carries, in order.
pub open spec fn drained_values(drained: Seq<((EntityId, u16), Option<ComponentValue>)>) -> Seq<ComponentValue>
    decreases drained.len(),
{
    if drained.len() == 0 {
        Seq::empty()
    } else {
        match drained.last().1 {
            Some(v) => drained_values(drained.drop_last()).push(v),
            None => drained_values(drained.drop_last()),
        }
    }
}

/// Indexed access agrees with draining: the components `values_mut` hands
/// out over every index are exactly those an immediately following `drain`
/// yields, in the same order.
pub proof fn lemma_indexed_access_matches_drain(vs: Seq<((EntityId, u16), Option<ComponentValue>)>)
    ensures
        accessed(vs, vs.len() as int) == drained_values(vs),
    decreases vs.len(),
{
    if vs.len() > 0 {
        let rest = vs.drop_last();
        lemma_indexed_access_matches_drain(rest);
        assert forall|n: int| 0 <= n <= rest.len() implies #[trigger] accessed(vs, n) == accessed(rest, n) by {
            lemma_accessed_prefix(vs, rest, n);
        }
        assert(accessed(vs, rest.len() as int) == accessed(rest, rest.len() as int));
    }
}

proof fn lemma_accessed_prefix(
    vs: Seq<((EntityId, u16), Option<ComponentValue>)>,
    rest: Seq<((EntityId, u16), Option<ComponentValue>)>,
    n: int,
)
    requires
        vs.len() > 0,
        rest == vs.drop_last(),
        0 <= n <= rest.len(),
    ensures
        accessed(vs, n) == accessed(rest, n),
    decreases n,
{
    if n > 0 {
        lemma_accessed_prefix(vs, rest, n - 1);
        assert(indexed_value(vs, n - 1) == indexed_value(rest, n - 1));
    }
}

} // verus!
