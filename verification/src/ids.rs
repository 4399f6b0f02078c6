//! Generational entity identities, world identities, system identities and
//! the error vocabulary shared by every world system.

use vstd::prelude::*;
use vstd::std_specs::cmp::PartialEqSpecImpl;
use vstd::string::StringSliceAdditionalSpecFns;

verus! {

/// Number of distinct slot indices addressable by an entity identity.
pub const INDEX_SPACE: u64 = 0x1_0000_0000;

/// World-local generational identity: the low half of the bits is the slot
/// index, the high half the slot generation. Bits zero is the null handle.
#[derive(Clone, Copy, Debug, PartialEq, Eq, Structural, PartialOrd, Ord, Hash)]
pub struct EntityId {
    pub bits: u64,
}

impl EntityId {
    pub open spec fn spec_index(self) -> nat {
        (self.bits % INDEX_SPACE) as nat
    }

    pub open spec fn spec_generation(self) -> nat {
        (self.bits / INDEX_SPACE) as nat
    }

    /// Recover a serialized identity.
    pub fn from_bits(bits: u64) -> (r: EntityId)
        ensures
            r.bits == bits,
    {
        EntityId { bits }
    }

    /// Persistent bit representation.
    pub fn to_bits(self) -> (r: u64)
        ensures
            r == self.bits,
    {
        self.bits
    }

    /// Compose an identity from a slot index and its generation.
    pub fn new(index: u32, generation: u32) -> (r: EntityId)
        ensures
            r.spec_index() == index,
            r.spec_generation() == generation,
            r.bits == generation * INDEX_SPACE + index,
    {
        let bits = (generation as u64) * INDEX_SPACE + (index as u64);
        let r = EntityId { bits };
        proof {
            vstd::arithmetic::div_mod::lemma_fundamental_div_mod_converse(
                bits as int,
                INDEX_SPACE as int,
                generation as int,
                index as int,
            );
        }
        r
    }

    /// Slot index within the owning world's storage.
    pub fn index(self) -> (r: u32)
        ensures
            r == self.spec_index(),
    {
        (self.bits % INDEX_SPACE) as u32
    }

    /// Generation of the slot occupant.
    pub fn generation(self) -> (r: u32)
        ensures
            r == self.spec_generation(),
    {
        assert(self.bits / INDEX_SPACE < INDEX_SPACE) by (nonlinear_arith)
            requires
                self.bits < 0x1_0000_0000_0000_0000int,
                INDEX_SPACE == 0x1_0000_0000,
        ;
        (self.bits / INDEX_SPACE) as u32
    }
}

/// Identity of one World within its Host.
#[derive(Clone, Copy, Debug, PartialEq, Eq, Structural, PartialOrd, Ord, Hash)]
pub struct WorldId(pub u64);

/// Stable system factory and instance identity.
#[derive(Clone, Copy, Debug)]
pub struct SystemId(pub &'static str);

impl SystemId {
    /// Two identities name the same system when their names are byte-equal.
    pub open spec fn same(self, other: SystemId) -> bool {
        self.0.spec_bytes() == other.0.spec_bytes()
    }

    /// Byte-wise identity comparison.
    pub fn equals(&self, other: &SystemId) -> (r: bool)
        ensures
            r == self.same(*other),
    {
        str_equal(self.0, other.0)
    }
}

impl PartialEq for SystemId {
    fn eq(&self, other: &Self) -> (r: bool) {
        str_equal(self.0, other.0)
    }
}

impl PartialEqSpecImpl for SystemId {
    open spec fn obeys_eq_spec() -> bool {
        true
    }

    open spec fn eq_spec(&self, other: &Self) -> bool {
        self.same(*other)
    }
}

/// Byte-wise text equality.
pub fn str_equal(a: &str, b: &str) -> (r: bool)
    ensures
        r == (a.spec_bytes() == b.spec_bytes()),
{
    let x = a.as_bytes();
    let y = b.as_bytes();
    if x.len() != y.len() {
        return false;
    }
    let mut i: usize = 0;
    while i < x.len()
        invariant
            x@ == a.spec_bytes(),
            y@ == b.spec_bytes(),
            x@.len() == y@.len(),
            i <= x@.len(),
            forall|j: int| 0 <= j < i ==> x@[j] == y@[j],
        decreases x@.len() - i,
    {
        if x[i] != y[i] {
            return false;
        }
        i = i + 1;
    }
    assert(x@ =~= y@);
    true
}

/// Reason a world mutation, command or query was rejected.
#[derive(Clone, Copy, Debug, PartialEq, Eq, Structural)]
pub enum ErrorReason {
    Capacity,
    InvalidValue,
    InvalidEntity,
    InvalidField,
    InvalidAsset,
    MissingComponent,
    UnsupportedDependency,
    NoActiveCamera,
    ActiveCamera,
    Unavailable,
}

} // verus!
