//! Decoder of persistent animation state in every format version. Each
//! decoder accepts exactly the encodings of the values it can rebuild: what it
//! returns re-encodes to the bytes it consumed, and the encoding of any value
//! it accepts decodes back to that value.

use crate::ids::EntityId;
use crate::systems::animation::binary::{
    WorldBinaryReader, enc_bool, enc_count, enc_string, enc_u16, enc_u32, enc_u64, enc_u8, lemma_bool_inj,
    lemma_count_inj, lemma_enc_lens, lemma_split_eq, lemma_string_inj, lemma_u16_inj, lemma_u32_inj,
    lemma_u64_inj, lemma_u8_inj, splits,
};
use crate::systems::animation::codec::{
    ControllerModel, DriverModel, FrozenModel, SourceModel, StateModel, TargetModel, TransitionModel, driver_enc,
    enc_dynamic, enc_value, encodable_value, enc_lanes, enc_frozen, frozen_enc, frozen_models, enc_start, enc_source,
    enc_transition, transition_enc, transition_models, controller_enc, controller_models, id_enc, enc_state,
    enc_frozen_source, source_model, enc_transitions_section, enc_directional_section,
    driver_models, enc_clock, enc_controller, enc_crossfade, enc_driver, enc_driver_blend, enc_driver_ref, enc_seq, enc_summary,
    enc_versioned_summary, easing_tag, status_tag, enc_target, enc_u32s, lemma_enc_seq_front, lemma_enc_seq_min,
    lemma_enc_seq_push, lemma_enc_u32s_len, u32_enc,
};
use crate::world::FieldValue;
use crate::systems::animation::{
    AnimationPersistentTransition, AnimationPersistentTransitionSource, AnimationTransitionStartTime,
    AnimationPersistentState, AnimationFrozenTransitionValue, AnimationValue, DynamicValue, AnimationControllerDescription, AnimationControllerId, AnimationControllerSnapshot,
    AnimationControllerTransitionState, AnimationDriverDescription, AnimationPlaybackStatus, AnimationProperty,
    AnimationTrackTarget, AnimationTransitionEasing,
};
use vstd::prelude::*;
use vstd::utf8::encode_utf8;

verus! {

/// Allocation claimed per decoded controller.
pub const CONTROLLER_CLAIM: usize = 80;

/// Allocation claimed per decoded driver.
pub const DRIVER_CLAIM: usize = 96;

/// Allocation claimed per decoded transition.
pub const TRANSITION_CLAIM: usize = 128;

/// Allocation claimed per decoded frozen value.
pub const FROZEN_CLAIM: usize = 96;

/// Allocation claimed per decoded index.
pub const INDEX_CLAIM: usize = 4;

/// Maximum indices of a decoded target.
pub const MAX_INDICES: usize = 4096;

/// Sum of a measure over a sequence.
pub open spec fn sum_seq<T>(s: Seq<T>, f: spec_fn(T) -> nat) -> nat
    decreases s.len(),
{
    if s.len() == 0 {
        0
    } else {
        sum_seq(s.drop_last(), f) + f(s.last())
    }
}

pub proof fn lemma_sum_seq_push<T>(s: Seq<T>, x: T, f: spec_fn(T) -> nat)
    ensures
        sum_seq(s.push(x), f) == sum_seq(s, f) + f(x),
{
    assert(s.push(x).drop_last() =~= s);
}

pub proof fn lemma_sum_seq_prefix<T>(s: Seq<T>, i: int, f: spec_fn(T) -> nat)
    requires
        0 <= i <= s.len(),
    ensures
        sum_seq(s.take(i), f) <= sum_seq(s, f),
    decreases s.len(),
{
    if i < s.len() {
        lemma_sum_seq_prefix(s.drop_last(), i, f);
        assert(s.drop_last().take(i) =~= s.take(i));
    } else {
        assert(s.take(i) =~= s);
    }
}

/// Allocation claimed while decoding a target.
pub open spec fn claim_target(t: TargetModel) -> nat {
    match t {
        TargetModel::Property(_, offsets) => (INDEX_CLAIM * offsets.len()) as nat,
        TargetModel::Dynamic(_, _) => 0,
    }
}

/// Targets the decoder rebuilds.
pub open spec fn dec_target(t: TargetModel) -> bool {
    match t {
        TargetModel::Property(_, offsets) => offsets.len() <= MAX_INDICES,
        TargetModel::Dynamic(_, name) => encode_utf8(name).len() <= u32::MAX,
    }
}

/// Indices as a count and that many u32s.
pub open spec fn enc_indices(s: Seq<u32>) -> Seq<u8> {
    enc_count(s.len()) + enc_u32s(s)
}

pub proof fn lemma_u32s_inj(a: Seq<u32>, x: Seq<u8>, b: Seq<u32>, y: Seq<u8>)
    requires
        enc_u32s(a) + x == enc_u32s(b) + y,
        a.len() == b.len(),
    ensures
        a == b,
        x == y,
    decreases a.len(),
{
    if a.len() == 0 {
        assert(enc_u32s(a) =~= Seq::<u8>::empty());
        assert(enc_u32s(b) =~= Seq::<u8>::empty());
        assert(a =~= b);
        assert(enc_u32s(a) + x =~= x);
        assert(enc_u32s(b) + y =~= y);
    } else {
        lemma_enc_seq_front(a, u32_enc());
        lemma_enc_seq_front(b, u32_enc());
        assert(enc_u32s(a) + x =~= enc_u32(a[0]) + (enc_u32s(a.drop_first()) + x));
        assert(enc_u32s(b) + y =~= enc_u32(b[0]) + (enc_u32s(b.drop_first()) + y));
        lemma_u32_inj(a[0], enc_u32s(a.drop_first()) + x, b[0], enc_u32s(b.drop_first()) + y);
        lemma_u32s_inj(a.drop_first(), x, b.drop_first(), y);
        assert(a =~= seq![a[0]] + a.drop_first());
        assert(b =~= seq![b[0]] + b.drop_first());
    }
}

pub proof fn lemma_indices_inj(a: Seq<u32>, x: Seq<u8>, b: Seq<u32>, y: Seq<u8>)
    requires
        enc_indices(a) + x == enc_indices(b) + y,
        a.len() <= u32::MAX,
        b.len() <= u32::MAX,
    ensures
        a == b,
        x == y,
{
    assert(enc_indices(a) + x =~= enc_count(a.len()) + (enc_u32s(a) + x));
    assert(enc_indices(b) + y =~= enc_count(b.len()) + (enc_u32s(b) + y));
    lemma_count_inj(a.len(), enc_u32s(a) + x, b.len(), enc_u32s(b) + y);
    lemma_u32s_inj(a, x, b, y);
}

#[verifier::spinoff_prover]
#[verifier::rlimit(30)]
pub proof fn lemma_target_inj(a: TargetModel, x: Seq<u8>, b: TargetModel, y: Seq<u8>)
    requires
        enc_target(a) + x == enc_target(b) + y,
        dec_target(a),
        dec_target(b),
    ensures
        a == b,
        x == y,
{
    let ka: u8 = match a {
        TargetModel::Property(_, _) => 0u8,
        TargetModel::Dynamic(_, _) => 2u8,
    };
    let kb: u8 = match b {
        TargetModel::Property(_, _) => 0u8,
        TargetModel::Dynamic(_, _) => 2u8,
    };
    let ra: Seq<u8> = match a {
        TargetModel::Property(c, o) => enc_u16(c) + enc_indices(o) + x,
        TargetModel::Dynamic(c, n) => enc_u16(c) + enc_indices(Seq::empty()) + enc_string(n) + x,
    };
    let rb: Seq<u8> = match b {
        TargetModel::Property(c, o) => enc_u16(c) + enc_indices(o) + y,
        TargetModel::Dynamic(c, n) => enc_u16(c) + enc_indices(Seq::empty()) + enc_string(n) + y,
    };
    assert(enc_u32s(Seq::<u32>::empty()) =~= Seq::<u8>::empty());
    assert(enc_target(a) + x =~= enc_u8(ka) + ra);
    assert(enc_target(b) + y =~= enc_u8(kb) + rb);
    lemma_u8_inj(ka, ra, kb, rb);
    match a {
        TargetModel::Property(ca, oa) => {
            if let TargetModel::Property(cb, ob) = b {
                assert(ra =~= enc_u16(ca) + (enc_indices(oa) + x));
                assert(rb =~= enc_u16(cb) + (enc_indices(ob) + y));
                lemma_u16_inj(ca, enc_indices(oa) + x, cb, enc_indices(ob) + y);
                lemma_indices_inj(oa, x, ob, y);
            }
        },
        TargetModel::Dynamic(ca, na) => {
            if let TargetModel::Dynamic(cb, nb) = b {
                assert(ra =~= enc_u16(ca) + (enc_indices(Seq::empty()) + enc_string(na) + x));
                assert(rb =~= enc_u16(cb) + (enc_indices(Seq::empty()) + enc_string(nb) + y));
                lemma_u16_inj(ca, enc_indices(Seq::empty()) + enc_string(na) + x, cb, enc_indices(Seq::empty())
                    + enc_string(nb) + y);
                assert(enc_indices(Seq::empty()) + enc_string(na) + x =~= enc_indices(Seq::empty()) + (enc_string(na)
                    + x));
                assert(enc_indices(Seq::empty()) + enc_string(nb) + y =~= enc_indices(Seq::empty()) + (enc_string(nb)
                    + y));
                lemma_split_eq(enc_indices(Seq::empty()), enc_string(na) + x, enc_indices(Seq::empty()), enc_string(nb)
                    + y);
                lemma_string_inj(na, x, nb, y);
            }
        },
    }
}

/// Read a count of items of at least `min_bytes` each, at most `maximum`.
fn bounded_count(rd: &mut WorldBinaryReader, min_bytes: usize, maximum: usize) -> (r: Result<usize, String>)
    requires
        old(rd).wf(),
    ensures
        final(rd).wf(),
        final(rd).bytes == old(rd).bytes,
        final(rd).budget == old(rd).budget,
        r matches Ok(n) ==> n <= maximum && n <= u32::MAX && old(rd).rest() == enc_count(n as nat) + final(rd).rest() && n
            * min_bytes <= final(rd).rest().len(),
        forall|m: nat, tail: Seq<u8>| #[trigger] splits(old(rd).rest(), enc_count(m), tail) && m <= u32::MAX && m
            * min_bytes <= tail.len() && m <= maximum ==> r == Ok::<usize, String>(m as usize) && final(rd).rest() == tail,
{
    let count = rd.count(min_bytes)?;
    if count > maximum {
        return Err("Saved animation collection limit".to_owned());
    }
    Ok(count)
}

/// Read at most `MAX_INDICES` u32 indices, claiming their storage.
fn decode_indices(rd: &mut WorldBinaryReader) -> (r: Result<Vec<u32>, String>)
    requires
        old(rd).wf(),
    ensures
        final(rd).wf(),
        final(rd).bytes == old(rd).bytes,
        r matches Ok(v) ==> splits(old(rd).rest(), enc_indices(v@), final(rd).rest()) && v@.len() <= MAX_INDICES
            && final(rd).budget == old(rd).budget - INDEX_CLAIM * v@.len(),
        forall|mi: Seq<u32>, tail: Seq<u8>| #[trigger] splits(old(rd).rest(), enc_indices(mi), tail) && mi.len()
            <= MAX_INDICES && INDEX_CLAIM * mi.len() <= old(rd).budget ==> (r matches Ok(v) && v@ == mi
            && final(rd).rest() == tail),
{
    proof {
        lemma_enc_lens();
    }
    let ghost r0 = old(rd).rest();
    let ghost b0 = old(rd).budget;
    let ghost complete = exists|mi: Seq<u32>, tail: Seq<u8>| #[trigger] splits(r0, enc_indices(mi), tail) && mi.len()
        <= MAX_INDICES && INDEX_CLAIM * mi.len() <= b0;
    let ghost (mi, tail) = choose|mi: Seq<u32>, tail: Seq<u8>| #[trigger] splits(r0, enc_indices(mi), tail) && mi.len()
        <= MAX_INDICES && INDEX_CLAIM * mi.len() <= b0;
    proof {
        if complete {
            lemma_enc_u32s_len(mi);
            assert(r0 =~= enc_count(mi.len()) + (enc_u32s(mi) + tail));
            assert(splits(r0, enc_count(mi.len()), enc_u32s(mi) + tail));
        }
    }
    let count = bounded_count(rd, INDEX_CLAIM, MAX_INDICES)?;
    let ghost r3 = rd.rest();
    rd.claim(count * INDEX_CLAIM)?;
    let mut indices: Vec<u32> = Vec::new();
    let mut i: usize = 0;
    proof {
        assert(indices@ =~= Seq::<u32>::empty());
        assert(r3 =~= enc_u32s(indices@) + rd.rest());
        if complete {
            assert(mi.skip(0) =~= mi);
        }
    }
    while i < count
        invariant
            rd.wf(),
            rd.bytes == old(rd).bytes,
            r0 == old(rd).rest(),
            b0 == old(rd).budget,
            complete == exists|mi2: Seq<u32>, tail2: Seq<u8>| #[trigger] splits(r0, enc_indices(mi2), tail2) && mi2.len()
                <= MAX_INDICES && INDEX_CLAIM * mi2.len() <= b0,
            rd.budget == b0 - count * INDEX_CLAIM,
            i <= count,
            indices@.len() == i,
            splits(r3, enc_u32s(indices@), rd.rest()),
            complete ==> count == mi.len() && indices@ == mi.take(i as int) && rd.rest() == enc_u32s(mi.skip(i as int))
                + tail,
        decreases count - i,
    {
        let ghost ri = rd.rest();
        proof {
            lemma_enc_lens();
            if complete {
                lemma_enc_seq_front(mi.skip(i as int), u32_enc());
                assert(mi.skip(i as int)[0] == mi[i as int]);
                assert(mi.skip(i as int).drop_first() =~= mi.skip(i + 1));
                assert(ri =~= enc_u32(mi[i as int]) + (enc_u32s(mi.skip(i + 1)) + tail));
                assert(splits(ri, enc_u32(mi[i as int]), enc_u32s(mi.skip(i + 1)) + tail));
            }
        }
        let x = rd.u32()?;
        proof {
            lemma_enc_seq_push(indices@, x, u32_enc());
        }
        indices.push(x);
        proof {
            assert(r3 =~= enc_u32s(indices@) + rd.rest());
        }
        i = i + 1;
        proof {
            if complete {
                assert(indices@ =~= mi.take(i as int));
            }
        }
    }
    proof {
        assert(r0 =~= enc_indices(indices@) + rd.rest());
        if complete {
            assert(indices@ =~= mi);
            assert(mi.skip(count as int) =~= Seq::<u32>::empty());
            assert(enc_u32s(Seq::<u32>::empty()) =~= Seq::<u8>::empty());
            assert(rd.rest() =~= tail);
        }
        assert forall|mi2: Seq<u32>, tail2: Seq<u8>| #[trigger] splits(r0, enc_indices(mi2), tail2) && mi2.len()
            <= MAX_INDICES && INDEX_CLAIM * mi2.len() <= b0 implies indices@ == mi2 && rd.rest() == tail2 by {
            lemma_indices_inj(indices@, rd.rest(), mi2, tail2);
        }
    }
    Ok(indices)
}

/// Read a target: kind, component, indices, then a dynamic property's name.
#[verifier::rlimit(30)]
pub fn decode_target(rd: &mut WorldBinaryReader) -> (r: Result<AnimationTrackTarget, String>)
    requires
        old(rd).wf(),
    ensures
        final(rd).wf(),
        final(rd).bytes == old(rd).bytes,
        r matches Ok(t) ==> splits(old(rd).rest(), enc_target(t@), final(rd).rest()) && dec_target(t@)
            && final(rd).budget == old(rd).budget - claim_target(t@),
        forall|m: TargetModel, tail: Seq<u8>| #[trigger] splits(old(rd).rest(), enc_target(m), tail) && dec_target(m)
            && claim_target(m) <= old(rd).budget ==> (r matches Ok(t) && t@ == m && final(rd).rest() == tail),
{
    proof {
        lemma_enc_lens();
    }
    let ghost r0 = old(rd).rest();
    let ghost b0 = old(rd).budget;
    let ghost complete = exists|m: TargetModel, tail: Seq<u8>| #[trigger] splits(r0, enc_target(m), tail) && dec_target(m)
        && claim_target(m) <= b0;
    let ghost (m, tail) = choose|m: TargetModel, tail: Seq<u8>| #[trigger] splits(r0, enc_target(m), tail) && dec_target(m)
        && claim_target(m) <= b0;
    let ghost mk: u8 = match m {
        TargetModel::Property(_, _) => 0u8,
        TargetModel::Dynamic(_, _) => 2u8,
    };
    let ghost mc: u16 = match m {
        TargetModel::Property(c, _) => c,
        TargetModel::Dynamic(c, _) => c,
    };
    let ghost mi: Seq<u32> = match m {
        TargetModel::Property(_, offsets) => offsets,
        TargetModel::Dynamic(_, _) => Seq::empty(),
    };
    let ghost after: Seq<u8> = match m {
        TargetModel::Property(_, _) => tail,
        TargetModel::Dynamic(_, name) => enc_string(name) + tail,
    };
    proof {
        if complete {
            assert(enc_u32s(Seq::<u32>::empty()) =~= Seq::<u8>::empty());
            assert(r0 =~= enc_u8(mk) + (enc_u16(mc) + enc_indices(mi) + after));
            assert(splits(r0, enc_u8(mk), enc_u16(mc) + enc_indices(mi) + after));
        }
    }
    let kind = rd.u8()?;
    let ghost r1 = rd.rest();
    proof {
        if complete {
            assert(r1 =~= enc_u16(mc) + (enc_indices(mi) + after));
            assert(splits(r1, enc_u16(mc), enc_indices(mi) + after));
        }
    }
    let component = rd.u16()?;
    let ghost r2 = rd.rest();
    proof {
        if complete {
            assert(splits(r2, enc_indices(mi), after));
        }
    }
    let indices = decode_indices(rd)?;
    let ghost r3 = rd.rest();
    if kind == 0 {
        let t = AnimationTrackTarget::AnimationProperty(AnimationProperty { component, offsets: indices });
        proof {
            assert(r0 =~= enc_target(t@) + rd.rest());
            assert forall|m2: TargetModel, tail2: Seq<u8>| #[trigger] splits(r0, enc_target(m2), tail2) && dec_target(m2)
                && claim_target(m2) <= b0 implies t@ == m2 && rd.rest() == tail2 by {
                lemma_target_inj(t@, rd.rest(), m2, tail2);
            }
        }
        Ok(t)
    } else if kind == 2 && indices.len() == 0 {
        proof {
            if complete {
                if let TargetModel::Dynamic(_, name) = m {
                    assert(splits(r3, enc_string(name), tail));
                }
            }
        }
        let name = rd.string()?;
        let t = AnimationTrackTarget::DynamicProperty { component, name };
        proof {
            assert(indices@ =~= Seq::<u32>::empty());
            assert(enc_u32s(indices@) =~= Seq::<u8>::empty());
            assert(r0 =~= enc_target(t@) + rd.rest());
            assert forall|m2: TargetModel, tail2: Seq<u8>| #[trigger] splits(r0, enc_target(m2), tail2) && dec_target(m2)
                && claim_target(m2) <= b0 implies t@ == m2 && rd.rest() == tail2 by {
                lemma_target_inj(t@, rd.rest(), m2, tail2);
            }
        }
        Ok(t)
    } else {
        Err("Invalid saved transition target".to_owned())
    }
}

/// Read a boolean byte; only zero and one are accepted.
fn decode_bool(rd: &mut WorldBinaryReader) -> (r: Result<bool, String>)
    requires
        old(rd).wf(),
    ensures
        final(rd).wf(),
        final(rd).bytes == old(rd).bytes,
        final(rd).budget == old(rd).budget,
        r matches Ok(b) ==> splits(old(rd).rest(), enc_bool(b), final(rd).rest()),
        forall|b: bool, tail: Seq<u8>| #[trigger] splits(old(rd).rest(), enc_bool(b), tail) ==> (r == Ok::<bool, String>(b)
            && final(rd).rest() == tail),
{
    let ghost r0 = old(rd).rest();
    proof {
        assert forall|b: bool, tail: Seq<u8>| #[trigger] splits(r0, enc_bool(b), tail) implies splits(
            r0,
            enc_u8(if b { 1u8 } else { 0u8 }),
            tail,
        ) by {}
    }
    match rd.u8()? {
        0 => Ok(false),
        1 => Ok(true),
        _ => Err("Invalid saved animation boolean".to_owned()),
    }
}

/// Drivers the decoder rebuilds in a format version.
pub open spec fn dec_driver(d: DriverModel, version: u32) -> bool {
    &&& encode_utf8(d.source).len() <= u32::MAX
    &&& dec_target(d.property)
    &&& (version < 3 ==> !d.repeat)
}

/// Allocation claimed while decoding a driver.
pub open spec fn claim_driver(d: DriverModel) -> nat {
    claim_target(d.property)
}

pub proof fn lemma_cat3(a: Seq<u8>, b: Seq<u8>, c: Seq<u8>, x: Seq<u8>)
    ensures
        (a + b + c) + x == a + (b + (c + x)),
{
    assert((a + b + c) + x =~= a + (b + (c + x)));
}

pub proof fn lemma_cat4(a: Seq<u8>, b: Seq<u8>, c: Seq<u8>, d: Seq<u8>, x: Seq<u8>)
    ensures
        (a + b + c + d) + x == a + (b + (c + (d + x))),
{
    assert((a + b + c + d) + x =~= a + (b + (c + (d + x))));
}

pub proof fn lemma_driver_ref_inj(a: DriverModel, x: Seq<u8>, b: DriverModel, y: Seq<u8>)
    requires
        enc_driver_ref(a) + x == enc_driver_ref(b) + y,
    ensures
        a.variant == b.variant,
        a.track == b.track,
        a.target == b.target,
        x == y,
{
    lemma_cat3(enc_u32(a.variant), enc_u32(a.track), enc_u64(a.target.bits), x);
    lemma_cat3(enc_u32(b.variant), enc_u32(b.track), enc_u64(b.target.bits), y);
    lemma_u32_inj(a.variant, enc_u32(a.track) + (enc_u64(a.target.bits) + x), b.variant, enc_u32(b.track) + (enc_u64(
        b.target.bits,
    ) + y));
    lemma_u32_inj(a.track, enc_u64(a.target.bits) + x, b.track, enc_u64(b.target.bits) + y);
    lemma_u64_inj(a.target.bits, x, b.target.bits, y);
}

pub open spec fn enc_repeat(d: DriverModel, version: u32) -> Seq<u8> {
    if version >= 3 {
        enc_bool(d.repeat)
    } else {
        Seq::empty()
    }
}

pub proof fn lemma_driver_blend_inj(a: DriverModel, x: Seq<u8>, b: DriverModel, y: Seq<u8>, version: u32)
    requires
        enc_driver_blend(a, version) + x == enc_driver_blend(b, version) + y,
        version < 3 ==> !a.repeat && !b.repeat,
    ensures
        a.weight == b.weight,
        a.additive == b.additive,
        a.reference_time == b.reference_time,
        a.repeat == b.repeat,
        x == y,
{
    assert(enc_driver_blend(a, version) == enc_u32(a.weight) + enc_bool(a.additive) + enc_u32(a.reference_time)
        + enc_repeat(a, version));
    assert(enc_driver_blend(b, version) == enc_u32(b.weight) + enc_bool(b.additive) + enc_u32(b.reference_time)
        + enc_repeat(b, version));
    lemma_cat4(enc_u32(a.weight), enc_bool(a.additive), enc_u32(a.reference_time), enc_repeat(a, version), x);
    lemma_cat4(enc_u32(b.weight), enc_bool(b.additive), enc_u32(b.reference_time), enc_repeat(b, version), y);
    lemma_u32_inj(a.weight, enc_bool(a.additive) + (enc_u32(a.reference_time) + (enc_repeat(a, version) + x)), b.weight,
        enc_bool(b.additive) + (enc_u32(b.reference_time) + (enc_repeat(b, version) + y)));
    lemma_bool_inj(a.additive, enc_u32(a.reference_time) + (enc_repeat(a, version) + x), b.additive, enc_u32(
        b.reference_time,
    ) + (enc_repeat(b, version) + y));
    lemma_u32_inj(a.reference_time, enc_repeat(a, version) + x, b.reference_time, enc_repeat(b, version) + y);
    if version >= 3 {
        lemma_bool_inj(a.repeat, x, b.repeat, y);
    } else {
        assert(enc_repeat(a, version) + x =~= x);
        assert(enc_repeat(b, version) + y =~= y);
    }
}

pub proof fn lemma_driver_inj(a: DriverModel, x: Seq<u8>, b: DriverModel, y: Seq<u8>, version: u32)
    requires
        enc_driver(a, version) + x == enc_driver(b, version) + y,
        dec_driver(a, version),
        dec_driver(b, version),
    ensures
        a == b,
        x == y,
{
    lemma_cat4(enc_string(a.source), enc_driver_ref(a), enc_target(a.property), enc_driver_blend(a, version), x);
    lemma_cat4(enc_string(b.source), enc_driver_ref(b), enc_target(b.property), enc_driver_blend(b, version), y);
    lemma_string_inj(a.source, enc_driver_ref(a) + (enc_target(a.property) + (enc_driver_blend(a, version) + x)),
        b.source, enc_driver_ref(b) + (enc_target(b.property) + (enc_driver_blend(b, version) + y)));
    lemma_driver_ref_inj(a, enc_target(a.property) + (enc_driver_blend(a, version) + x), b, enc_target(b.property) + (
    enc_driver_blend(b, version) + y));
    lemma_target_inj(a.property, enc_driver_blend(a, version) + x, b.property, enc_driver_blend(b, version) + y);
    lemma_driver_blend_inj(a, x, b, y, version);
}

/// Read the clip reference of a driver.
fn decode_driver_ref(rd: &mut WorldBinaryReader) -> (r: Result<(u32, u32, u64), String>)
    requires
        old(rd).wf(),
    ensures
        final(rd).wf(),
        final(rd).bytes == old(rd).bytes,
        final(rd).budget == old(rd).budget,
        r matches Ok(v) ==> splits(old(rd).rest(), enc_u32(v.0) + enc_u32(v.1) + enc_u64(v.2), final(rd).rest()),
        forall|m: DriverModel, tail: Seq<u8>| #[trigger] splits(old(rd).rest(), enc_driver_ref(m), tail) ==> (r matches Ok(
            v,
        ) && v == (m.variant, m.track, m.target.bits) && final(rd).rest() == tail),
{
    let ghost r0 = old(rd).rest();
    proof {
        assert forall|m: DriverModel, tail: Seq<u8>| #[trigger] splits(r0, enc_driver_ref(m), tail) implies splits(
            r0,
            enc_u32(m.variant),
            enc_u32(m.track) + (enc_u64(m.target.bits) + tail),
        ) by {
            lemma_cat3(enc_u32(m.variant), enc_u32(m.track), enc_u64(m.target.bits), tail);
        }
    }
    let variant = rd.u32()?;
    let ghost r1 = rd.rest();
    proof {
        assert forall|m: DriverModel, tail: Seq<u8>| #[trigger] splits(r0, enc_driver_ref(m), tail) implies splits(
            r1,
            enc_u32(m.track),
            enc_u64(m.target.bits) + tail,
        ) by {
            lemma_cat3(enc_u32(m.variant), enc_u32(m.track), enc_u64(m.target.bits), tail);
        }
    }
    let track = rd.u32()?;
    let ghost r2 = rd.rest();
    proof {
        assert forall|m: DriverModel, tail: Seq<u8>| #[trigger] splits(r0, enc_driver_ref(m), tail) implies splits(
            r2,
            enc_u64(m.target.bits),
            tail,
        ) by {
            lemma_cat3(enc_u32(m.variant), enc_u32(m.track), enc_u64(m.target.bits), tail);
        }
    }
    let bits = rd.u64()?;
    proof {
        lemma_cat3(enc_u32(variant), enc_u32(track), enc_u64(bits), rd.rest());
    }
    Ok((variant, track, bits))
}

/// Read the blend settings of a driver.
fn decode_driver_blend(rd: &mut WorldBinaryReader, version: u32) -> (r: Result<(u32, bool, u32, bool), String>)
    requires
        old(rd).wf(),
    ensures
        final(rd).wf(),
        final(rd).bytes == old(rd).bytes,
        final(rd).budget == old(rd).budget,
        r matches Ok(v) ==> (version < 3 ==> !v.3) && splits(
            old(rd).rest(),
            enc_u32(v.0) + enc_bool(v.1) + enc_u32(v.2) + (if version >= 3 {
                enc_bool(v.3)
            } else {
                Seq::empty()
            }),
            final(rd).rest(),
        ),
        forall|m: DriverModel, tail: Seq<u8>| #[trigger] splits(old(rd).rest(), enc_driver_blend(m, version), tail) && (
        version < 3 ==> !m.repeat) ==> (r matches Ok(v) && v == (m.weight, m.additive, m.reference_time, m.repeat)
            && final(rd).rest() == tail),
{
    let ghost r0 = old(rd).rest();
    proof {
        assert forall|m: DriverModel, tail: Seq<u8>| #[trigger] splits(r0, enc_driver_blend(m, version), tail) implies splits(
            r0,
            enc_u32(m.weight),
            enc_bool(m.additive) + (enc_u32(m.reference_time) + (enc_repeat(m, version) + tail)),
        ) by {
            lemma_cat4(enc_u32(m.weight), enc_bool(m.additive), enc_u32(m.reference_time), enc_repeat(m, version), tail);
        }
    }
    let weight = rd.u32()?;
    let ghost r1 = rd.rest();
    proof {
        assert forall|m: DriverModel, tail: Seq<u8>| #[trigger] splits(r0, enc_driver_blend(m, version), tail) implies splits(
            r1,
            enc_bool(m.additive),
            enc_u32(m.reference_time) + (enc_repeat(m, version) + tail),
        ) by {
            lemma_cat4(enc_u32(m.weight), enc_bool(m.additive), enc_u32(m.reference_time), enc_repeat(m, version), tail);
        }
    }
    let additive = decode_bool(rd)?;
    let ghost r2 = rd.rest();
    proof {
        assert forall|m: DriverModel, tail: Seq<u8>| #[trigger] splits(r0, enc_driver_blend(m, version), tail) implies splits(
            r2,
            enc_u32(m.reference_time),
            enc_repeat(m, version) + tail,
        ) by {
            lemma_cat4(enc_u32(m.weight), enc_bool(m.additive), enc_u32(m.reference_time), enc_repeat(m, version), tail);
        }
    }
    let reference_time = rd.u32()?;
    let ghost r3 = rd.rest();
    let repeat = if version >= 3 {
        proof {
            assert forall|m: DriverModel, tail: Seq<u8>| #[trigger] splits(r0, enc_driver_blend(m, version), tail) implies splits(
                r3,
                enc_bool(m.repeat),
                tail,
            ) by {
                lemma_cat4(enc_u32(m.weight), enc_bool(m.additive), enc_u32(m.reference_time), enc_repeat(m, version), tail);
            }
        }
        decode_bool(rd)?
    } else {
        proof {
            assert forall|m: DriverModel, tail: Seq<u8>| #[trigger] splits(r0, enc_driver_blend(m, version), tail) implies r3
                == tail by {
                lemma_cat4(enc_u32(m.weight), enc_bool(m.additive), enc_u32(m.reference_time), enc_repeat(m, version), tail);
                assert(enc_repeat(m, version) + tail =~= tail);
            }
        }
        false
    };
    proof {
        let rep: Seq<u8> = if version >= 3 {
            enc_bool(repeat)
        } else {
            Seq::empty()
        };
        if version < 3 {
            assert(r3 =~= rep + rd.rest());
        }
        lemma_cat4(enc_u32(weight), enc_bool(additive), enc_u32(reference_time), rep, rd.rest());
    }
    Ok((weight, additive, reference_time, repeat))
}

/// Read one driver description.
fn decode_driver(rd: &mut WorldBinaryReader, version: u32) -> (r: Result<AnimationDriverDescription, String>)
    requires
        old(rd).wf(),
    ensures
        final(rd).wf(),
        final(rd).bytes == old(rd).bytes,
        r matches Ok(d) ==> splits(old(rd).rest(), enc_driver(d@, version), final(rd).rest()) && dec_driver(d@, version)
            && final(rd).budget == old(rd).budget - claim_driver(d@),
        forall|m: DriverModel, tail: Seq<u8>| #[trigger] splits(old(rd).rest(), enc_driver(m, version), tail) && dec_driver(
            m,
            version,
        ) && claim_driver(m) <= old(rd).budget ==> (r matches Ok(d) && d@ == m && final(rd).rest() == tail),
{
    let ghost r0 = old(rd).rest();
    let ghost b0 = old(rd).budget;
    let ghost complete = exists|m: DriverModel, tail: Seq<u8>| #[trigger] splits(r0, enc_driver(m, version), tail)
        && dec_driver(m, version) && claim_driver(m) <= b0;
    let ghost (m, tail) = choose|m: DriverModel, tail: Seq<u8>| #[trigger] splits(r0, enc_driver(m, version), tail)
        && dec_driver(m, version) && claim_driver(m) <= b0;
    proof {
        if complete {
            lemma_cat4(enc_string(m.source), enc_driver_ref(m), enc_target(m.property), enc_driver_blend(m, version), tail);
            assert(splits(r0, enc_string(m.source), enc_driver_ref(m) + (enc_target(m.property) + (enc_driver_blend(
                m,
                version,
            ) + tail))));
        }
    }
    let source = rd.string()?;
    proof {
        if complete {
            assert(splits(rd.rest(), enc_driver_ref(m), enc_target(m.property) + (enc_driver_blend(m, version) + tail)));
        }
    }
    let (variant, track, bits) = decode_driver_ref(rd)?;
    proof {
        if complete {
            assert(splits(rd.rest(), enc_target(m.property), enc_driver_blend(m, version) + tail));
        }
    }
    let property = decode_target(rd)?;
    proof {
        if complete {
            assert(splits(rd.rest(), enc_driver_blend(m, version), tail));
        }
    }
    let (weight, additive, reference_time, repeat) = decode_driver_blend(rd, version)?;
    let d = AnimationDriverDescription {
        source,
        variant,
        track,
        target: EntityId { bits },
        property,
        weight,
        additive,
        reference_time,
        repeat,
    };
    proof {
        assert(enc_driver_ref(d@) == enc_u32(variant) + enc_u32(track) + enc_u64(bits));
        lemma_cat4(enc_string(d@.source), enc_driver_ref(d@), enc_target(d@.property), enc_driver_blend(d@, version), rd.rest());
        assert forall|m2: DriverModel, tail2: Seq<u8>| #[trigger] splits(r0, enc_driver(m2, version), tail2) && dec_driver(
            m2,
            version,
        ) && claim_driver(m2) <= b0 implies d@ == m2 && rd.rest() == tail2 by {
            lemma_driver_inj(d@, rd.rest(), m2, tail2, version);
        }
    }
    Ok(d)
}

pub open spec fn claim_driver_fn() -> spec_fn(DriverModel) -> nat {
    |d: DriverModel| claim_driver(d)
}

/// Minimum encoded size of a driver, used to bound its count.
pub const DRIVER_MIN_BYTES: usize = 32;

/// Maximum drivers of a decoded controller.
pub const MAX_DRIVERS: usize = 256;

pub proof fn lemma_driver_len(d: DriverModel, version: u32)
    ensures
        enc_driver(d, version).len() >= DRIVER_MIN_BYTES,
{
    lemma_enc_lens();
    match d.property {
        TargetModel::Property(_, o) => {
            lemma_enc_u32s_len(o);
        },
        TargetModel::Dynamic(_, _) => {},
    }
}

#[verifier::spinoff_prover]
#[verifier::rlimit(40)]
pub proof fn lemma_drivers_inj(a: Seq<DriverModel>, x: Seq<u8>, b: Seq<DriverModel>, y: Seq<u8>, version: u32)
    requires
        enc_seq(a, driver_enc(version)) + x == enc_seq(b, driver_enc(version)) + y,
        a.len() == b.len(),
        forall|i: int| 0 <= i < a.len() ==> dec_driver(#[trigger] a[i], version),
        forall|i: int| 0 <= i < b.len() ==> dec_driver(#[trigger] b[i], version),
    ensures
        a == b,
        x == y,
    decreases a.len(),
{
    if a.len() == 0 {
        assert(enc_seq(a, driver_enc(version)) + x =~= x);
        assert(enc_seq(b, driver_enc(version)) + y =~= y);
        assert(a =~= b);
    } else {
        lemma_enc_seq_front(a, driver_enc(version));
        lemma_enc_seq_front(b, driver_enc(version));
        assert(enc_seq(a, driver_enc(version)) + x =~= enc_driver(a[0], version) + (enc_seq(a.drop_first(), driver_enc(version)) + x));
        assert(enc_seq(b, driver_enc(version)) + y =~= enc_driver(b[0], version) + (enc_seq(b.drop_first(), driver_enc(version)) + y));
        assert(dec_driver(a[0], version));
        assert(dec_driver(b[0], version));
        lemma_driver_inj(a[0], enc_seq(a.drop_first(), driver_enc(version)) + x, b[0], enc_seq(b.drop_first(), driver_enc(
            version,
        )) + y, version);
        assert forall|i: int| 0 <= i < a.drop_first().len() implies dec_driver(#[trigger] a.drop_first()[i], version) by {
            assert(a.drop_first()[i] == a[i + 1]);
        }
        assert forall|i: int| 0 <= i < b.drop_first().len() implies dec_driver(#[trigger] b.drop_first()[i], version) by {
            assert(b.drop_first()[i] == b[i + 1]);
        }
        lemma_drivers_inj(a.drop_first(), x, b.drop_first(), y, version);
        assert(a =~= seq![a[0]] + a.drop_first());
        assert(b =~= seq![b[0]] + b.drop_first());
    }
}

/// Read `count` drivers.
fn decode_drivers(rd: &mut WorldBinaryReader, count: usize, version: u32) -> (r: Result<Vec<AnimationDriverDescription>, String>)
    requires
        old(rd).wf(),
    ensures
        final(rd).wf(),
        final(rd).bytes == old(rd).bytes,
        r matches Ok(ds) ==> ds@.len() == count && splits(
            old(rd).rest(),
            enc_seq(driver_models(ds@), driver_enc(version)),
            final(rd).rest(),
        ) && (forall|i: int| 0 <= i < ds@.len() ==> dec_driver(#[trigger] driver_models(ds@)[i], version))
            && final(rd).budget == old(rd).budget - sum_seq(driver_models(ds@), claim_driver_fn()),
        forall|ms: Seq<DriverModel>, tail: Seq<u8>| #[trigger] splits(old(rd).rest(), enc_seq(ms, driver_enc(version)), tail)
            && ms.len() == count && (forall|i: int| 0 <= i < ms.len() ==> dec_driver(#[trigger] ms[i], version))
            && sum_seq(ms, claim_driver_fn()) <= old(rd).budget ==> (r matches Ok(ds) && driver_models(ds@) == ms
            && final(rd).rest() == tail),
{
    let ghost r0 = old(rd).rest();
    let ghost b0 = old(rd).budget;
    let ghost complete = exists|ms: Seq<DriverModel>, tail: Seq<u8>| #[trigger] splits(r0, enc_seq(ms, driver_enc(version)), tail)
        && ms.len() == count && (forall|i: int| 0 <= i < ms.len() ==> dec_driver(#[trigger] ms[i], version))
        && sum_seq(ms, claim_driver_fn()) <= b0;
    let ghost (ms, tail) = choose|ms: Seq<DriverModel>, tail: Seq<u8>| #[trigger] splits(r0, enc_seq(ms, driver_enc(version)), tail)
        && ms.len() == count && (forall|i: int| 0 <= i < ms.len() ==> dec_driver(#[trigger] ms[i], version))
        && sum_seq(ms, claim_driver_fn()) <= b0;
    let mut out: Vec<AnimationDriverDescription> = Vec::new();
    let mut i: usize = 0;
    proof {
        assert(driver_models(out@) =~= Seq::<DriverModel>::empty());
        assert(r0 =~= enc_seq(driver_models(out@), driver_enc(version)) + rd.rest());
        if complete {
            assert(ms.skip(0) =~= ms);
        }
    }
    while i < count
        invariant
            rd.wf(),
            rd.bytes == old(rd).bytes,
            r0 == old(rd).rest(),
            b0 == old(rd).budget,
            i <= count,
            out@.len() == i,
            splits(r0, enc_seq(driver_models(out@), driver_enc(version)), rd.rest()),
            forall|k: int| 0 <= k < out@.len() ==> dec_driver(#[trigger] driver_models(out@)[k], version),
            rd.budget == b0 - sum_seq(driver_models(out@), claim_driver_fn()),
            complete ==> ms.len() == count && driver_models(out@) == ms.take(i as int) && rd.rest() == enc_seq(
                ms.skip(i as int),
                driver_enc(version),
            ) + tail && sum_seq(ms, claim_driver_fn()) <= b0 && (forall|k: int| 0 <= k < ms.len() ==> dec_driver(
                #[trigger] ms[k],
                version,
            )),
            complete == exists|ms2: Seq<DriverModel>, tail2: Seq<u8>| #[trigger] splits(r0, enc_seq(ms2, driver_enc(version)), tail2)
                && ms2.len() == count && (forall|k: int| 0 <= k < ms2.len() ==> dec_driver(#[trigger] ms2[k], version))
                && sum_seq(ms2, claim_driver_fn()) <= b0,
        decreases count - i,
    {
        let ghost ri = rd.rest();
        let ghost bi = rd.budget;
        proof {
            if complete {
                lemma_enc_seq_front(ms.skip(i as int), driver_enc(version));
                assert(ms.skip(i as int)[0] == ms[i as int]);
                assert(ms.skip(i as int).drop_first() =~= ms.skip(i + 1));
                assert(ri =~= enc_driver(ms[i as int], version) + (enc_seq(ms.skip(i + 1), driver_enc(version)) + tail));
                assert(splits(ri, enc_driver(ms[i as int], version), enc_seq(ms.skip(i + 1), driver_enc(version)) + tail));
                assert(ms.take(i + 1) =~= ms.take(i as int).push(ms[i as int]));
                lemma_sum_seq_push(ms.take(i as int), ms[i as int], claim_driver_fn());
                lemma_sum_seq_prefix(ms, i + 1, claim_driver_fn());
                assert(dec_driver(ms[i as int], version));
            }
        }
        let d = decode_driver(rd, version)?;
        let ghost before = out@;
        proof {
            lemma_enc_seq_push(driver_models(before), d@, driver_enc(version));
            lemma_sum_seq_push(driver_models(before), d@, claim_driver_fn());
        }
        out.push(d);
        proof {
            assert(driver_models(out@) =~= driver_models(before).push(d@));
            assert(r0 =~= enc_seq(driver_models(out@), driver_enc(version)) + rd.rest());
            if complete {
                assert(driver_models(out@) =~= ms.take(i + 1));
            }
        }
        i = i + 1;
    }
    proof {
        if complete {
            assert(driver_models(out@) =~= ms);
            assert(ms.skip(count as int) =~= Seq::<DriverModel>::empty());
        }
        assert forall|ms2: Seq<DriverModel>, tail2: Seq<u8>| #[trigger] splits(r0, enc_seq(ms2, driver_enc(version)), tail2)
            && ms2.len() == count && (forall|k: int| 0 <= k < ms2.len() ==> dec_driver(#[trigger] ms2[k], version))
            && sum_seq(ms2, claim_driver_fn()) <= b0 implies driver_models(out@) == ms2 && rd.rest() == tail2 by {
            lemma_drivers_inj(driver_models(out@), rd.rest(), ms2, tail2, version);
        }
    }
    Ok(out)
}

pub proof fn lemma_cat5(a: Seq<u8>, b: Seq<u8>, c: Seq<u8>, d: Seq<u8>, e: Seq<u8>, x: Seq<u8>)
    ensures
        (a + b + c + d + e) + x == a + (b + (c + (d + (e + x)))),
{
    assert((a + b + c + d + e) + x =~= a + (b + (c + (d + (e + x)))));
}

pub proof fn lemma_clock_inj(a: ControllerModel, x: Seq<u8>, b: ControllerModel, y: Seq<u8>)
    requires
        enc_clock(a) + x == enc_clock(b) + y,
    ensures
        a.id == b.id,
        a.state == b.state,
        a.time == b.time,
        a.speed == b.speed,
        a.looping == b.looping,
        x == y,
{
    lemma_cat5(enc_u64(a.id.bits), enc_u8(status_tag(a.state)), enc_u64(a.time), enc_u32(a.speed), enc_bool(a.looping), x);
    lemma_cat5(enc_u64(b.id.bits), enc_u8(status_tag(b.state)), enc_u64(b.time), enc_u32(b.speed), enc_bool(b.looping), y);
    lemma_u64_inj(a.id.bits, enc_u8(status_tag(a.state)) + (enc_u64(a.time) + (enc_u32(a.speed) + (enc_bool(a.looping) + x))),
        b.id.bits, enc_u8(status_tag(b.state)) + (enc_u64(b.time) + (enc_u32(b.speed) + (enc_bool(b.looping) + y))));
    lemma_u8_inj(status_tag(a.state), enc_u64(a.time) + (enc_u32(a.speed) + (enc_bool(a.looping) + x)), status_tag(b.state),
        enc_u64(b.time) + (enc_u32(b.speed) + (enc_bool(b.looping) + y)));
    lemma_u64_inj(a.time, enc_u32(a.speed) + (enc_bool(a.looping) + x), b.time, enc_u32(b.speed) + (enc_bool(b.looping) + y));
    lemma_u32_inj(a.speed, enc_bool(a.looping) + x, b.speed, enc_bool(b.looping) + y);
    lemma_bool_inj(a.looping, x, b.looping, y);
}

/// Read a controller's identity, status, time, speed and looping flag.
fn decode_clock(rd: &mut WorldBinaryReader) -> (r: Result<(u64, AnimationPlaybackStatus, u64, u32, bool), String>)
    requires
        old(rd).wf(),
    ensures
        final(rd).wf(),
        final(rd).bytes == old(rd).bytes,
        final(rd).budget == old(rd).budget,
        r matches Ok(v) ==> splits(
            old(rd).rest(),
            enc_u64(v.0) + enc_u8(status_tag(v.1)) + enc_u64(v.2) + enc_u32(v.3) + enc_bool(v.4),
            final(rd).rest(),
        ),
        forall|m: ControllerModel, tail: Seq<u8>| #[trigger] splits(old(rd).rest(), enc_clock(m), tail) ==> (r matches Ok(v)
            && v == (m.id.bits, m.state, m.time, m.speed, m.looping) && final(rd).rest() == tail),
{
    let ghost r0 = old(rd).rest();
    proof {
        assert forall|m: ControllerModel, tail: Seq<u8>| #[trigger] splits(r0, enc_clock(m), tail) implies splits(
            r0,
            enc_u64(m.id.bits),
            enc_u8(status_tag(m.state)) + (enc_u64(m.time) + (enc_u32(m.speed) + (enc_bool(m.looping) + tail))),
        ) by {
            lemma_cat5(enc_u64(m.id.bits), enc_u8(status_tag(m.state)), enc_u64(m.time), enc_u32(m.speed), enc_bool(m.looping), tail);
        }
    }
    let id = rd.u64()?;
    let ghost r1 = rd.rest();
    proof {
        assert forall|m: ControllerModel, tail: Seq<u8>| #[trigger] splits(r0, enc_clock(m), tail) implies splits(
            r1,
            enc_u8(status_tag(m.state)),
            enc_u64(m.time) + (enc_u32(m.speed) + (enc_bool(m.looping) + tail)),
        ) by {
            lemma_cat5(enc_u64(m.id.bits), enc_u8(status_tag(m.state)), enc_u64(m.time), enc_u32(m.speed), enc_bool(m.looping), tail);
        }
    }
    let tag = rd.u8()?;
    let state = match tag {
        0 => AnimationPlaybackStatus::Stopped,
        1 => AnimationPlaybackStatus::Playing,
        2 => AnimationPlaybackStatus::Paused,
        3 => AnimationPlaybackStatus::Completed,
        _ => {
            return Err("Invalid saved animation status".to_owned());
        },
    };
    let ghost r2 = rd.rest();
    proof {
        assert forall|m: ControllerModel, tail: Seq<u8>| #[trigger] splits(r0, enc_clock(m), tail) implies splits(
            r2,
            enc_u64(m.time),
            enc_u32(m.speed) + (enc_bool(m.looping) + tail),
        ) && state == m.state by {
            lemma_cat5(enc_u64(m.id.bits), enc_u8(status_tag(m.state)), enc_u64(m.time), enc_u32(m.speed), enc_bool(m.looping), tail);
        }
    }
    let time = rd.u64()?;
    let ghost r3 = rd.rest();
    proof {
        assert forall|m: ControllerModel, tail: Seq<u8>| #[trigger] splits(r0, enc_clock(m), tail) implies splits(
            r3,
            enc_u32(m.speed),
            enc_bool(m.looping) + tail,
        ) by {
            lemma_cat5(enc_u64(m.id.bits), enc_u8(status_tag(m.state)), enc_u64(m.time), enc_u32(m.speed), enc_bool(m.looping), tail);
        }
    }
    let speed = rd.u32()?;
    let ghost r4 = rd.rest();
    proof {
        assert forall|m: ControllerModel, tail: Seq<u8>| #[trigger] splits(r0, enc_clock(m), tail) implies splits(
            r4,
            enc_bool(m.looping),
            tail,
        ) by {
            lemma_cat5(enc_u64(m.id.bits), enc_u8(status_tag(m.state)), enc_u64(m.time), enc_u32(m.speed), enc_bool(m.looping), tail);
        }
    }
    let looping = decode_bool(rd)?;
    proof {
        assert(status_tag(state) == tag);
        lemma_cat5(enc_u64(id), enc_u8(tag), enc_u64(time), enc_u32(speed), enc_bool(looping), rd.rest());
    }
    Ok((id, state, time, speed, looping))
}

pub proof fn lemma_crossfade_inj(a: AnimationControllerTransitionState, x: Seq<u8>, b: AnimationControllerTransitionState, y: Seq<u8>)
    requires
        enc_crossfade(a) + x == enc_crossfade(b) + y,
    ensures
        a == b,
        x == y,
{
    lemma_cat4(enc_u64(a.duration), enc_u64(a.elapsed), enc_u8(easing_tag(a.easing)), enc_bool(a.pending), x);
    lemma_cat4(enc_u64(b.duration), enc_u64(b.elapsed), enc_u8(easing_tag(b.easing)), enc_bool(b.pending), y);
    lemma_u64_inj(a.duration, enc_u64(a.elapsed) + (enc_u8(easing_tag(a.easing)) + (enc_bool(a.pending) + x)),
        b.duration, enc_u64(b.elapsed) + (enc_u8(easing_tag(b.easing)) + (enc_bool(b.pending) + y)));
    lemma_u64_inj(a.elapsed, enc_u8(easing_tag(a.easing)) + (enc_bool(a.pending) + x), b.elapsed, enc_u8(easing_tag(
        b.easing,
    )) + (enc_bool(b.pending) + y));
    lemma_u8_inj(easing_tag(a.easing), enc_bool(a.pending) + x, easing_tag(b.easing), enc_bool(b.pending) + y);
    lemma_bool_inj(a.pending, x, b.pending, y);
}

pub proof fn lemma_summary_inj(
    a: Option<AnimationControllerTransitionState>,
    x: Seq<u8>,
    b: Option<AnimationControllerTransitionState>,
    y: Seq<u8>,
)
    requires
        enc_summary(a) + x == enc_summary(b) + y,
    ensures
        a == b,
        x == y,
{
    let ta: Seq<u8> = match a {
        Some(t) => enc_crossfade(t) + x,
        None => x,
    };
    let tb: Seq<u8> = match b {
        Some(t) => enc_crossfade(t) + y,
        None => y,
    };
    assert(enc_summary(a) + x =~= enc_bool(a is Some) + ta);
    assert(enc_summary(b) + y =~= enc_bool(b is Some) + tb);
    lemma_bool_inj(a is Some, ta, b is Some, tb);
    if let Some(t) = a {
        if let Some(u) = b {
            lemma_crossfade_inj(t, x, u, y);
        }
    }
}

/// Read the body of a crossfade summary.
fn decode_crossfade(rd: &mut WorldBinaryReader) -> (r: Result<AnimationControllerTransitionState, String>)
    requires
        old(rd).wf(),
    ensures
        final(rd).wf(),
        final(rd).bytes == old(rd).bytes,
        final(rd).budget == old(rd).budget,
        r matches Ok(t) ==> splits(old(rd).rest(), enc_crossfade(t), final(rd).rest()),
        forall|t: AnimationControllerTransitionState, tail: Seq<u8>| #[trigger] splits(old(rd).rest(), enc_crossfade(t), tail)
            ==> (r == Ok::<AnimationControllerTransitionState, String>(t) && final(rd).rest() == tail),
{
    let ghost r0 = old(rd).rest();
    proof {
        assert forall|t: AnimationControllerTransitionState, tail: Seq<u8>| #[trigger] splits(r0, enc_crossfade(t), tail) implies splits(
            r0,
            enc_u64(t.duration),
            enc_u64(t.elapsed) + (enc_u8(easing_tag(t.easing)) + (enc_bool(t.pending) + tail)),
        ) by {
            lemma_cat4(enc_u64(t.duration), enc_u64(t.elapsed), enc_u8(easing_tag(t.easing)), enc_bool(t.pending), tail);
        }
    }
    let duration = rd.u64()?;
    let ghost r2 = rd.rest();
    proof {
        assert forall|t: AnimationControllerTransitionState, tail: Seq<u8>| #[trigger] splits(r0, enc_crossfade(t), tail) implies splits(
            r2,
            enc_u64(t.elapsed),
            enc_u8(easing_tag(t.easing)) + (enc_bool(t.pending) + tail),
        ) by {
            lemma_cat4(enc_u64(t.duration), enc_u64(t.elapsed), enc_u8(easing_tag(t.easing)), enc_bool(t.pending), tail);
        }
    }
    let elapsed = rd.u64()?;
    let ghost r3 = rd.rest();
    proof {
        assert forall|t: AnimationControllerTransitionState, tail: Seq<u8>| #[trigger] splits(r0, enc_crossfade(t), tail) implies splits(
            r3,
            enc_u8(easing_tag(t.easing)),
            enc_bool(t.pending) + tail,
        ) by {
            lemma_cat4(enc_u64(t.duration), enc_u64(t.elapsed), enc_u8(easing_tag(t.easing)), enc_bool(t.pending), tail);
        }
    }
    let tag = rd.u8()?;
    let easing = match tag {
        0 => AnimationTransitionEasing::Linear,
        1 => AnimationTransitionEasing::Smoothstep,
        _ => {
            return Err("Invalid saved transition easing".to_owned());
        },
    };
    let ghost r4 = rd.rest();
    proof {
        assert forall|t: AnimationControllerTransitionState, tail: Seq<u8>| #[trigger] splits(r0, enc_crossfade(t), tail) implies splits(
            r4,
            enc_bool(t.pending),
            tail,
        ) && easing == t.easing by {
            lemma_cat4(enc_u64(t.duration), enc_u64(t.elapsed), enc_u8(easing_tag(t.easing)), enc_bool(t.pending), tail);
        }
    }
    let pending = decode_bool(rd)?;
    let t = AnimationControllerTransitionState { duration, elapsed, easing, pending };
    proof {
        assert(easing_tag(easing) == tag);
        lemma_cat4(enc_u64(duration), enc_u64(elapsed), enc_u8(tag), enc_bool(pending), rd.rest());
    }
    Ok(t)
}

/// Read a controller's crossfade summary; it exists from version four.
fn decode_summary(rd: &mut WorldBinaryReader, version: u32) -> (r: Result<Option<AnimationControllerTransitionState>, String>)
    requires
        old(rd).wf(),
    ensures
        final(rd).wf(),
        final(rd).bytes == old(rd).bytes,
        final(rd).budget == old(rd).budget,
        r matches Ok(t) ==> splits(old(rd).rest(), enc_versioned_summary(t, version), final(rd).rest()) && (version < 4
            ==> t is None),
        forall|t: Option<AnimationControllerTransitionState>, tail: Seq<u8>| #[trigger] splits(
            old(rd).rest(),
            enc_versioned_summary(t, version),
            tail,
        ) && (version < 4 ==> t is None) ==> (r == Ok::<Option<AnimationControllerTransitionState>, String>(t)
            && final(rd).rest() == tail),
{
    let ghost r0 = old(rd).rest();
    if version < 4 {
        proof {
            assert(Seq::<u8>::empty() + r0 =~= r0);
            assert forall|t: Option<AnimationControllerTransitionState>, tail: Seq<u8>| #[trigger] splits(
                r0,
                enc_versioned_summary(t, version),
                tail,
            ) && (version < 4 ==> t is None) implies r0 == tail by {
                assert(Seq::<u8>::empty() + tail =~= tail);
            }
        }
        return Ok(None);
    }
    proof {
        assert forall|t: Option<AnimationControllerTransitionState>, tail: Seq<u8>| #[trigger] splits(
            r0,
            enc_versioned_summary(t, version),
            tail,
        ) implies splits(
            r0,
            enc_bool(t is Some),
            match t {
                Some(s) => enc_crossfade(s) + tail,
                None => tail,
            },
        ) by {
            assert(enc_summary(t) + tail =~= enc_bool(t is Some) + match t {
                Some(s) => enc_crossfade(s) + tail,
                None => tail,
            });
        }
    }
    let present = decode_bool(rd)?;
    if !present {
        proof {
            assert(enc_summary(None) + rd.rest() =~= enc_bool(false) + rd.rest());
        }
        return Ok(None);
    }
    let ghost r1 = rd.rest();
    proof {
        assert forall|t: Option<AnimationControllerTransitionState>, tail: Seq<u8>| #[trigger] splits(
            r0,
            enc_versioned_summary(t, version),
            tail,
        ) implies t is Some && splits(r1, enc_crossfade(t->0), tail) by {}
    }
    let t = decode_crossfade(rd)?;
    proof {
        assert(enc_summary(Some(t)) + rd.rest() =~= enc_bool(true) + r1);
        assert forall|t2: Option<AnimationControllerTransitionState>, tail: Seq<u8>| #[trigger] splits(
            r0,
            enc_versioned_summary(t2, version),
            tail,
        ) implies Some(t) == t2 && rd.rest() == tail by {
            lemma_summary_inj(Some(t), rd.rest(), t2, tail);
        }
    }
    Ok(Some(t))
}

/// Controllers the decoder rebuilds in a format version.
pub open spec fn dec_controller(c: ControllerModel, version: u32) -> bool {
    &&& c.drivers.len() <= MAX_DRIVERS
    &&& forall|i: int| 0 <= i < c.drivers.len() ==> dec_driver(#[trigger] c.drivers[i], version)
    &&& (version < 4 ==> c.transition is None)
}

/// Allocation claimed while decoding a controller.
pub open spec fn claim_controller(c: ControllerModel) -> nat {
    (DRIVER_CLAIM * c.drivers.len()) as nat + sum_seq(c.drivers, claim_driver_fn())
}

pub proof fn lemma_controller_inj(a: ControllerModel, x: Seq<u8>, b: ControllerModel, y: Seq<u8>, version: u32)
    requires
        enc_controller(a, version) + x == enc_controller(b, version) + y,
        dec_controller(a, version),
        dec_controller(b, version),
    ensures
        a == b,
        x == y,
{
    let da = enc_seq(a.drivers, driver_enc(version));
    let db = enc_seq(b.drivers, driver_enc(version));
    lemma_cat4(enc_clock(a), enc_versioned_summary(a.transition, version), enc_count(a.drivers.len()), da, x);
    lemma_cat4(enc_clock(b), enc_versioned_summary(b.transition, version), enc_count(b.drivers.len()), db, y);
    lemma_clock_inj(a, enc_versioned_summary(a.transition, version) + (enc_count(a.drivers.len()) + (da + x)), b,
        enc_versioned_summary(b.transition, version) + (enc_count(b.drivers.len()) + (db + y)));
    if version >= 4 {
        lemma_summary_inj(a.transition, enc_count(a.drivers.len()) + (da + x), b.transition, enc_count(b.drivers.len()) + (
        db + y));
    } else {
        assert(enc_versioned_summary(a.transition, version) + (enc_count(a.drivers.len()) + (da + x)) =~= enc_count(
            a.drivers.len(),
        ) + (da + x));
        assert(enc_versioned_summary(b.transition, version) + (enc_count(b.drivers.len()) + (db + y)) =~= enc_count(
            b.drivers.len(),
        ) + (db + y));
    }
    lemma_count_inj(a.drivers.len(), da + x, b.drivers.len(), db + y);
    lemma_drivers_inj(a.drivers, x, b.drivers, y, version);
}

/// Read one controller snapshot.
fn decode_controller(rd: &mut WorldBinaryReader, version: u32) -> (r: Result<AnimationControllerSnapshot, String>)
    requires
        old(rd).wf(),
    ensures
        final(rd).wf(),
        final(rd).bytes == old(rd).bytes,
        r matches Ok(c) ==> splits(old(rd).rest(), enc_controller(c@, version), final(rd).rest()) && dec_controller(
            c@,
            version,
        ) && final(rd).budget == old(rd).budget - claim_controller(c@),
        forall|m: ControllerModel, tail: Seq<u8>| #[trigger] splits(old(rd).rest(), enc_controller(m, version), tail)
            && dec_controller(m, version) && claim_controller(m) <= old(rd).budget ==> (r matches Ok(c) && c@ == m
            && final(rd).rest() == tail),
{
    let ghost r0 = old(rd).rest();
    let ghost b0 = old(rd).budget;
    let ghost complete = exists|m: ControllerModel, tail: Seq<u8>| #[trigger] splits(r0, enc_controller(m, version), tail)
        && dec_controller(m, version) && claim_controller(m) <= b0;
    let ghost (m, tail) = choose|m: ControllerModel, tail: Seq<u8>| #[trigger] splits(r0, enc_controller(m, version), tail)
        && dec_controller(m, version) && claim_controller(m) <= b0;
    let ghost dm = enc_seq(m.drivers, driver_enc(version));
    proof {
        if complete {
            lemma_cat4(enc_clock(m), enc_versioned_summary(m.transition, version), enc_count(m.drivers.len()), dm, tail);
            assert(splits(r0, enc_clock(m), enc_versioned_summary(m.transition, version) + (enc_count(m.drivers.len()) + (dm
                + tail))));
        }
    }
    let (id, state, time, speed, looping) = decode_clock(rd)?;
    proof {
        if complete {
            assert(splits(rd.rest(), enc_versioned_summary(m.transition, version), enc_count(m.drivers.len()) + (dm + tail)));
        }
    }
    let transition = decode_summary(rd, version)?;
    proof {
        lemma_enc_lens();
        if complete {
            assert(splits(rd.rest(), enc_count(m.drivers.len()), dm + tail));
            assert forall|i: int| 0 <= i < m.drivers.len() implies (#[trigger] driver_enc(version)(m.drivers[i])).len()
                >= DRIVER_MIN_BYTES by {
                lemma_driver_len(m.drivers[i], version);
            }
            lemma_enc_seq_min(m.drivers, driver_enc(version), DRIVER_MIN_BYTES as nat);
        }
    }
    let count = bounded_count(rd, DRIVER_MIN_BYTES, MAX_DRIVERS)?;
    proof {
        if complete {
            assert(sum_seq(m.drivers, claim_driver_fn()) >= 0);
        }
    }
    rd.claim(count * DRIVER_CLAIM)?;
    proof {
        if complete {
            assert(splits(rd.rest(), enc_seq(m.drivers, driver_enc(version)), tail));
        }
    }
    let drivers = decode_drivers(rd, count, version)?;
    let c = AnimationControllerSnapshot {
        id: AnimationControllerId { bits: id },
        description: AnimationControllerDescription { drivers, speed, looping },
        state,
        time,
        transition,
    };
    proof {
        assert(enc_clock(c@) == enc_u64(id) + enc_u8(status_tag(state)) + enc_u64(time) + enc_u32(speed) + enc_bool(looping));
        lemma_cat4(enc_clock(c@), enc_versioned_summary(transition, version), enc_count(count as nat), enc_seq(
            c@.drivers,
            driver_enc(version),
        ), rd.rest());
        assert forall|m2: ControllerModel, tail2: Seq<u8>| #[trigger] splits(r0, enc_controller(m2, version), tail2)
            && dec_controller(m2, version) && claim_controller(m2) <= b0 implies c@ == m2 && rd.rest() == tail2 by {
            lemma_controller_inj(c@, rd.rest(), m2, tail2, version);
        }
    }
    Ok(c)
}

/// Read `n` u32 lanes.
fn decode_u32s(rd: &mut WorldBinaryReader, n: usize) -> (r: Result<Vec<u32>, String>)
    requires
        old(rd).wf(),
    ensures
        final(rd).wf(),
        final(rd).bytes == old(rd).bytes,
        final(rd).budget == old(rd).budget,
        r matches Ok(v) ==> v@.len() == n && splits(old(rd).rest(), enc_u32s(v@), final(rd).rest()),
        forall|ms: Seq<u32>, tail: Seq<u8>| #[trigger] splits(old(rd).rest(), enc_u32s(ms), tail) && ms.len() == n ==> (
        r matches Ok(v) && v@ == ms && final(rd).rest() == tail),
{
    let ghost r0 = old(rd).rest();
    let ghost complete = exists|ms: Seq<u32>, tail: Seq<u8>| #[trigger] splits(r0, enc_u32s(ms), tail) && ms.len() == n;
    let ghost (ms, tail) = choose|ms: Seq<u32>, tail: Seq<u8>| #[trigger] splits(r0, enc_u32s(ms), tail) && ms.len() == n;
    let mut out: Vec<u32> = Vec::new();
    let mut i: usize = 0;
    proof {
        assert(out@ =~= Seq::<u32>::empty());
        assert(r0 =~= enc_u32s(out@) + rd.rest());
        if complete {
            assert(ms.skip(0) =~= ms);
        }
    }
    while i < n
        invariant
            rd.wf(),
            rd.bytes == old(rd).bytes,
            rd.budget == old(rd).budget,
            r0 == old(rd).rest(),
            i <= n,
            out@.len() == i,
            splits(r0, enc_u32s(out@), rd.rest()),
            complete ==> ms.len() == n && out@ == ms.take(i as int) && rd.rest() == enc_u32s(ms.skip(i as int)) + tail,
            complete == exists|ms2: Seq<u32>, tail2: Seq<u8>| #[trigger] splits(r0, enc_u32s(ms2), tail2) && ms2.len() == n,
        decreases n - i,
    {
        let ghost ri = rd.rest();
        proof {
            lemma_enc_lens();
            if complete {
                lemma_enc_seq_front(ms.skip(i as int), u32_enc());
                assert(ms.skip(i as int)[0] == ms[i as int]);
                assert(ms.skip(i as int).drop_first() =~= ms.skip(i + 1));
                assert(ri =~= enc_u32(ms[i as int]) + (enc_u32s(ms.skip(i + 1)) + tail));
                assert(splits(ri, enc_u32(ms[i as int]), enc_u32s(ms.skip(i + 1)) + tail));
            }
        }
        let x = rd.u32()?;
        proof {
            lemma_enc_seq_push(out@, x, u32_enc());
        }
        out.push(x);
        proof {
            assert(r0 =~= enc_u32s(out@) + rd.rest());
        }
        i = i + 1;
        proof {
            if complete {
                assert(out@ =~= ms.take(i as int));
            }
        }
    }
    proof {
        if complete {
            assert(out@ =~= ms);
            assert(ms.skip(n as int) =~= Seq::<u32>::empty());
            assert(enc_u32s(Seq::<u32>::empty()) =~= Seq::<u8>::empty());
        }
        assert forall|ms2: Seq<u32>, tail2: Seq<u8>| #[trigger] splits(r0, enc_u32s(ms2), tail2) && ms2.len() == n implies out@
            == ms2 && rd.rest() == tail2 by {
            lemma_u32s_inj(out@, rd.rest(), ms2, tail2);
        }
    }
    Ok(out)
}

/// Tag of a dynamic value kind with a persistent form.
pub open spec fn dynamic_tag(d: DynamicValue) -> u8 {
    match d {
        DynamicValue::F32(_) => 0,
        DynamicValue::I32(_) => 1,
        DynamicValue::U32(_) => 2,
        DynamicValue::Vec2(_) => 3,
        DynamicValue::Vec3(_) => 4,
        DynamicValue::Vec4(_) => 5,
        DynamicValue::Mat2(_) => 6,
        DynamicValue::Mat3(_) => 7,
        DynamicValue::Mat4(_) => 8,
        _ => 0xff,
    }
}

/// Payload of a dynamic value after its tag.
pub open spec fn dynamic_payload(d: DynamicValue) -> Seq<u8> {
    match d {
        DynamicValue::F32(x) => enc_u32(x),
        DynamicValue::I32(x) => enc_u32(x as u32),
        DynamicValue::U32(x) => enc_u32(x),
        DynamicValue::Vec2(a) => enc_lanes(a@),
        DynamicValue::Vec3(a) => enc_lanes(a@),
        DynamicValue::Vec4(a) => enc_lanes(a@),
        DynamicValue::Mat2(a) => enc_lanes(a@),
        DynamicValue::Mat3(a) => enc_lanes(a@),
        DynamicValue::Mat4(a) => enc_lanes(a@),
        _ => Seq::empty(),
    }
}

/// Dynamic values with a persistent form.
pub open spec fn continuous(d: DynamicValue) -> bool {
    !(d is Bool) && !(d is Asset)
}

pub proof fn lemma_dynamic_inj(a: DynamicValue, x: Seq<u8>, b: DynamicValue, y: Seq<u8>)
    requires
        enc_dynamic(a) + x == enc_dynamic(b) + y,
        continuous(a),
        continuous(b),
    ensures
        a == b,
        x == y,
{
    assert(enc_dynamic(a) + x =~= enc_u8(dynamic_tag(a)) + (dynamic_payload(a) + x));
    assert(enc_dynamic(b) + y =~= enc_u8(dynamic_tag(b)) + (dynamic_payload(b) + y));
    lemma_u8_inj(dynamic_tag(a), dynamic_payload(a) + x, dynamic_tag(b), dynamic_payload(b) + y);
    match a {
        DynamicValue::F32(p) => {
            if let DynamicValue::F32(q) = b {
                lemma_u32_inj(p, x, q, y);
            }
        },
        DynamicValue::I32(p) => {
            if let DynamicValue::I32(q) = b {
                lemma_u32_inj(p as u32, x, q as u32, y);
                assert(p == q) by (bit_vector)
                    requires
                        p as u32 == q as u32,
                ;
            }
        },
        DynamicValue::U32(p) => {
            if let DynamicValue::U32(q) = b {
                lemma_u32_inj(p, x, q, y);
            }
        },
        DynamicValue::Vec2(p) => {
            if let DynamicValue::Vec2(q) = b {
                lemma_u32s_inj(p@, x, q@, y);
                assert(p == q);
            }
        },
        DynamicValue::Vec3(p) => {
            if let DynamicValue::Vec3(q) = b {
                lemma_u32s_inj(p@, x, q@, y);
                assert(p == q);
            }
        },
        DynamicValue::Vec4(p) => {
            if let DynamicValue::Vec4(q) = b {
                lemma_u32s_inj(p@, x, q@, y);
                assert(p == q);
            }
        },
        DynamicValue::Mat2(p) => {
            if let DynamicValue::Mat2(q) = b {
                lemma_u32s_inj(p@, x, q@, y);
                assert(p == q);
            }
        },
        DynamicValue::Mat3(p) => {
            if let DynamicValue::Mat3(q) = b {
                lemma_u32s_inj(p@, x, q@, y);
                assert(p == q);
            }
        },
        DynamicValue::Mat4(p) => {
            if let DynamicValue::Mat4(q) = b {
                lemma_u32s_inj(p@, x, q@, y);
                assert(p == q);
            }
        },
        _ => {},
    }
}

/// Read a dynamic value with a persistent form.
fn decode_dynamic(rd: &mut WorldBinaryReader) -> (r: Result<DynamicValue, String>)
    requires
        old(rd).wf(),
    ensures
        final(rd).wf(),
        final(rd).bytes == old(rd).bytes,
        final(rd).budget == old(rd).budget,
        r matches Ok(d) ==> continuous(d) && splits(old(rd).rest(), enc_dynamic(d), final(rd).rest()),
        forall|d: DynamicValue, tail: Seq<u8>| #[trigger] splits(old(rd).rest(), enc_dynamic(d), tail) && continuous(d) ==> (
        r matches Ok(e) && e == d && final(rd).rest() == tail),
{
    let ghost r0 = old(rd).rest();
    proof {
        assert forall|d: DynamicValue, tail: Seq<u8>| #[trigger] splits(r0, enc_dynamic(d), tail) && continuous(d) implies splits(
            r0,
            enc_u8(dynamic_tag(d)),
            dynamic_payload(d) + tail,
        ) by {
            assert(enc_dynamic(d) + tail =~= enc_u8(dynamic_tag(d)) + (dynamic_payload(d) + tail));
        }
    }
    let tag = rd.u8()?;
    let ghost r1 = rd.rest();
    proof {
        assert forall|d: DynamicValue, tail: Seq<u8>| #[trigger] splits(r0, enc_dynamic(d), tail) && continuous(d) implies
            dynamic_tag(d) == tag && splits(r1, dynamic_payload(d), tail) by {
            assert(enc_dynamic(d) + tail =~= enc_u8(dynamic_tag(d)) + (dynamic_payload(d) + tail));
            lemma_u8_inj(dynamic_tag(d), dynamic_payload(d) + tail, tag, r1);
        }
    }
    let d = if tag == 0 {
        proof {
            assert forall|d: DynamicValue, tail: Seq<u8>| #[trigger] splits(r0, enc_dynamic(d), tail) && continuous(d) implies
                splits(r1, enc_u32(d->F32_0), tail) by {
                assert(dynamic_tag(d) == tag && splits(r1, dynamic_payload(d), tail));
            }
        }
        DynamicValue::F32(rd.u32()?)
    } else if tag == 1 {
        proof {
            assert forall|d: DynamicValue, tail: Seq<u8>| #[trigger] splits(r0, enc_dynamic(d), tail) && continuous(d) implies
                splits(r1, enc_u32(d->I32_0 as u32), tail) by {
                assert(dynamic_tag(d) == tag && splits(r1, dynamic_payload(d), tail));
            }
        }
        let x = rd.u32()?;
        proof {
            assert((x as i32) as u32 == x) by (bit_vector);
        }
        DynamicValue::I32(x as i32)
    } else if tag == 2 {
        proof {
            assert forall|d: DynamicValue, tail: Seq<u8>| #[trigger] splits(r0, enc_dynamic(d), tail) && continuous(d) implies
                splits(r1, enc_u32(d->U32_0), tail) by {
                assert(dynamic_tag(d) == tag && splits(r1, dynamic_payload(d), tail));
            }
        }
        DynamicValue::U32(rd.u32()?)
    } else if tag == 3 {
        proof {
            assert forall|d: DynamicValue, tail: Seq<u8>| #[trigger] splits(r0, enc_dynamic(d), tail) && continuous(d) implies
                splits(r1, enc_u32s(d->Vec2_0@), tail) && d->Vec2_0@.len() == 2 by {
                assert(dynamic_tag(d) == tag && splits(r1, dynamic_payload(d), tail));
            }
        }
        let v = decode_u32s(rd, 2)?;
        let a = [v[0], v[1]];
        proof {
            assert(a@ =~= v@);
        }
        DynamicValue::Vec2(a)
    } else if tag == 4 {
        proof {
            assert forall|d: DynamicValue, tail: Seq<u8>| #[trigger] splits(r0, enc_dynamic(d), tail) && continuous(d) implies
                splits(r1, enc_u32s(d->Vec3_0@), tail) && d->Vec3_0@.len() == 3 by {
                assert(dynamic_tag(d) == tag && splits(r1, dynamic_payload(d), tail));
            }
        }
        let v = decode_u32s(rd, 3)?;
        let a = [v[0], v[1], v[2]];
        proof {
            assert(a@ =~= v@);
        }
        DynamicValue::Vec3(a)
    } else if tag == 5 {
        proof {
            assert forall|d: DynamicValue, tail: Seq<u8>| #[trigger] splits(r0, enc_dynamic(d), tail) && continuous(d) implies
                splits(r1, enc_u32s(d->Vec4_0@), tail) && d->Vec4_0@.len() == 4 by {
                assert(dynamic_tag(d) == tag && splits(r1, dynamic_payload(d), tail));
            }
        }
        let v = decode_u32s(rd, 4)?;
        let a = [v[0], v[1], v[2], v[3]];
        proof {
            assert(a@ =~= v@);
        }
        DynamicValue::Vec4(a)
    } else if tag == 6 {
        proof {
            assert forall|d: DynamicValue, tail: Seq<u8>| #[trigger] splits(r0, enc_dynamic(d), tail) && continuous(d) implies
                splits(r1, enc_u32s(d->Mat2_0@), tail) && d->Mat2_0@.len() == 4 by {
                assert(dynamic_tag(d) == tag && splits(r1, dynamic_payload(d), tail));
            }
        }
        let v = decode_u32s(rd, 4)?;
        let a = [v[0], v[1], v[2], v[3]];
        proof {
            assert(a@ =~= v@);
        }
        DynamicValue::Mat2(a)
    } else if tag == 7 {
        proof {
            assert forall|d: DynamicValue, tail: Seq<u8>| #[trigger] splits(r0, enc_dynamic(d), tail) && continuous(d) implies
                splits(r1, enc_u32s(d->Mat3_0@), tail) && d->Mat3_0@.len() == 9 by {
                assert(dynamic_tag(d) == tag && splits(r1, dynamic_payload(d), tail));
            }
        }
        let v = decode_u32s(rd, 9)?;
        let a = [v[0], v[1], v[2], v[3], v[4], v[5], v[6], v[7], v[8]];
        proof {
            assert(a@ =~= v@);
        }
        DynamicValue::Mat3(a)
    } else if tag == 8 {
        proof {
            assert forall|d: DynamicValue, tail: Seq<u8>| #[trigger] splits(r0, enc_dynamic(d), tail) && continuous(d) implies
                splits(r1, enc_u32s(d->Mat4_0@), tail) && d->Mat4_0@.len() == 16 by {
                assert(dynamic_tag(d) == tag && splits(r1, dynamic_payload(d), tail));
            }
        }
        let v = decode_u32s(rd, 16)?;
        let a = [
            v[0], v[1], v[2], v[3], v[4], v[5], v[6], v[7], v[8], v[9], v[10], v[11], v[12], v[13], v[14], v[15],
        ];
        proof {
            assert(a@ =~= v@);
        }
        DynamicValue::Mat4(a)
    } else {
        return Err("Invalid frozen dynamic value".to_owned());
    };
    proof {
        assert(enc_dynamic(d) + rd.rest() =~= enc_u8(tag) + (dynamic_payload(d) + rd.rest()));
        assert forall|d2: DynamicValue, tail: Seq<u8>| #[trigger] splits(r0, enc_dynamic(d2), tail) && continuous(d2) implies d
            == d2 && rd.rest() == tail by {
            lemma_dynamic_inj(d, rd.rest(), d2, tail);
        }
    }
    Ok(d)
}

pub open spec fn value_tag(v: AnimationValue) -> u8 {
    match v {
        AnimationValue::Field(_) => 0,
        AnimationValue::Rotation(_) => 1,
        AnimationValue::Dynamic(_) => 3,
    }
}

pub open spec fn value_payload(v: AnimationValue) -> Seq<u8> {
    match v {
        AnimationValue::Field(FieldValue::F32(x)) => enc_u32(x),
        AnimationValue::Rotation(q) => enc_lanes(q@),
        AnimationValue::Dynamic(d) => enc_dynamic(d),
        _ => Seq::empty(),
    }
}

pub proof fn lemma_value_inj(a: AnimationValue, x: Seq<u8>, b: AnimationValue, y: Seq<u8>)
    requires
        enc_value(a) + x == enc_value(b) + y,
        encodable_value(a),
        encodable_value(b),
    ensures
        a == b,
        x == y,
{
    assert(enc_value(a) + x =~= enc_u8(value_tag(a)) + (value_payload(a) + x));
    assert(enc_value(b) + y =~= enc_u8(value_tag(b)) + (value_payload(b) + y));
    lemma_u8_inj(value_tag(a), value_payload(a) + x, value_tag(b), value_payload(b) + y);
    match a {
        AnimationValue::Field(FieldValue::F32(p)) => {
            if let AnimationValue::Field(FieldValue::F32(q)) = b {
                lemma_u32_inj(p, x, q, y);
            }
        },
        AnimationValue::Rotation(p) => {
            if let AnimationValue::Rotation(q) = b {
                lemma_u32s_inj(p@, x, q@, y);
                assert(p == q);
            }
        },
        AnimationValue::Dynamic(p) => {
            if let AnimationValue::Dynamic(q) = b {
                lemma_dynamic_inj(p, x, q, y);
            }
        },
        _ => {},
    }
}

/// Read a frozen value or baseline.
fn decode_value(rd: &mut WorldBinaryReader) -> (r: Result<AnimationValue, String>)
    requires
        old(rd).wf(),
    ensures
        final(rd).wf(),
        final(rd).bytes == old(rd).bytes,
        final(rd).budget == old(rd).budget,
        r matches Ok(v) ==> encodable_value(v) && splits(old(rd).rest(), enc_value(v), final(rd).rest()),
        forall|v: AnimationValue, tail: Seq<u8>| #[trigger] splits(old(rd).rest(), enc_value(v), tail) && encodable_value(v)
            ==> (r matches Ok(e) && e == v && final(rd).rest() == tail),
{
    let ghost r0 = old(rd).rest();
    proof {
        assert forall|v: AnimationValue, tail: Seq<u8>| #[trigger] splits(r0, enc_value(v), tail) && encodable_value(v) implies
            splits(r0, enc_u8(value_tag(v)), value_payload(v) + tail) by {
            assert(enc_value(v) + tail =~= enc_u8(value_tag(v)) + (value_payload(v) + tail));
        }
    }
    let tag = rd.u8()?;
    let ghost r1 = rd.rest();
    proof {
        assert forall|v: AnimationValue, tail: Seq<u8>| #[trigger] splits(r0, enc_value(v), tail) && encodable_value(v) implies
            value_tag(v) == tag && splits(r1, value_payload(v), tail) by {
            assert(enc_value(v) + tail =~= enc_u8(value_tag(v)) + (value_payload(v) + tail));
            lemma_u8_inj(value_tag(v), value_payload(v) + tail, tag, r1);
        }
    }
    let v = if tag == 0 {
        proof {
            assert forall|v: AnimationValue, tail: Seq<u8>| #[trigger] splits(r0, enc_value(v), tail) && encodable_value(v)
                implies splits(r1, enc_u32(v->Field_0->F32_0), tail) by {
                assert(value_tag(v) == tag && splits(r1, value_payload(v), tail));
            }
        }
        AnimationValue::Field(FieldValue::F32(rd.u32()?))
    } else if tag == 1 {
        proof {
            assert forall|v: AnimationValue, tail: Seq<u8>| #[trigger] splits(r0, enc_value(v), tail) && encodable_value(v)
                implies splits(r1, enc_u32s(v->Rotation_0@), tail) && v->Rotation_0@.len() == 4 by {
                assert(value_tag(v) == tag && splits(r1, value_payload(v), tail));
            }
        }
        let q = decode_u32s(rd, 4)?;
        let a = [q[0], q[1], q[2], q[3]];
        proof {
            assert(a@ =~= q@);
        }
        AnimationValue::Rotation(a)
    } else if tag == 3 {
        proof {
            assert forall|v: AnimationValue, tail: Seq<u8>| #[trigger] splits(r0, enc_value(v), tail) && encodable_value(v)
                implies splits(r1, enc_dynamic(v->Dynamic_0), tail) && continuous(v->Dynamic_0) by {
                assert(value_tag(v) == tag && splits(r1, value_payload(v), tail));
            }
        }
        AnimationValue::Dynamic(decode_dynamic(rd)?)
    } else {
        return Err("Invalid frozen transition value".to_owned());
    };
    proof {
        assert(enc_value(v) + rd.rest() =~= enc_u8(tag) + (value_payload(v) + rd.rest()));
        assert forall|v2: AnimationValue, tail: Seq<u8>| #[trigger] splits(r0, enc_value(v2), tail) && encodable_value(v2)
            implies v == v2 && rd.rest() == tail by {
            lemma_value_inj(v, rd.rest(), v2, tail);
        }
    }
    Ok(v)
}

/// Minimum encoded size of a frozen value, used to bound its count.
pub const FROZEN_MIN_BYTES: usize = 29;

/// Maximum frozen values of a decoded transition.
pub const MAX_FROZEN: usize = 65536;

/// What reading a frozen value establishes: a rebuildable target and two
/// values with a persistent form.
pub open spec fn frozen_read(f: FrozenModel) -> bool {
    dec_target(f.property) && encodable_value(f.value) && encodable_value(f.baseline)
}

/// Frozen values the decoder rebuilds.
pub open spec fn dec_frozen(f: FrozenModel) -> bool {
    &&& dec_target(f.property)
    &&& encodable_value(f.value)
    &&& encodable_value(f.baseline)
    &&& match f.property {
        TargetModel::Property(_, offsets) => offsets.len() >= 1,
        TargetModel::Dynamic(_, _) => true,
    }
}

/// Allocation claimed while decoding a frozen value.
pub open spec fn claim_frozen(f: FrozenModel) -> nat {
    claim_target(f.property)
}

pub open spec fn claim_frozen_fn() -> spec_fn(FrozenModel) -> nat {
    |f: FrozenModel| claim_frozen(f)
}

pub proof fn lemma_frozen_len(f: FrozenModel)
    requires
        dec_frozen(f),
    ensures
        enc_frozen(f).len() >= FROZEN_MIN_BYTES,
{
    lemma_enc_lens();
    match f.property {
        TargetModel::Property(_, o) => {
            lemma_enc_u32s_len(o);
        },
        TargetModel::Dynamic(_, _) => {},
    }
    assert(enc_value(f.value).len() >= 5);
    assert(enc_value(f.baseline).len() >= 5);
}

pub proof fn lemma_frozen_inj(a: FrozenModel, x: Seq<u8>, b: FrozenModel, y: Seq<u8>)
    requires
        enc_frozen(a) + x == enc_frozen(b) + y,
        dec_frozen(a),
        dec_frozen(b),
    ensures
        a == b,
        x == y,
{
    lemma_cat4(enc_u64(a.target.bits), enc_target(a.property), enc_value(a.value), enc_value(a.baseline), x);
    lemma_cat4(enc_u64(b.target.bits), enc_target(b.property), enc_value(b.value), enc_value(b.baseline), y);
    lemma_u64_inj(a.target.bits, enc_target(a.property) + (enc_value(a.value) + (enc_value(a.baseline) + x)), b.target.bits,
        enc_target(b.property) + (enc_value(b.value) + (enc_value(b.baseline) + y)));
    lemma_target_inj(a.property, enc_value(a.value) + (enc_value(a.baseline) + x), b.property, enc_value(b.value) + (
    enc_value(b.baseline) + y));
    lemma_value_inj(a.value, enc_value(a.baseline) + x, b.value, enc_value(b.baseline) + y);
    lemma_value_inj(a.baseline, x, b.baseline, y);
}

/// Read one frozen value.
fn decode_frozen(rd: &mut WorldBinaryReader) -> (r: Result<AnimationFrozenTransitionValue, String>)
    requires
        old(rd).wf(),
    ensures
        final(rd).wf(),
        final(rd).bytes == old(rd).bytes,
        r matches Ok(f) ==> splits(old(rd).rest(), enc_frozen(f@), final(rd).rest()) && dec_target(f@.property)
            && encodable_value(f@.value) && encodable_value(f@.baseline) && final(rd).budget == old(rd).budget
            - claim_frozen(f@),
        forall|m: FrozenModel, tail: Seq<u8>| #[trigger] splits(old(rd).rest(), enc_frozen(m), tail) && dec_frozen(m)
            && claim_frozen(m) <= old(rd).budget ==> (r matches Ok(f) && f@ == m && final(rd).rest() == tail),
{
    let ghost r0 = old(rd).rest();
    let ghost b0 = old(rd).budget;
    let ghost complete = exists|m: FrozenModel, tail: Seq<u8>| #[trigger] splits(r0, enc_frozen(m), tail) && dec_frozen(m)
        && claim_frozen(m) <= b0;
    let ghost (m, tail) = choose|m: FrozenModel, tail: Seq<u8>| #[trigger] splits(r0, enc_frozen(m), tail) && dec_frozen(m)
        && claim_frozen(m) <= b0;
    proof {
        if complete {
            lemma_cat4(enc_u64(m.target.bits), enc_target(m.property), enc_value(m.value), enc_value(m.baseline), tail);
            assert(splits(r0, enc_u64(m.target.bits), enc_target(m.property) + (enc_value(m.value) + (enc_value(m.baseline)
                + tail))));
        }
    }
    let bits = rd.u64()?;
    proof {
        if complete {
            assert(splits(rd.rest(), enc_target(m.property), enc_value(m.value) + (enc_value(m.baseline) + tail)));
        }
    }
    let property = decode_target(rd)?;
    proof {
        if complete {
            assert(splits(rd.rest(), enc_value(m.value), enc_value(m.baseline) + tail));
        }
    }
    let value = decode_value(rd)?;
    proof {
        if complete {
            assert(splits(rd.rest(), enc_value(m.baseline), tail));
        }
    }
    let baseline = decode_value(rd)?;
    let f = AnimationFrozenTransitionValue { target: EntityId { bits }, property, value, baseline };
    proof {
        lemma_cat4(enc_u64(bits), enc_target(f@.property), enc_value(value), enc_value(baseline), rd.rest());
        assert forall|m2: FrozenModel, tail2: Seq<u8>| #[trigger] splits(r0, enc_frozen(m2), tail2) && dec_frozen(m2)
            && claim_frozen(m2) <= b0 implies f@ == m2 && rd.rest() == tail2 by {
            assert(complete);
            assert(f@ == m);
            lemma_frozen_inj(f@, rd.rest(), m2, tail2);
        }
    }
    Ok(f)
}

#[verifier::spinoff_prover]
#[verifier::rlimit(40)]
pub proof fn lemma_frozens_inj(a: Seq<FrozenModel>, x: Seq<u8>, b: Seq<FrozenModel>, y: Seq<u8>)
    requires
        enc_seq(a, frozen_enc()) + x == enc_seq(b, frozen_enc()) + y,
        a.len() == b.len(),
        forall|i: int| 0 <= i < a.len() ==> dec_frozen(#[trigger] a[i]),
        forall|i: int| 0 <= i < b.len() ==> dec_frozen(#[trigger] b[i]),
    ensures
        a == b,
        x == y,
    decreases a.len(),
{
    if a.len() == 0 {
        assert(enc_seq(a, frozen_enc()) + x =~= x);
        assert(enc_seq(b, frozen_enc()) + y =~= y);
        assert(a =~= b);
    } else {
        lemma_enc_seq_front(a, frozen_enc());
        lemma_enc_seq_front(b, frozen_enc());
        assert(enc_seq(a, frozen_enc()) + x =~= enc_frozen(a[0]) + (enc_seq(a.drop_first(), frozen_enc()) + x));
        assert(enc_seq(b, frozen_enc()) + y =~= enc_frozen(b[0]) + (enc_seq(b.drop_first(), frozen_enc()) + y));
        assert(dec_frozen(a[0]));
        assert(dec_frozen(b[0]));
        lemma_frozen_inj(a[0], enc_seq(a.drop_first(), frozen_enc()) + x, b[0], enc_seq(b.drop_first(), frozen_enc()) + y);
        assert forall|i: int| 0 <= i < a.drop_first().len() implies dec_frozen(#[trigger] a.drop_first()[i]) by {
            assert(a.drop_first()[i] == a[i + 1]);
        }
        assert forall|i: int| 0 <= i < b.drop_first().len() implies dec_frozen(#[trigger] b.drop_first()[i]) by {
            assert(b.drop_first()[i] == b[i + 1]);
        }
        lemma_frozens_inj(a.drop_first(), x, b.drop_first(), y);
        assert(a =~= seq![a[0]] + a.drop_first());
        assert(b =~= seq![b[0]] + b.drop_first());
    }
}

/// Read `count` frozen values.
fn decode_frozens(rd: &mut WorldBinaryReader, count: usize) -> (r: Result<Vec<AnimationFrozenTransitionValue>, String>)
    requires
        old(rd).wf(),
    ensures
        final(rd).wf(),
        final(rd).bytes == old(rd).bytes,
        r matches Ok(vs) ==> vs@.len() == count && splits(old(rd).rest(), enc_seq(frozen_models(vs@), frozen_enc()), final(rd).rest())
            && final(rd).budget == old(rd).budget - sum_seq(frozen_models(vs@), claim_frozen_fn()) && (forall|i: int|
            0 <= i < vs@.len() ==> frozen_read(#[trigger] frozen_models(vs@)[i])),
        forall|ms: Seq<FrozenModel>, tail: Seq<u8>| #[trigger] splits(old(rd).rest(), enc_seq(ms, frozen_enc()), tail)
            && ms.len() == count && (forall|i: int| 0 <= i < ms.len() ==> dec_frozen(#[trigger] ms[i])) && sum_seq(
            ms,
            claim_frozen_fn(),
        ) <= old(rd).budget ==> (r matches Ok(vs) && frozen_models(vs@) == ms && final(rd).rest() == tail),
{
    let ghost r0 = old(rd).rest();
    let ghost b0 = old(rd).budget;
    let ghost complete = exists|ms: Seq<FrozenModel>, tail: Seq<u8>| #[trigger] splits(r0, enc_seq(ms, frozen_enc()), tail)
        && ms.len() == count && (forall|i: int| 0 <= i < ms.len() ==> dec_frozen(#[trigger] ms[i])) && sum_seq(
        ms,
        claim_frozen_fn(),
    ) <= b0;
    let ghost (ms, tail) = choose|ms: Seq<FrozenModel>, tail: Seq<u8>| #[trigger] splits(r0, enc_seq(ms, frozen_enc()), tail)
        && ms.len() == count && (forall|i: int| 0 <= i < ms.len() ==> dec_frozen(#[trigger] ms[i])) && sum_seq(
        ms,
        claim_frozen_fn(),
    ) <= b0;
    let mut out: Vec<AnimationFrozenTransitionValue> = Vec::new();
    let mut i: usize = 0;
    proof {
        assert(frozen_models(out@) =~= Seq::<FrozenModel>::empty());
        assert(r0 =~= enc_seq(frozen_models(out@), frozen_enc()) + rd.rest());
        if complete {
            assert(ms.skip(0) =~= ms);
        }
    }
    while i < count
        invariant
            rd.wf(),
            rd.bytes == old(rd).bytes,
            r0 == old(rd).rest(),
            b0 == old(rd).budget,
            i <= count,
            out@.len() == i,
            splits(r0, enc_seq(frozen_models(out@), frozen_enc()), rd.rest()),
            rd.budget == b0 - sum_seq(frozen_models(out@), claim_frozen_fn()),
            forall|k: int| 0 <= k < out@.len() ==> frozen_read(#[trigger] frozen_models(out@)[k]),
            complete ==> ms.len() == count && frozen_models(out@) == ms.take(i as int) && rd.rest() == enc_seq(
                ms.skip(i as int),
                frozen_enc(),
            ) + tail && sum_seq(ms, claim_frozen_fn()) <= b0 && (forall|k: int| 0 <= k < ms.len() ==> dec_frozen(
                #[trigger] ms[k],
            )),
            complete == exists|ms2: Seq<FrozenModel>, tail2: Seq<u8>| #[trigger] splits(r0, enc_seq(ms2, frozen_enc()), tail2)
                && ms2.len() == count && (forall|k: int| 0 <= k < ms2.len() ==> dec_frozen(#[trigger] ms2[k])) && sum_seq(
                ms2,
                claim_frozen_fn(),
            ) <= b0,
        decreases count - i,
    {
        let ghost ri = rd.rest();
        proof {
            if complete {
                lemma_enc_seq_front(ms.skip(i as int), frozen_enc());
                assert(ms.skip(i as int)[0] == ms[i as int]);
                assert(ms.skip(i as int).drop_first() =~= ms.skip(i + 1));
                assert(ri =~= enc_frozen(ms[i as int]) + (enc_seq(ms.skip(i + 1), frozen_enc()) + tail));
                assert(splits(ri, enc_frozen(ms[i as int]), enc_seq(ms.skip(i + 1), frozen_enc()) + tail));
                assert(ms.take(i + 1) =~= ms.take(i as int).push(ms[i as int]));
                lemma_sum_seq_push(ms.take(i as int), ms[i as int], claim_frozen_fn());
                lemma_sum_seq_prefix(ms, i + 1, claim_frozen_fn());
                assert(dec_frozen(ms[i as int]));
            }
        }
        let f = decode_frozen(rd)?;
        let ghost before = out@;
        proof {
            lemma_enc_seq_push(frozen_models(before), f@, frozen_enc());
            lemma_sum_seq_push(frozen_models(before), f@, claim_frozen_fn());
        }
        out.push(f);
        proof {
            assert(frozen_models(out@) =~= frozen_models(before).push(f@));
            assert(frozen_read(f@));
            assert(r0 =~= enc_seq(frozen_models(out@), frozen_enc()) + rd.rest());
            if complete {
                assert(frozen_models(out@) =~= ms.take(i + 1));
            }
        }
        i = i + 1;
    }
    proof {
        if complete {
            assert(frozen_models(out@) =~= ms);
            assert(ms.skip(count as int) =~= Seq::<FrozenModel>::empty());
        }
        assert forall|ms2: Seq<FrozenModel>, tail2: Seq<u8>| #[trigger] splits(r0, enc_seq(ms2, frozen_enc()), tail2)
            && ms2.len() == count && (forall|k: int| 0 <= k < ms2.len() ==> dec_frozen(#[trigger] ms2[k])) && sum_seq(
            ms2,
            claim_frozen_fn(),
        ) <= b0 implies frozen_models(out@) == ms2 && rd.rest() == tail2 by {
            assert(complete);
            lemma_frozens_inj(frozen_models(out@), rd.rest(), ms2, tail2);
        }
    }
    Ok(out)
}

pub open spec fn start_tag(s: AnimationTransitionStartTime) -> u8 {
    match s {
        AnimationTransitionStartTime::Restart => 0,
        AnimationTransitionStartTime::Preserve => 1,
        AnimationTransitionStartTime::MatchPhase => 2,
        AnimationTransitionStartTime::Seek(_) => 3,
    }
}

pub proof fn lemma_start_inj(a: AnimationTransitionStartTime, x: Seq<u8>, b: AnimationTransitionStartTime, y: Seq<u8>)
    requires
        enc_start(a) + x == enc_start(b) + y,
    ensures
        a == b,
        x == y,
{
    let ta: Seq<u8> = match a {
        AnimationTransitionStartTime::Seek(t) => enc_u64(t) + x,
        _ => x,
    };
    let tb: Seq<u8> = match b {
        AnimationTransitionStartTime::Seek(t) => enc_u64(t) + y,
        _ => y,
    };
    assert(enc_start(a) + x =~= enc_u8(start_tag(a)) + ta);
    assert(enc_start(b) + y =~= enc_u8(start_tag(b)) + tb);
    lemma_u8_inj(start_tag(a), ta, start_tag(b), tb);
    if let AnimationTransitionStartTime::Seek(p) = a {
        if let AnimationTransitionStartTime::Seek(q) = b {
            lemma_u64_inj(p, x, q, y);
        }
    }
}

/// Read a transition's destination clock policy.
fn decode_start(rd: &mut WorldBinaryReader) -> (r: Result<AnimationTransitionStartTime, String>)
    requires
        old(rd).wf(),
    ensures
        final(rd).wf(),
        final(rd).bytes == old(rd).bytes,
        final(rd).budget == old(rd).budget,
        r matches Ok(t) ==> splits(old(rd).rest(), enc_start(t), final(rd).rest()),
        forall|t: AnimationTransitionStartTime, tail: Seq<u8>| #[trigger] splits(old(rd).rest(), enc_start(t), tail) ==> (r
            == Ok::<AnimationTransitionStartTime, String>(t) && final(rd).rest() == tail),
{
    let ghost r0 = old(rd).rest();
    proof {
        assert forall|t: AnimationTransitionStartTime, tail: Seq<u8>| #[trigger] splits(r0, enc_start(t), tail) implies splits(
            r0,
            enc_u8(start_tag(t)),
            match t {
                AnimationTransitionStartTime::Seek(s) => enc_u64(s) + tail,
                _ => tail,
            },
        ) by {
            assert(enc_start(t) + tail =~= enc_u8(start_tag(t)) + match t {
                AnimationTransitionStartTime::Seek(s) => enc_u64(s) + tail,
                _ => tail,
            });
        }
    }
    let tag = rd.u8()?;
    let ghost r1 = rd.rest();
    proof {
        assert forall|t: AnimationTransitionStartTime, tail: Seq<u8>| #[trigger] splits(r0, enc_start(t), tail) implies
            start_tag(t) == tag && (t is Seek ==> splits(r1, enc_u64(t->Seek_0), tail)) by {
            let ta: Seq<u8> = match t {
                AnimationTransitionStartTime::Seek(s) => enc_u64(s) + tail,
                _ => tail,
            };
            lemma_u8_inj(start_tag(t), ta, tag, r1);
        }
    }
    let start = if tag == 0 {
        AnimationTransitionStartTime::Restart
    } else if tag == 1 {
        AnimationTransitionStartTime::Preserve
    } else if tag == 2 {
        AnimationTransitionStartTime::MatchPhase
    } else if tag == 3 {
        AnimationTransitionStartTime::Seek(rd.u64()?)
    } else {
        return Err("Invalid saved transition start time".to_owned());
    };
    proof {
        assert(enc_start(start) + rd.rest() =~= r0);
        assert forall|t: AnimationTransitionStartTime, tail: Seq<u8>| #[trigger] splits(r0, enc_start(t), tail) implies start
            == t && rd.rest() == tail by {
            lemma_start_inj(start, rd.rest(), t, tail);
        }
    }
    Ok(start)
}

/// Transition sources the decoder rebuilds.
/// What reading a source establishes: a rebuildable controller without a
/// transition of its own, or bounded frozen values read as such.
pub open spec fn source_read(s: SourceModel) -> bool {
    match s {
        SourceModel::Live(c) => dec_controller(c, 4) && c.transition is None,
        SourceModel::Frozen { values, bindings, .. } => {
            &&& dec_controller(bindings, 4)
            &&& bindings.transition is None
            &&& values.len() <= MAX_FROZEN
            &&& forall|i: int| 0 <= i < values.len() ==> frozen_read(#[trigger] values[i])
        },
    }
}

pub open spec fn dec_source(s: SourceModel) -> bool {
    match s {
        SourceModel::Live(c) => dec_controller(c, 4) && c.transition is None,
        SourceModel::Frozen { values, bindings, .. } => {
            &&& dec_controller(bindings, 4)
            &&& bindings.transition is None
            &&& values.len() <= MAX_FROZEN
            &&& forall|i: int| 0 <= i < values.len() ==> dec_frozen(#[trigger] values[i])
        },
    }
}

/// Allocation claimed while decoding a transition source.
pub open spec fn claim_source(s: SourceModel) -> nat {
    match s {
        SourceModel::Live(c) => claim_controller(c),
        SourceModel::Frozen { values, bindings, .. } => claim_controller(bindings) + (FROZEN_CLAIM * values.len()) as nat
            + sum_seq(values, claim_frozen_fn()),
    }
}

pub proof fn lemma_frozen_source_inj(
    va: Seq<FrozenModel>, ba: ControllerModel, ta: u64, da: u64, x: Seq<u8>,
    vb: Seq<FrozenModel>, bb: ControllerModel, tb: u64, db: u64, y: Seq<u8>,
)
    requires
        enc_frozen_source(va, ba, ta, da) + x == enc_frozen_source(vb, bb, tb, db) + y,
        dec_controller(ba, 4),
        dec_controller(bb, 4),
        va.len() <= u32::MAX,
        vb.len() <= u32::MAX,
        forall|i: int| 0 <= i < va.len() ==> dec_frozen(#[trigger] va[i]),
        forall|i: int| 0 <= i < vb.len() ==> dec_frozen(#[trigger] vb[i]),
    ensures
        va == vb,
        ba == bb,
        ta == tb,
        da == db,
        x == y,
{
    let fa = enc_count(va.len()) + enc_seq(va, frozen_enc());
    let fb = enc_count(vb.len()) + enc_seq(vb, frozen_enc());
    lemma_cat4(enc_u64(ta), enc_u64(da), enc_controller(ba, 4), fa, x);
    lemma_cat4(enc_u64(tb), enc_u64(db), enc_controller(bb, 4), fb, y);
    lemma_u64_inj(ta, enc_u64(da) + (enc_controller(ba, 4) + (fa + x)), tb, enc_u64(db) + (enc_controller(bb, 4) + (fb + y)));
    lemma_u64_inj(da, enc_controller(ba, 4) + (fa + x), db, enc_controller(bb, 4) + (fb + y));
    lemma_controller_inj(ba, fa + x, bb, fb + y, 4);
    assert(fa + x =~= enc_count(va.len()) + (enc_seq(va, frozen_enc()) + x));
    assert(fb + y =~= enc_count(vb.len()) + (enc_seq(vb, frozen_enc()) + y));
    lemma_count_inj(va.len(), enc_seq(va, frozen_enc()) + x, vb.len(), enc_seq(vb, frozen_enc()) + y);
    lemma_frozens_inj(va, x, vb, y);
}

#[verifier::spinoff_prover]
#[verifier::rlimit(60)]
pub proof fn lemma_source_inj(a: SourceModel, x: Seq<u8>, b: SourceModel, y: Seq<u8>)
    requires
        enc_source(a) + x == enc_source(b) + y,
        dec_source(a),
        dec_source(b),
    ensures
        a == b,
        x == y,
{
    let tag_a: u8 = if a is Live { 0 } else { 1 };
    let tag_b: u8 = if b is Live { 0 } else { 1 };
    let ra: Seq<u8> = match a {
        SourceModel::Live(c) => enc_controller(c, 4) + x,
        SourceModel::Frozen { values, bindings, reference_time, reference_duration } => enc_frozen_source(
            values,
            bindings,
            reference_time,
            reference_duration,
        ) + x,
    };
    let rb: Seq<u8> = match b {
        SourceModel::Live(c) => enc_controller(c, 4) + y,
        SourceModel::Frozen { values, bindings, reference_time, reference_duration } => enc_frozen_source(
            values,
            bindings,
            reference_time,
            reference_duration,
        ) + y,
    };
    assert(enc_source(a) + x =~= enc_u8(tag_a) + ra);
    assert(enc_source(b) + y =~= enc_u8(tag_b) + rb);
    lemma_u8_inj(tag_a, ra, tag_b, rb);
    match a {
        SourceModel::Live(ca) => {
            if let SourceModel::Live(cb) = b {
                lemma_controller_inj(ca, x, cb, y, 4);
            }
        },
        SourceModel::Frozen { values: va, bindings: ba, reference_time: ta, reference_duration: da } => {
            if let SourceModel::Frozen { values: vb, bindings: bb, reference_time: tb, reference_duration: db } = b {
                lemma_frozen_source_inj(va, ba, ta, da, x, vb, bb, tb, db, y);
            }
        },
    }
}

/// Read the frozen body of a transition source.
#[verifier::spinoff_prover]
#[verifier::rlimit(80)]
fn decode_frozen_source(rd: &mut WorldBinaryReader) -> (r: Result<AnimationPersistentTransitionSource, String>)
    requires
        old(rd).wf(),
    ensures
        final(rd).wf(),
        final(rd).bytes == old(rd).bytes,
        r matches Ok(s) ==> s is Frozen && splits(old(rd).rest(), enc_source(source_model(&s)), final(rd).rest())
            && final(rd).budget == old(rd).budget - claim_source(source_model(&s)) && (source_model(&s) matches SourceModel::Frozen {
            values,
            bindings,
            ..
        } && dec_controller(bindings, 4) && bindings.transition is None && values.len() <= MAX_FROZEN) && source_read(
            source_model(&s),
        ),
        forall|m: SourceModel, tail: Seq<u8>| #[trigger] splits(old(rd).rest(), enc_source(m), tail) && m is Frozen
            && dec_source(m) && claim_source(m) <= old(rd).budget ==> (r matches Ok(s) && source_model(&s) == m
            && final(rd).rest() == tail),
{
    let ghost r0 = old(rd).rest();
    let ghost b0 = old(rd).budget;
    let ghost complete = exists|m: SourceModel, tail: Seq<u8>| #[trigger] splits(r0, enc_source(m), tail) && m is Frozen
        && dec_source(m) && claim_source(m) <= b0;
    let ghost (m, tail) = choose|m: SourceModel, tail: Seq<u8>| #[trigger] splits(r0, enc_source(m), tail) && m is Frozen
        && dec_source(m) && claim_source(m) <= b0;
    let ghost (mv, mb, mt, md) = match m {
        SourceModel::Frozen { values, bindings, reference_time, reference_duration } => (values, bindings, reference_time, reference_duration),
        _ => (Seq::empty(), m->Live_0, 0u64, 0u64),
    };
    let ghost fv = enc_count(mv.len()) + enc_seq(mv, frozen_enc());
    proof {
        if complete {
            assert(enc_source(m) + tail =~= enc_u8(1) + (enc_frozen_source(mv, mb, mt, md) + tail));
            assert(splits(r0, enc_u8(1), enc_frozen_source(mv, mb, mt, md) + tail));
        }
    }
    let tag = rd.u8()?;
    if tag != 1 {
        return Err("Invalid saved transition source".to_owned());
    }
    let ghost r1 = rd.rest();
    proof {
        if complete {
            lemma_cat4(enc_u64(mt), enc_u64(md), enc_controller(mb, 4), fv, tail);
            assert(splits(r1, enc_u64(mt), enc_u64(md) + (enc_controller(mb, 4) + (fv + tail))));
        }
    }
    let reference_time = rd.u64()?;
    proof {
        if complete {
            assert(splits(rd.rest(), enc_u64(md), enc_controller(mb, 4) + (fv + tail)));
        }
    }
    let reference_duration = rd.u64()?;
    proof {
        if complete {
            assert(splits(rd.rest(), enc_controller(mb, 4), fv + tail));
            assert(claim_controller(mb) <= b0);
        }
    }
    let bindings = decode_controller(rd, 4)?;
    if bindings.transition.is_some() {
        return Err("Invalid saved frozen transition bindings".to_owned());
    }
    proof {
        lemma_enc_lens();
        if complete {
            assert(fv + tail =~= enc_count(mv.len()) + (enc_seq(mv, frozen_enc()) + tail));
            assert(splits(rd.rest(), enc_count(mv.len()), enc_seq(mv, frozen_enc()) + tail));
            assert forall|i: int| 0 <= i < mv.len() implies (#[trigger] frozen_enc()(mv[i])).len() >= FROZEN_MIN_BYTES by {
                lemma_frozen_len(mv[i]);
            }
            lemma_enc_seq_min(mv, frozen_enc(), FROZEN_MIN_BYTES as nat);
        }
    }
    let count = bounded_count(rd, FROZEN_MIN_BYTES, MAX_FROZEN)?;
    rd.claim(count * FROZEN_CLAIM)?;
    proof {
        if complete {
            assert(splits(rd.rest(), enc_seq(mv, frozen_enc()), tail));
        }
    }
    let values = decode_frozens(rd, count)?;
    let s = AnimationPersistentTransitionSource::Frozen { values, bindings, reference_time, reference_duration };
    proof {
        let sm = source_model(&s);
        lemma_cat4(enc_u64(reference_time), enc_u64(reference_duration), enc_controller(bindings@, 4), enc_count(count as nat)
            + enc_seq(frozen_models(values@), frozen_enc()), rd.rest());
        assert(enc_source(sm) + rd.rest() =~= r0);
        assert forall|m2: SourceModel, tail2: Seq<u8>| #[trigger] splits(r0, enc_source(m2), tail2) && m2 is Frozen
            && dec_source(m2) && claim_source(m2) <= b0 implies sm == m2 && rd.rest() == tail2 by {
            assert(complete);
            assert(sm == m);
            lemma_source_inj(sm, rd.rest(), m2, tail2);
        }
    }
    Ok(s)
}

/// Read a live transition source.
#[verifier::spinoff_prover]
#[verifier::rlimit(40)]
fn decode_live_source(rd: &mut WorldBinaryReader) -> (r: Result<AnimationPersistentTransitionSource, String>)
    requires
        old(rd).wf(),
    ensures
        final(rd).wf(),
        final(rd).bytes == old(rd).bytes,
        r matches Ok(s) ==> s is Live && splits(old(rd).rest(), enc_source(source_model(&s)), final(rd).rest())
            && final(rd).budget == old(rd).budget - claim_source(source_model(&s)) && dec_source(source_model(&s)),
        forall|m: SourceModel, tail: Seq<u8>| #[trigger] splits(old(rd).rest(), enc_source(m), tail) && m is Live
            && dec_source(m) && claim_source(m) <= old(rd).budget ==> (r matches Ok(s) && source_model(&s) == m
            && final(rd).rest() == tail),
{
    let ghost r0 = old(rd).rest();
    let ghost b0 = old(rd).budget;
    proof {
        assert forall|m: SourceModel, tail: Seq<u8>| #[trigger] splits(r0, enc_source(m), tail) && m is Live implies splits(
            r0,
            enc_u8(0),
            enc_controller(m->Live_0, 4) + tail,
        ) by {
            assert(enc_source(m) + tail =~= enc_u8(0) + (enc_controller(m->Live_0, 4) + tail));
        }
    }
    let tag = rd.u8()?;
    if tag != 0 {
        return Err("Invalid saved transition source".to_owned());
    }
    let ghost r1 = rd.rest();
    proof {
        assert forall|m: SourceModel, tail: Seq<u8>| #[trigger] splits(r0, enc_source(m), tail) && m is Live implies splits(
            r1,
            enc_controller(m->Live_0, 4),
            tail,
        ) by {
            assert(enc_source(m) + tail =~= enc_u8(0) + (enc_controller(m->Live_0, 4) + tail));
            lemma_u8_inj(0, enc_controller(m->Live_0, 4) + tail, tag, r1);
        }
    }
    let source = decode_controller(rd, 4)?;
    if source.transition.is_some() {
        return Err("Invalid saved live transition source".to_owned());
    }
    let s = AnimationPersistentTransitionSource::Live(source);
    proof {
        assert(enc_source(source_model(&s)) + rd.rest() =~= r0);
        assert forall|m2: SourceModel, tail2: Seq<u8>| #[trigger] splits(r0, enc_source(m2), tail2) && m2 is Live
            && dec_source(m2) && claim_source(m2) <= b0 implies source_model(&s) == m2 && rd.rest() == tail2 by {
            lemma_source_inj(source_model(&s), rd.rest(), m2, tail2);
        }
    }
    Ok(s)
}

/// Read a transition source, live or frozen.
fn decode_source(rd: &mut WorldBinaryReader) -> (r: Result<AnimationPersistentTransitionSource, String>)
    requires
        old(rd).wf(),
    ensures
        final(rd).wf(),
        final(rd).bytes == old(rd).bytes,
        r matches Ok(s) ==> splits(old(rd).rest(), enc_source(source_model(&s)), final(rd).rest()) && final(rd).budget
            == old(rd).budget - claim_source(source_model(&s)) && source_read(source_model(&s)),
        forall|m: SourceModel, tail: Seq<u8>| #[trigger] splits(old(rd).rest(), enc_source(m), tail) && dec_source(m)
            && claim_source(m) <= old(rd).budget ==> (r matches Ok(s) && source_model(&s) == m && final(rd).rest() == tail),
{
    let ghost r0 = old(rd).rest();
    proof {
        lemma_enc_lens();
        assert forall|m: SourceModel, tail: Seq<u8>| #[trigger] splits(r0, enc_source(m), tail) implies r0.len() >= 1
            && r0[0] == (if m is Live { 0u8 } else { 1u8 }) by {
            let rm: Seq<u8> = match m {
                SourceModel::Live(c) => enc_controller(c, 4) + tail,
                SourceModel::Frozen { values, bindings, reference_time, reference_duration } => enc_frozen_source(
                    values,
                    bindings,
                    reference_time,
                    reference_duration,
                ) + tail,
            };
            assert(enc_source(m) + tail =~= enc_u8(if m is Live { 0u8 } else { 1u8 }) + rm);
            crate::systems::animation::binary::lemma_le_len((if m is Live { 0u8 } else { 1u8 }) as nat, 1);
            assert(enc_u8(if m is Live { 0u8 } else { 1u8 })[0] == (if m is Live { 0u8 } else { 1u8 }));
        }
    }
    if rd.pos >= rd.bytes.len() {
        return Err("Truncated world state".to_owned());
    }
    proof {
        assert(r0[0] == rd.bytes@[rd.pos as int]);
    }
    if rd.bytes[rd.pos] == 0 {
        decode_live_source(rd)
    } else {
        decode_frozen_source(rd)
    }
}

/// Transitions the decoder rebuilds.
pub open spec fn dec_transition(t: TransitionModel) -> bool {
    dec_source(t.source)
}

/// Allocation claimed while decoding a transition.
pub open spec fn claim_transition(t: TransitionModel) -> nat {
    claim_source(t.source)
}

pub open spec fn claim_transition_fn() -> spec_fn(TransitionModel) -> nat {
    |t: TransitionModel| claim_transition(t)
}

pub open spec fn claim_controller_fn() -> spec_fn(ControllerModel) -> nat {
    |c: ControllerModel| claim_controller(c)
}

pub proof fn lemma_transition_inj(a: TransitionModel, x: Seq<u8>, b: TransitionModel, y: Seq<u8>)
    requires
        enc_transition(a) + x == enc_transition(b) + y,
        dec_transition(a),
        dec_transition(b),
    ensures
        a == b,
        x == y,
{
    lemma_cat3(enc_u64(a.id.bits), enc_start(a.start_time), enc_source(a.source), x);
    lemma_cat3(enc_u64(b.id.bits), enc_start(b.start_time), enc_source(b.source), y);
    lemma_u64_inj(a.id.bits, enc_start(a.start_time) + (enc_source(a.source) + x), b.id.bits, enc_start(b.start_time) + (
    enc_source(b.source) + y));
    lemma_start_inj(a.start_time, enc_source(a.source) + x, b.start_time, enc_source(b.source) + y);
    lemma_source_inj(a.source, x, b.source, y);
}

/// Read one persistent transition.
fn decode_transition(rd: &mut WorldBinaryReader) -> (r: Result<AnimationPersistentTransition, String>)
    requires
        old(rd).wf(),
    ensures
        final(rd).wf(),
        final(rd).bytes == old(rd).bytes,
        r matches Ok(t) ==> splits(old(rd).rest(), enc_transition(t@), final(rd).rest()) && final(rd).budget == old(
            rd,
        ).budget - claim_transition(t@) && source_read(t@.source),
        forall|m: TransitionModel, tail: Seq<u8>| #[trigger] splits(old(rd).rest(), enc_transition(m), tail) && dec_transition(
            m,
        ) && claim_transition(m) <= old(rd).budget ==> (r matches Ok(t) && t@ == m && final(rd).rest() == tail),
{
    let ghost r0 = old(rd).rest();
    let ghost b0 = old(rd).budget;
    let ghost complete = exists|m: TransitionModel, tail: Seq<u8>| #[trigger] splits(r0, enc_transition(m), tail)
        && dec_transition(m) && claim_transition(m) <= b0;
    let ghost (m, tail) = choose|m: TransitionModel, tail: Seq<u8>| #[trigger] splits(r0, enc_transition(m), tail)
        && dec_transition(m) && claim_transition(m) <= b0;
    proof {
        if complete {
            lemma_cat3(enc_u64(m.id.bits), enc_start(m.start_time), enc_source(m.source), tail);
            assert(splits(r0, enc_u64(m.id.bits), enc_start(m.start_time) + (enc_source(m.source) + tail)));
        }
    }
    let id = rd.u64()?;
    proof {
        if complete {
            assert(splits(rd.rest(), enc_start(m.start_time), enc_source(m.source) + tail));
        }
    }
    let start_time = decode_start(rd)?;
    proof {
        if complete {
            assert(splits(rd.rest(), enc_source(m.source), tail));
        }
    }
    let source = decode_source(rd)?;
    let t = AnimationPersistentTransition { id: AnimationControllerId { bits: id }, source, start_time };
    proof {
        lemma_cat3(enc_u64(id), enc_start(start_time), enc_source(t@.source), rd.rest());
        assert forall|m2: TransitionModel, tail2: Seq<u8>| #[trigger] splits(r0, enc_transition(m2), tail2) && dec_transition(
            m2,
        ) && claim_transition(m2) <= b0 implies t@ == m2 && rd.rest() == tail2 by {
            assert(complete);
            assert(t@ == m);
            lemma_transition_inj(t@, rd.rest(), m2, tail2);
        }
    }
    Ok(t)
}

#[verifier::spinoff_prover]
#[verifier::rlimit(40)]
pub proof fn lemma_transitions_inj(a: Seq<TransitionModel>, x: Seq<u8>, b: Seq<TransitionModel>, y: Seq<u8>)
    requires
        enc_seq(a, transition_enc()) + x == enc_seq(b, transition_enc()) + y,
        a.len() == b.len(),
        forall|i: int| 0 <= i < a.len() ==> dec_transition(#[trigger] a[i]),
        forall|i: int| 0 <= i < b.len() ==> dec_transition(#[trigger] b[i]),
    ensures
        a == b,
        x == y,
    decreases a.len(),
{
    if a.len() == 0 {
        assert(enc_seq(a, transition_enc()) + x =~= x);
        assert(enc_seq(b, transition_enc()) + y =~= y);
        assert(a =~= b);
    } else {
        lemma_enc_seq_front(a, transition_enc());
        lemma_enc_seq_front(b, transition_enc());
        assert(enc_seq(a, transition_enc()) + x =~= enc_transition(a[0]) + (enc_seq(a.drop_first(), transition_enc()) + x));
        assert(enc_seq(b, transition_enc()) + y =~= enc_transition(b[0]) + (enc_seq(b.drop_first(), transition_enc()) + y));
        assert(dec_transition(a[0]));
        assert(dec_transition(b[0]));
        lemma_transition_inj(a[0], enc_seq(a.drop_first(), transition_enc()) + x, b[0], enc_seq(b.drop_first(), transition_enc()) + y);
        assert forall|i: int| 0 <= i < a.drop_first().len() implies dec_transition(#[trigger] a.drop_first()[i]) by {
            assert(a.drop_first()[i] == a[i + 1]);
        }
        assert forall|i: int| 0 <= i < b.drop_first().len() implies dec_transition(#[trigger] b.drop_first()[i]) by {
            assert(b.drop_first()[i] == b[i + 1]);
        }
        lemma_transitions_inj(a.drop_first(), x, b.drop_first(), y);
        assert(a =~= seq![a[0]] + a.drop_first());
        assert(b =~= seq![b[0]] + b.drop_first());
    }
}

#[verifier::spinoff_prover]
#[verifier::rlimit(40)]
pub proof fn lemma_controllers_inj(a: Seq<ControllerModel>, x: Seq<u8>, b: Seq<ControllerModel>, y: Seq<u8>, version: u32)
    requires
        enc_seq(a, controller_enc(version)) + x == enc_seq(b, controller_enc(version)) + y,
        a.len() == b.len(),
        forall|i: int| 0 <= i < a.len() ==> dec_controller(#[trigger] a[i], version),
        forall|i: int| 0 <= i < b.len() ==> dec_controller(#[trigger] b[i], version),
    ensures
        a == b,
        x == y,
    decreases a.len(),
{
    if a.len() == 0 {
        assert(enc_seq(a, controller_enc(version)) + x =~= x);
        assert(enc_seq(b, controller_enc(version)) + y =~= y);
        assert(a =~= b);
    } else {
        lemma_enc_seq_front(a, controller_enc(version));
        lemma_enc_seq_front(b, controller_enc(version));
        assert(enc_seq(a, controller_enc(version)) + x =~= enc_controller(a[0], version) + (enc_seq(a.drop_first(), controller_enc(version)) + x));
        assert(enc_seq(b, controller_enc(version)) + y =~= enc_controller(b[0], version) + (enc_seq(b.drop_first(), controller_enc(version)) + y));
        assert(dec_controller(a[0], version));
        assert(dec_controller(b[0], version));
        lemma_controller_inj(a[0], enc_seq(a.drop_first(), controller_enc(version)) + x, b[0], enc_seq(b.drop_first(), controller_enc(version)) + y, version);
        assert forall|i: int| 0 <= i < a.drop_first().len() implies dec_controller(#[trigger] a.drop_first()[i], version) by {
            assert(a.drop_first()[i] == a[i + 1]);
        }
        assert forall|i: int| 0 <= i < b.drop_first().len() implies dec_controller(#[trigger] b.drop_first()[i], version) by {
            assert(b.drop_first()[i] == b[i + 1]);
        }
        lemma_controllers_inj(a.drop_first(), x, b.drop_first(), y, version);
        assert(a =~= seq![a[0]] + a.drop_first());
        assert(b =~= seq![b[0]] + b.drop_first());
    }
}

/// Read `count` controllers.
#[verifier::spinoff_prover]
#[verifier::rlimit(60)]
fn decode_controllers(rd: &mut WorldBinaryReader, count: usize, version: u32) -> (r: Result<Vec<AnimationControllerSnapshot>, String>)
    requires
        old(rd).wf(),
    ensures
        final(rd).wf(),
        final(rd).bytes == old(rd).bytes,
        r matches Ok(vs) ==> vs@.len() == count && splits(old(rd).rest(), enc_seq(controller_models(vs@), controller_enc(version)), final(rd).rest())
            && final(rd).budget == old(rd).budget - sum_seq(controller_models(vs@), claim_controller_fn()) && (forall|i: int|
            0 <= i < vs@.len() ==> dec_controller(#[trigger] controller_models(vs@)[i], version)),
        forall|ms: Seq<ControllerModel>, tail: Seq<u8>| #[trigger] splits(old(rd).rest(), enc_seq(ms, controller_enc(version)), tail)
            && ms.len() == count && (forall|i: int| 0 <= i < ms.len() ==> dec_controller(#[trigger] ms[i], version)) && sum_seq(
            ms,
            claim_controller_fn(),
        ) <= old(rd).budget ==> (r matches Ok(vs) && controller_models(vs@) == ms && final(rd).rest() == tail),
{
    let ghost r0 = old(rd).rest();
    let ghost b0 = old(rd).budget;
    let ghost complete = exists|ms: Seq<ControllerModel>, tail: Seq<u8>| #[trigger] splits(r0, enc_seq(ms, controller_enc(version)), tail)
        && ms.len() == count && (forall|i: int| 0 <= i < ms.len() ==> dec_controller(#[trigger] ms[i], version)) && sum_seq(
        ms,
        claim_controller_fn(),
    ) <= b0;
    let ghost (ms, tail) = choose|ms: Seq<ControllerModel>, tail: Seq<u8>| #[trigger] splits(r0, enc_seq(ms, controller_enc(version)), tail)
        && ms.len() == count && (forall|i: int| 0 <= i < ms.len() ==> dec_controller(#[trigger] ms[i], version)) && sum_seq(
        ms,
        claim_controller_fn(),
    ) <= b0;
    let mut out: Vec<AnimationControllerSnapshot> = Vec::new();
    let mut i: usize = 0;
    proof {
        assert(controller_models(out@) =~= Seq::<ControllerModel>::empty());
        assert(r0 =~= enc_seq(controller_models(out@), controller_enc(version)) + rd.rest());
        if complete {
            assert(ms.skip(0) =~= ms);
        }
    }
    while i < count
        invariant
            rd.wf(),
            rd.bytes == old(rd).bytes,
            r0 == old(rd).rest(),
            b0 == old(rd).budget,
            i <= count,
            out@.len() == i,
            splits(r0, enc_seq(controller_models(out@), controller_enc(version)), rd.rest()),
            rd.budget == b0 - sum_seq(controller_models(out@), claim_controller_fn()),
            forall|k: int| 0 <= k < out@.len() ==> dec_controller(#[trigger] controller_models(out@)[k], version),
            complete ==> ms.len() == count && controller_models(out@) == ms.take(i as int) && rd.rest() == enc_seq(
                ms.skip(i as int),
                controller_enc(version),
            ) + tail && sum_seq(ms, claim_controller_fn()) <= b0 && (forall|k: int| 0 <= k < ms.len() ==> dec_controller(#[trigger] ms[k], version)),
            complete == exists|ms2: Seq<ControllerModel>, tail2: Seq<u8>| #[trigger] splits(r0, enc_seq(ms2, controller_enc(version)), tail2)
                && ms2.len() == count && (forall|k: int| 0 <= k < ms2.len() ==> dec_controller(#[trigger] ms2[k], version)) && sum_seq(
                ms2,
                claim_controller_fn(),
            ) <= b0,
        decreases count - i,
    {
        let ghost ri = rd.rest();
        proof {
            if complete {
                lemma_enc_seq_front(ms.skip(i as int), controller_enc(version));
                assert(ms.skip(i as int)[0] == ms[i as int]);
                assert(ms.skip(i as int).drop_first() =~= ms.skip(i + 1));
                assert(ri =~= enc_controller(ms[i as int], version) + (enc_seq(ms.skip(i + 1), controller_enc(version)) + tail));
                assert(splits(ri, enc_controller(ms[i as int], version), enc_seq(ms.skip(i + 1), controller_enc(version)) + tail));
                assert(ms.take(i + 1) =~= ms.take(i as int).push(ms[i as int]));
                lemma_sum_seq_push(ms.take(i as int), ms[i as int], claim_controller_fn());
                lemma_sum_seq_prefix(ms, i + 1, claim_controller_fn());
                assert(dec_controller(ms[i as int], version));
            }
        }
        let f = decode_controller(rd, version)?;
        let ghost before = out@;
        proof {
            lemma_enc_seq_push(controller_models(before), f@, controller_enc(version));
            lemma_sum_seq_push(controller_models(before), f@, claim_controller_fn());
        }
        out.push(f);
        proof {
            assert(controller_models(out@) =~= controller_models(before).push(f@));
            assert(dec_controller(f@, version));
            assert(r0 =~= enc_seq(controller_models(out@), controller_enc(version)) + rd.rest());
            if complete {
                assert(controller_models(out@) =~= ms.take(i + 1));
            }
        }
        i = i + 1;
    }
    proof {
        if complete {
            assert(controller_models(out@) =~= ms);
            assert(ms.skip(count as int) =~= Seq::<ControllerModel>::empty());
        }
        assert forall|ms2: Seq<ControllerModel>, tail2: Seq<u8>| #[trigger] splits(r0, enc_seq(ms2, controller_enc(version)), tail2)
            && ms2.len() == count && (forall|k: int| 0 <= k < ms2.len() ==> dec_controller(#[trigger] ms2[k], version)) && sum_seq(
            ms2,
            claim_controller_fn(),
        ) <= b0 implies controller_models(out@) == ms2 && rd.rest() == tail2 by {
            assert(complete);
            lemma_controllers_inj(controller_models(out@), rd.rest(), ms2, tail2, version);
        }
    }
    Ok(out)
}

/// Read `count` transitions.
#[verifier::spinoff_prover]
#[verifier::rlimit(60)]
fn decode_transitions(rd: &mut WorldBinaryReader, count: usize) -> (r: Result<Vec<AnimationPersistentTransition>, String>)
    requires
        old(rd).wf(),
    ensures
        final(rd).wf(),
        final(rd).bytes == old(rd).bytes,
        r matches Ok(vs) ==> vs@.len() == count && splits(old(rd).rest(), enc_seq(transition_models(vs@), transition_enc()), final(rd).rest())
            && final(rd).budget == old(rd).budget - sum_seq(transition_models(vs@), claim_transition_fn()) && (forall|i: int|
            0 <= i < vs@.len() ==> source_read((#[trigger] transition_models(vs@)[i]).source)),
        forall|ms: Seq<TransitionModel>, tail: Seq<u8>| #[trigger] splits(old(rd).rest(), enc_seq(ms, transition_enc()), tail)
            && ms.len() == count && (forall|i: int| 0 <= i < ms.len() ==> dec_transition(#[trigger] ms[i])) && sum_seq(
            ms,
            claim_transition_fn(),
        ) <= old(rd).budget ==> (r matches Ok(vs) && transition_models(vs@) == ms && final(rd).rest() == tail),
{
    let ghost r0 = old(rd).rest();
    let ghost b0 = old(rd).budget;
    let ghost complete = exists|ms: Seq<TransitionModel>, tail: Seq<u8>| #[trigger] splits(r0, enc_seq(ms, transition_enc()), tail)
        && ms.len() == count && (forall|i: int| 0 <= i < ms.len() ==> dec_transition(#[trigger] ms[i])) && sum_seq(
        ms,
        claim_transition_fn(),
    ) <= b0;
    let ghost (ms, tail) = choose|ms: Seq<TransitionModel>, tail: Seq<u8>| #[trigger] splits(r0, enc_seq(ms, transition_enc()), tail)
        && ms.len() == count && (forall|i: int| 0 <= i < ms.len() ==> dec_transition(#[trigger] ms[i])) && sum_seq(
        ms,
        claim_transition_fn(),
    ) <= b0;
    let mut out: Vec<AnimationPersistentTransition> = Vec::new();
    let mut i: usize = 0;
    proof {
        assert(transition_models(out@) =~= Seq::<TransitionModel>::empty());
        assert(r0 =~= enc_seq(transition_models(out@), transition_enc()) + rd.rest());
        if complete {
            assert(ms.skip(0) =~= ms);
        }
    }
    while i < count
        invariant
            rd.wf(),
            rd.bytes == old(rd).bytes,
            r0 == old(rd).rest(),
            b0 == old(rd).budget,
            i <= count,
            out@.len() == i,
            splits(r0, enc_seq(transition_models(out@), transition_enc()), rd.rest()),
            rd.budget == b0 - sum_seq(transition_models(out@), claim_transition_fn()),
            forall|k: int| 0 <= k < out@.len() ==> source_read((#[trigger] transition_models(out@)[k]).source),
            complete ==> ms.len() == count && transition_models(out@) == ms.take(i as int) && rd.rest() == enc_seq(
                ms.skip(i as int),
                transition_enc(),
            ) + tail && sum_seq(ms, claim_transition_fn()) <= b0 && (forall|k: int| 0 <= k < ms.len() ==> dec_transition(#[trigger] ms[k])),
            complete == exists|ms2: Seq<TransitionModel>, tail2: Seq<u8>| #[trigger] splits(r0, enc_seq(ms2, transition_enc()), tail2)
                && ms2.len() == count && (forall|k: int| 0 <= k < ms2.len() ==> dec_transition(#[trigger] ms2[k])) && sum_seq(
                ms2,
                claim_transition_fn(),
            ) <= b0,
        decreases count - i,
    {
        let ghost ri = rd.rest();
        proof {
            if complete {
                lemma_enc_seq_front(ms.skip(i as int), transition_enc());
                assert(ms.skip(i as int)[0] == ms[i as int]);
                assert(ms.skip(i as int).drop_first() =~= ms.skip(i + 1));
                assert(ri =~= enc_transition(ms[i as int]) + (enc_seq(ms.skip(i + 1), transition_enc()) + tail));
                assert(splits(ri, enc_transition(ms[i as int]), enc_seq(ms.skip(i + 1), transition_enc()) + tail));
                assert(ms.take(i + 1) =~= ms.take(i as int).push(ms[i as int]));
                lemma_sum_seq_push(ms.take(i as int), ms[i as int], claim_transition_fn());
                lemma_sum_seq_prefix(ms, i + 1, claim_transition_fn());
                assert(dec_transition(ms[i as int]));
            }
        }
        let f = decode_transition(rd)?;
        let ghost before = out@;
        proof {
            lemma_enc_seq_push(transition_models(before), f@, transition_enc());
            lemma_sum_seq_push(transition_models(before), f@, claim_transition_fn());
        }
        out.push(f);
        proof {
            assert(transition_models(out@) =~= transition_models(before).push(f@));
            assert(source_read(f@.source));
            assert(r0 =~= enc_seq(transition_models(out@), transition_enc()) + rd.rest());
            if complete {
                assert(transition_models(out@) =~= ms.take(i + 1));
            }
        }
        i = i + 1;
    }
    proof {
        if complete {
            assert(transition_models(out@) =~= ms);
            assert(ms.skip(count as int) =~= Seq::<TransitionModel>::empty());
        }
        assert forall|ms2: Seq<TransitionModel>, tail2: Seq<u8>| #[trigger] splits(r0, enc_seq(ms2, transition_enc()), tail2)
            && ms2.len() == count && (forall|k: int| 0 <= k < ms2.len() ==> dec_transition(#[trigger] ms2[k])) && sum_seq(
            ms2,
            claim_transition_fn(),
        ) <= b0 implies transition_models(out@) == ms2 && rd.rest() == tail2 by {
            assert(complete);
            lemma_transitions_inj(transition_models(out@), rd.rest(), ms2, tail2);
        }
    }
    Ok(out)
}

pub proof fn lemma_ids_inj(a: Seq<AnimationControllerId>, x: Seq<u8>, b: Seq<AnimationControllerId>, y: Seq<u8>)
    requires
        enc_seq(a, id_enc()) + x == enc_seq(b, id_enc()) + y,
        a.len() == b.len(),
    ensures
        a == b,
        x == y,
    decreases a.len(),
{
    if a.len() == 0 {
        assert(enc_seq(a, id_enc()) + x =~= x);
        assert(enc_seq(b, id_enc()) + y =~= y);
        assert(a =~= b);
    } else {
        lemma_enc_seq_front(a, id_enc());
        lemma_enc_seq_front(b, id_enc());
        assert(enc_seq(a, id_enc()) + x =~= enc_u64(a[0].bits) + (enc_seq(a.drop_first(), id_enc()) + x));
        assert(enc_seq(b, id_enc()) + y =~= enc_u64(b[0].bits) + (enc_seq(b.drop_first(), id_enc()) + y));
        lemma_u64_inj(a[0].bits, enc_seq(a.drop_first(), id_enc()) + x, b[0].bits, enc_seq(b.drop_first(), id_enc()) + y);
        lemma_ids_inj(a.drop_first(), x, b.drop_first(), y);
        assert(a =~= seq![a[0]] + a.drop_first());
        assert(b =~= seq![b[0]] + b.drop_first());
    }
}

/// Read `count` controller identities.
fn decode_ids(rd: &mut WorldBinaryReader, count: usize) -> (r: Result<Vec<AnimationControllerId>, String>)
    requires
        old(rd).wf(),
    ensures
        final(rd).wf(),
        final(rd).bytes == old(rd).bytes,
        final(rd).budget == old(rd).budget,
        r matches Ok(v) ==> v@.len() == count && splits(old(rd).rest(), enc_seq(v@, id_enc()), final(rd).rest()),
        forall|ms: Seq<AnimationControllerId>, tail: Seq<u8>| #[trigger] splits(old(rd).rest(), enc_seq(ms, id_enc()), tail)
            && ms.len() == count ==> (r matches Ok(v) && v@ == ms && final(rd).rest() == tail),
{
    let ghost r0 = old(rd).rest();
    let ghost complete = exists|ms: Seq<AnimationControllerId>, tail: Seq<u8>| #[trigger] splits(r0, enc_seq(ms, id_enc()), tail)
        && ms.len() == count;
    let ghost (ms, tail) = choose|ms: Seq<AnimationControllerId>, tail: Seq<u8>| #[trigger] splits(r0, enc_seq(ms, id_enc()), tail)
        && ms.len() == count;
    let mut out: Vec<AnimationControllerId> = Vec::new();
    let mut i: usize = 0;
    proof {
        assert(out@ =~= Seq::<AnimationControllerId>::empty());
        assert(r0 =~= enc_seq(out@, id_enc()) + rd.rest());
        if complete {
            assert(ms.skip(0) =~= ms);
        }
    }
    while i < count
        invariant
            rd.wf(),
            rd.bytes == old(rd).bytes,
            rd.budget == old(rd).budget,
            r0 == old(rd).rest(),
            i <= count,
            out@.len() == i,
            splits(r0, enc_seq(out@, id_enc()), rd.rest()),
            complete ==> ms.len() == count && out@ == ms.take(i as int) && rd.rest() == enc_seq(ms.skip(i as int), id_enc())
                + tail,
            complete == exists|ms2: Seq<AnimationControllerId>, tail2: Seq<u8>| #[trigger] splits(r0, enc_seq(ms2, id_enc()), tail2)
                && ms2.len() == count,
        decreases count - i,
    {
        let ghost ri = rd.rest();
        proof {
            lemma_enc_lens();
            if complete {
                lemma_enc_seq_front(ms.skip(i as int), id_enc());
                assert(ms.skip(i as int)[0] == ms[i as int]);
                assert(ms.skip(i as int).drop_first() =~= ms.skip(i + 1));
                assert(ri =~= enc_u64(ms[i as int].bits) + (enc_seq(ms.skip(i + 1), id_enc()) + tail));
                assert(splits(ri, enc_u64(ms[i as int].bits), enc_seq(ms.skip(i + 1), id_enc()) + tail));
            }
        }
        let bits = rd.u64()?;
        let id = AnimationControllerId { bits };
        proof {
            lemma_enc_seq_push(out@, id, id_enc());
        }
        out.push(id);
        proof {
            assert(r0 =~= enc_seq(out@, id_enc()) + rd.rest());
        }
        i = i + 1;
        proof {
            if complete {
                assert(out@ =~= ms.take(i as int));
            }
        }
    }
    proof {
        if complete {
            assert(out@ =~= ms);
            assert(ms.skip(count as int) =~= Seq::<AnimationControllerId>::empty());
        }
        assert forall|ms2: Seq<AnimationControllerId>, tail2: Seq<u8>| #[trigger] splits(r0, enc_seq(ms2, id_enc()), tail2)
            && ms2.len() == count implies out@ == ms2 && rd.rest() == tail2 by {
            lemma_ids_inj(out@, rd.rest(), ms2, tail2);
        }
    }
    Ok(out)
}

/// Minimum encoded size of a controller, used to bound its count.
pub const CONTROLLER_MIN_BYTES: usize = 26;

/// Minimum encoded size of a transition, used to bound its count.
pub const TRANSITION_MIN_BYTES: usize = 10;

/// Encoded size of a controller identity.
pub const ID_BYTES: usize = 8;

/// States the decoder rebuilds in a format version.
pub open spec fn dec_state(m: StateModel, version: u32) -> bool {
    &&& m.controllers.len() <= crate::systems::animation::MAX_CONTROLLERS
    &&& forall|i: int| 0 <= i < m.controllers.len() ==> dec_controller(#[trigger] m.controllers[i], version)
    &&& (version >= 4 ==> m.transitions.len() <= crate::systems::animation::MAX_CONTROLLERS)
    &&& (version >= 4 ==> forall|i: int| 0 <= i < m.transitions.len() ==> dec_transition(#[trigger] m.transitions[i]))
    &&& (version < 4 ==> m.transitions.len() == 0)
    &&& (version < 5 ==> m.directional_starts.len() == 0)
    &&& m.directional_starts.len() <= u32::MAX
}

/// What reading a state in a version establishes: bounded counts,
/// rebuildable controllers and sources read as such.
pub open spec fn state_read(m: StateModel, version: u32) -> bool {
    &&& m.controllers.len() <= crate::systems::animation::MAX_CONTROLLERS
    &&& forall|i: int| 0 <= i < m.controllers.len() ==> dec_controller(#[trigger] m.controllers[i], version)
    &&& m.transitions.len() <= crate::systems::animation::MAX_CONTROLLERS
    &&& forall|i: int| 0 <= i < m.transitions.len() ==> source_read((#[trigger] m.transitions[i]).source)
    &&& (version < 4 ==> m.transitions.len() == 0)
    &&& (version < 5 ==> m.directional_starts.len() == 0)
    &&& m.directional_starts.len() <= u32::MAX
}

/// Allocation claimed while decoding a state.
pub open spec fn claim_state(m: StateModel, version: u32) -> nat {
    (CONTROLLER_CLAIM * m.controllers.len()) as nat + sum_seq(m.controllers, claim_controller_fn()) + if version >= 4 {
        (TRANSITION_CLAIM * m.transitions.len()) as nat + sum_seq(m.transitions, claim_transition_fn())
    } else {
        0
    }
}

pub proof fn lemma_controller_len(c: ControllerModel, version: u32)
    ensures
        enc_controller(c, version).len() >= CONTROLLER_MIN_BYTES,
{
    lemma_enc_lens();
}

pub proof fn lemma_transition_len(t: TransitionModel)
    ensures
        enc_transition(t).len() >= TRANSITION_MIN_BYTES,
{
    lemma_enc_lens();
    assert(enc_start(t.start_time).len() >= 1);
    assert(enc_source(t.source).len() >= 1);
}

pub proof fn lemma_ids_len(s: Seq<AnimationControllerId>)
    ensures
        enc_seq(s, id_enc()).len() >= s.len() * ID_BYTES,
{
    lemma_enc_lens();
    assert forall|i: int| 0 <= i < s.len() implies (#[trigger] id_enc()(s[i])).len() >= ID_BYTES by {}
    lemma_enc_seq_min(s, id_enc(), ID_BYTES as nat);
}

#[verifier::spinoff_prover]
#[verifier::rlimit(60)]
pub proof fn lemma_state_inj(a: StateModel, x: Seq<u8>, b: StateModel, y: Seq<u8>, version: u32)
    requires
        enc_state(a, version) + x == enc_state(b, version) + y,
        dec_state(a, version),
        dec_state(b, version),
    ensures
        a == b,
        x == y,
{
    let ca = enc_seq(a.controllers, controller_enc(version));
    let cb = enc_seq(b.controllers, controller_enc(version));
    let ta = enc_transitions_section(a, version);
    let tb = enc_transitions_section(b, version);
    let da = enc_directional_section(a, version);
    let db = enc_directional_section(b, version);
    lemma_cat5(enc_u64(a.next_id), enc_count(a.controllers.len()), ca, ta, da, x);
    lemma_cat5(enc_u64(b.next_id), enc_count(b.controllers.len()), cb, tb, db, y);
    lemma_u64_inj(a.next_id, enc_count(a.controllers.len()) + (ca + (ta + (da + x))), b.next_id, enc_count(b.controllers.len())
        + (cb + (tb + (db + y))));
    lemma_count_inj(a.controllers.len(), ca + (ta + (da + x)), b.controllers.len(), cb + (tb + (db + y)));
    lemma_controllers_inj(a.controllers, ta + (da + x), b.controllers, tb + (db + y), version);
    if version >= 4 {
        let sa = enc_seq(a.transitions, transition_enc());
        let sb = enc_seq(b.transitions, transition_enc());
        assert(ta + (da + x) =~= enc_count(a.transitions.len()) + (sa + (da + x)));
        assert(tb + (db + y) =~= enc_count(b.transitions.len()) + (sb + (db + y)));
        lemma_count_inj(a.transitions.len(), sa + (da + x), b.transitions.len(), sb + (db + y));
        lemma_transitions_inj(a.transitions, da + x, b.transitions, db + y);
    } else {
        assert(ta + (da + x) =~= da + x);
        assert(tb + (db + y) =~= db + y);
        assert(a.transitions =~= b.transitions);
    }
    if version >= 5 {
        let ia = enc_seq(a.directional_starts, id_enc());
        let ib = enc_seq(b.directional_starts, id_enc());
        assert(da + x =~= enc_count(a.directional_starts.len()) + (ia + x));
        assert(db + y =~= enc_count(b.directional_starts.len()) + (ib + y));
        lemma_count_inj(a.directional_starts.len(), ia + x, b.directional_starts.len(), ib + y);
        lemma_ids_inj(a.directional_starts, x, b.directional_starts, y);
    } else {
        assert(da + x =~= x);
        assert(db + y =~= y);
        assert(a.directional_starts =~= b.directional_starts);
    }
}

/// Read the transitions section of a state.
#[verifier::spinoff_prover]
#[verifier::rlimit(40)]
fn decode_transitions_section(rd: &mut WorldBinaryReader) -> (r: Result<Vec<AnimationPersistentTransition>, String>)
    requires
        old(rd).wf(),
    ensures
        final(rd).wf(),
        final(rd).bytes == old(rd).bytes,
        r matches Ok(ts) ==> ts@.len() <= crate::systems::animation::MAX_CONTROLLERS && splits(
            old(rd).rest(),
            enc_count(ts@.len()) + enc_seq(transition_models(ts@), transition_enc()),
            final(rd).rest(),
        ) && final(rd).budget == old(rd).budget - ((TRANSITION_CLAIM * ts@.len()) as nat + sum_seq(
            transition_models(ts@),
            claim_transition_fn(),
        )) && (forall|i: int| 0 <= i < ts@.len() ==> source_read((#[trigger] transition_models(ts@)[i]).source)),
        forall|ms: Seq<TransitionModel>, tail: Seq<u8>| #[trigger] splits(
            old(rd).rest(),
            enc_count(ms.len()) + enc_seq(ms, transition_enc()),
            tail,
        ) && ms.len() <= crate::systems::animation::MAX_CONTROLLERS && (forall|i: int| 0 <= i < ms.len() ==> dec_transition(
            #[trigger] ms[i],
        )) && (TRANSITION_CLAIM * ms.len()) as nat + sum_seq(ms, claim_transition_fn()) <= old(rd).budget ==> (r matches Ok(ts)
            && transition_models(ts@) == ms && final(rd).rest() == tail),
{
    let ghost r0 = old(rd).rest();
    let ghost b0 = old(rd).budget;
    let ghost complete = exists|ms: Seq<TransitionModel>, tail: Seq<u8>| #[trigger] splits(
        r0,
        enc_count(ms.len()) + enc_seq(ms, transition_enc()),
        tail,
    ) && ms.len() <= crate::systems::animation::MAX_CONTROLLERS && (forall|i: int| 0 <= i < ms.len() ==> dec_transition(
        #[trigger] ms[i],
    )) && (TRANSITION_CLAIM * ms.len()) as nat + sum_seq(ms, claim_transition_fn()) <= b0;
    let ghost (ms, tail) = choose|ms: Seq<TransitionModel>, tail: Seq<u8>| #[trigger] splits(
        r0,
        enc_count(ms.len()) + enc_seq(ms, transition_enc()),
        tail,
    ) && ms.len() <= crate::systems::animation::MAX_CONTROLLERS && (forall|i: int| 0 <= i < ms.len() ==> dec_transition(
        #[trigger] ms[i],
    )) && (TRANSITION_CLAIM * ms.len()) as nat + sum_seq(ms, claim_transition_fn()) <= b0;
    proof {
        if complete {
            assert(r0 =~= enc_count(ms.len()) + (enc_seq(ms, transition_enc()) + tail));
            assert(splits(r0, enc_count(ms.len()), enc_seq(ms, transition_enc()) + tail));
            assert forall|i: int| 0 <= i < ms.len() implies (#[trigger] transition_enc()(ms[i])).len() >= TRANSITION_MIN_BYTES by {
                lemma_transition_len(ms[i]);
            }
            lemma_enc_seq_min(ms, transition_enc(), TRANSITION_MIN_BYTES as nat);
        }
    }
    let n = bounded_count(rd, TRANSITION_MIN_BYTES, crate::systems::animation::MAX_CONTROLLERS)?;
    rd.claim(n * TRANSITION_CLAIM)?;
    proof {
        if complete {
            assert(splits(rd.rest(), enc_seq(ms, transition_enc()), tail));
        }
    }
    let ts = decode_transitions(rd, n)?;
    proof {
        assert(r0 =~= enc_count(n as nat) + enc_seq(transition_models(ts@), transition_enc()) + rd.rest());
        assert forall|ms2: Seq<TransitionModel>, tail2: Seq<u8>| #[trigger] splits(
            r0,
            enc_count(ms2.len()) + enc_seq(ms2, transition_enc()),
            tail2,
        ) && ms2.len() <= crate::systems::animation::MAX_CONTROLLERS && (forall|i: int| 0 <= i < ms2.len() ==> dec_transition(
            #[trigger] ms2[i],
        )) && (TRANSITION_CLAIM * ms2.len()) as nat + sum_seq(ms2, claim_transition_fn()) <= b0 implies transition_models(ts@)
            == ms2 && rd.rest() == tail2 by {
            assert(complete);
            assert(transition_models(ts@) == ms);
            assert(enc_count(ms.len()) + enc_seq(ms, transition_enc()) + tail =~= enc_count(ms.len()) + (enc_seq(ms, transition_enc()) + tail));
            assert(enc_count(ms2.len()) + enc_seq(ms2, transition_enc()) + tail2 =~= enc_count(ms2.len()) + (enc_seq(ms2, transition_enc()) + tail2));
            lemma_count_inj(ms.len(), enc_seq(ms, transition_enc()) + tail, ms2.len(), enc_seq(ms2, transition_enc()) + tail2);
            lemma_transitions_inj(ms, tail, ms2, tail2);
        }
    }
    Ok(ts)
}

/// Read the controllers section of a state.
#[verifier::spinoff_prover]
#[verifier::rlimit(40)]
fn decode_controllers_section(rd: &mut WorldBinaryReader, version: u32) -> (r: Result<Vec<AnimationControllerSnapshot>, String>)
    requires
        old(rd).wf(),
    ensures
        final(rd).wf(),
        final(rd).bytes == old(rd).bytes,
        r matches Ok(cs) ==> cs@.len() <= crate::systems::animation::MAX_CONTROLLERS && splits(
            old(rd).rest(),
            enc_count(cs@.len()) + enc_seq(controller_models(cs@), controller_enc(version)),
            final(rd).rest(),
        ) && final(rd).budget == old(rd).budget - ((CONTROLLER_CLAIM * cs@.len()) as nat + sum_seq(
            controller_models(cs@),
            claim_controller_fn(),
        )) && (forall|i: int| 0 <= i < cs@.len() ==> dec_controller(#[trigger] controller_models(cs@)[i], version)),
        forall|ms: Seq<ControllerModel>, tail: Seq<u8>| #[trigger] splits(
            old(rd).rest(),
            enc_count(ms.len()) + enc_seq(ms, controller_enc(version)),
            tail,
        ) && ms.len() <= crate::systems::animation::MAX_CONTROLLERS && (forall|i: int| 0 <= i < ms.len() ==> dec_controller(
            #[trigger] ms[i],
            version,
        )) && (CONTROLLER_CLAIM * ms.len()) as nat + sum_seq(ms, claim_controller_fn()) <= old(rd).budget ==> (r matches Ok(cs)
            && controller_models(cs@) == ms && final(rd).rest() == tail),
{
    let ghost r0 = old(rd).rest();
    let ghost b0 = old(rd).budget;
    let ghost complete = exists|ms: Seq<ControllerModel>, tail: Seq<u8>| #[trigger] splits(
        r0,
        enc_count(ms.len()) + enc_seq(ms, controller_enc(version)),
        tail,
    ) && ms.len() <= crate::systems::animation::MAX_CONTROLLERS && (forall|i: int| 0 <= i < ms.len() ==> dec_controller(
        #[trigger] ms[i],
        version,
    )) && (CONTROLLER_CLAIM * ms.len()) as nat + sum_seq(ms, claim_controller_fn()) <= b0;
    let ghost (ms, tail) = choose|ms: Seq<ControllerModel>, tail: Seq<u8>| #[trigger] splits(
        r0,
        enc_count(ms.len()) + enc_seq(ms, controller_enc(version)),
        tail,
    ) && ms.len() <= crate::systems::animation::MAX_CONTROLLERS && (forall|i: int| 0 <= i < ms.len() ==> dec_controller(
        #[trigger] ms[i],
        version,
    )) && (CONTROLLER_CLAIM * ms.len()) as nat + sum_seq(ms, claim_controller_fn()) <= b0;
    proof {
        if complete {
            assert(r0 =~= enc_count(ms.len()) + (enc_seq(ms, controller_enc(version)) + tail));
            assert(splits(r0, enc_count(ms.len()), enc_seq(ms, controller_enc(version)) + tail));
            assert forall|i: int| 0 <= i < ms.len() implies (#[trigger] controller_enc(version)(ms[i])).len()
                >= CONTROLLER_MIN_BYTES by {
                lemma_controller_len(ms[i], version);
            }
            lemma_enc_seq_min(ms, controller_enc(version), CONTROLLER_MIN_BYTES as nat);
        }
    }
    let n = bounded_count(rd, CONTROLLER_MIN_BYTES, crate::systems::animation::MAX_CONTROLLERS)?;
    rd.claim(n * CONTROLLER_CLAIM)?;
    proof {
        if complete {
            assert(splits(rd.rest(), enc_seq(ms, controller_enc(version)), tail));
        }
    }
    let cs = decode_controllers(rd, n, version)?;
    proof {
        assert(r0 =~= enc_count(n as nat) + enc_seq(controller_models(cs@), controller_enc(version)) + rd.rest());
        assert forall|ms2: Seq<ControllerModel>, tail2: Seq<u8>| #[trigger] splits(
            r0,
            enc_count(ms2.len()) + enc_seq(ms2, controller_enc(version)),
            tail2,
        ) && ms2.len() <= crate::systems::animation::MAX_CONTROLLERS && (forall|i: int| 0 <= i < ms2.len() ==> dec_controller(
            #[trigger] ms2[i],
            version,
        )) && (CONTROLLER_CLAIM * ms2.len()) as nat + sum_seq(ms2, claim_controller_fn()) <= b0 implies controller_models(cs@)
            == ms2 && rd.rest() == tail2 by {
            assert(complete);
            assert(controller_models(cs@) == ms);
            assert(enc_count(ms.len()) + enc_seq(ms, controller_enc(version)) + tail =~= enc_count(ms.len()) + (enc_seq(ms, controller_enc(version)) + tail));
            assert(enc_count(ms2.len()) + enc_seq(ms2, controller_enc(version)) + tail2 =~= enc_count(ms2.len()) + (enc_seq(ms2, controller_enc(version)) + tail2));
            lemma_count_inj(ms.len(), enc_seq(ms, controller_enc(version)) + tail, ms2.len(), enc_seq(ms2, controller_enc(version)) + tail2);
            lemma_controllers_inj(ms, tail, ms2, tail2, version);
        }
    }
    Ok(cs)
}

/// Read the directional-start section of a state.
#[verifier::spinoff_prover]
#[verifier::rlimit(40)]
fn decode_ids_section(rd: &mut WorldBinaryReader) -> (r: Result<Vec<AnimationControllerId>, String>)
    requires
        old(rd).wf(),
    ensures
        final(rd).wf(),
        final(rd).bytes == old(rd).bytes,
        final(rd).budget == old(rd).budget,
        r matches Ok(ids) ==> ids@.len() <= u32::MAX && splits(
            old(rd).rest(),
            enc_count(ids@.len()) + enc_seq(ids@, id_enc()),
            final(rd).rest(),
        ),
        forall|ms: Seq<AnimationControllerId>, tail: Seq<u8>| #[trigger] splits(
            old(rd).rest(),
            enc_count(ms.len()) + enc_seq(ms, id_enc()),
            tail,
        ) && ms.len() <= u32::MAX ==> (r matches Ok(ids) && ids@ == ms && final(rd).rest() == tail),
{
    let ghost r0 = old(rd).rest();
    let ghost complete = exists|ms: Seq<AnimationControllerId>, tail: Seq<u8>| #[trigger] splits(
        r0,
        enc_count(ms.len()) + enc_seq(ms, id_enc()),
        tail,
    ) && ms.len() <= u32::MAX;
    let ghost (ms, tail) = choose|ms: Seq<AnimationControllerId>, tail: Seq<u8>| #[trigger] splits(
        r0,
        enc_count(ms.len()) + enc_seq(ms, id_enc()),
        tail,
    ) && ms.len() <= u32::MAX;
    proof {
        if complete {
            assert(r0 =~= enc_count(ms.len()) + (enc_seq(ms, id_enc()) + tail));
            assert(splits(r0, enc_count(ms.len()), enc_seq(ms, id_enc()) + tail));
            lemma_ids_len(ms);
        }
    }
    let n = rd.count(ID_BYTES)?;
    proof {
        if complete {
            assert(splits(rd.rest(), enc_seq(ms, id_enc()), tail));
        }
    }
    let ids = decode_ids(rd, n)?;
    proof {
        assert(r0 =~= enc_count(n as nat) + enc_seq(ids@, id_enc()) + rd.rest());
        assert forall|ms2: Seq<AnimationControllerId>, tail2: Seq<u8>| #[trigger] splits(
            r0,
            enc_count(ms2.len()) + enc_seq(ms2, id_enc()),
            tail2,
        ) && ms2.len() <= u32::MAX implies ids@ == ms2 && rd.rest() == tail2 by {
            assert(complete);
            assert(ids@ == ms);
            assert(enc_count(ms.len()) + enc_seq(ms, id_enc()) + tail =~= enc_count(ms.len()) + (enc_seq(ms, id_enc()) + tail));
            assert(enc_count(ms2.len()) + enc_seq(ms2, id_enc()) + tail2 =~= enc_count(ms2.len()) + (enc_seq(ms2, id_enc()) + tail2));
            lemma_count_inj(ms.len(), enc_seq(ms, id_enc()) + tail, ms2.len(), enc_seq(ms2, id_enc()) + tail2);
            lemma_ids_inj(ms, tail, ms2, tail2);
        }
    }
    Ok(ids)
}

/// The sections of a state's encoding.
pub proof fn lemma_state_parts(m: StateModel, version: u32)
    ensures
        enc_state(m, version) == enc_u64(m.next_id) + (enc_count(m.controllers.len()) + enc_seq(
            m.controllers,
            controller_enc(version),
        )) + (enc_transitions_section(m, version) + enc_directional_section(m, version)),
        version >= 4 ==> enc_transitions_section(m, version) == enc_count(m.transitions.len()) + enc_seq(
            m.transitions,
            transition_enc(),
        ),
        version < 4 ==> enc_transitions_section(m, version) == Seq::<u8>::empty(),
        version >= 5 ==> enc_directional_section(m, version) == enc_count(m.directional_starts.len()) + enc_seq(
            m.directional_starts,
            id_enc(),
        ),
        version < 5 ==> enc_directional_section(m, version) == Seq::<u8>::empty(),
{
    assert(enc_state(m, version) =~= enc_u64(m.next_id) + (enc_count(m.controllers.len()) + enc_seq(
        m.controllers,
        controller_enc(version),
    )) + (enc_transitions_section(m, version) + enc_directional_section(m, version)));
}

proof fn lemma_cat4_split(a: Seq<u8>, b: Seq<u8>, c: Seq<u8>, d: Seq<u8>, x: Seq<u8>)
    ensures
        a + b + (c + d) + x == a + (b + (c + (d + x))),
{
    assert(a + b + (c + d) + x =~= a + (b + (c + (d + x))));
}

/// Read a whole state in a format version: the identity counter,
/// controllers, then (from version four) transitions and (from version five)
/// directional starts. Accepts exactly the encodings of the states the
/// version can hold, within the reader's allocation budget.
#[verifier::spinoff_prover]
#[verifier::rlimit(80)]
pub fn decode_state(rd: &mut WorldBinaryReader, version: u32) -> (r: Result<AnimationPersistentState, String>)
    requires
        old(rd).wf(),
    ensures
        final(rd).wf(),
        final(rd).bytes == old(rd).bytes,
        r matches Ok(s) ==> splits(old(rd).rest(), enc_state(s@, version), final(rd).rest()) && final(rd).budget
            == old(rd).budget - claim_state(s@, version) && state_read(s@, version),
        forall|m: StateModel, tail: Seq<u8>| #[trigger] splits(old(rd).rest(), enc_state(m, version), tail) && dec_state(
            m,
            version,
        ) && claim_state(m, version) <= old(rd).budget ==> (r matches Ok(s) && s@ == m && final(rd).rest() == tail),
{
    let ghost r0 = old(rd).rest();
    let ghost b0 = old(rd).budget;
    let ghost complete = exists|m: StateModel, tail: Seq<u8>| #[trigger] splits(r0, enc_state(m, version), tail)
        && dec_state(m, version) && claim_state(m, version) <= b0;
    let ghost (m, tail) = choose|m: StateModel, tail: Seq<u8>| #[trigger] splits(r0, enc_state(m, version), tail)
        && dec_state(m, version) && claim_state(m, version) <= b0;
    let ghost csec = enc_count(m.controllers.len()) + enc_seq(m.controllers, controller_enc(version));
    let ghost tsec = enc_transitions_section(m, version);
    let ghost dsec = enc_directional_section(m, version);
    proof {
        if complete {
            lemma_state_parts(m, version);
            lemma_cat4_split(enc_u64(m.next_id), csec, tsec, dsec, tail);
            assert(splits(r0, enc_u64(m.next_id), csec + (tsec + (dsec + tail))));
        }
    }
    let next_id = rd.u64()?;
    proof {
        if complete {
            assert(splits(rd.rest(), csec, tsec + (dsec + tail)));
        }
    }
    let controllers = decode_controllers_section(rd, version)?;
    let ghost r1 = rd.rest();
    proof {
        if complete {
            assert(controller_models(controllers@) == m.controllers);
            assert(r1 == tsec + (dsec + tail));
        }
    }
    let mut transitions: Vec<AnimationPersistentTransition> = Vec::new();
    if version >= 4 {
        proof {
            if complete {
                assert(splits(rd.rest(), enc_count(m.transitions.len()) + enc_seq(m.transitions, transition_enc()), dsec + tail));
            }
        }
        transitions = decode_transitions_section(rd)?;
    }
    let ghost r2 = rd.rest();
    proof {
        if complete {
            if version >= 4 {
                assert(transition_models(transitions@) == m.transitions);
            } else {
                assert(transitions@.len() == 0);
                assert(transition_models(transitions@) =~= m.transitions);
                assert(r2 =~= dsec + tail);
            }
            assert(r2 == dsec + tail);
        }
    }
    let mut directional_starts: Vec<AnimationControllerId> = Vec::new();
    if version >= 5 {
        proof {
            if complete {
                assert(splits(rd.rest(), enc_count(m.directional_starts.len()) + enc_seq(m.directional_starts, id_enc()), tail));
            }
        }
        directional_starts = decode_ids_section(rd)?;
    }
    proof {
        if complete {
            if version < 5 {
                assert(directional_starts@ =~= m.directional_starts);
                assert(rd.rest() =~= tail);
            }
            assert(directional_starts@ == m.directional_starts);
            assert(rd.rest() == tail);
        }
    }
    let s = AnimationPersistentState { next_id, controllers, transitions, directional_starts };
    proof {
        lemma_state_parts(s@, version);
        lemma_cat4_split(
            enc_u64(s@.next_id),
            enc_count(s@.controllers.len()) + enc_seq(s@.controllers, controller_enc(version)),
            enc_transitions_section(s@, version),
            enc_directional_section(s@, version),
            rd.rest(),
        );
        if version < 4 {
            assert(enc_transitions_section(s@, version) + r2 =~= r2);
        }
        if version < 5 {
            assert(enc_directional_section(s@, version) + rd.rest() =~= rd.rest());
        }
        assert(splits(r0, enc_state(s@, version), rd.rest()));
    }
    proof {
        assert forall|m2: StateModel, tail2: Seq<u8>| #[trigger] splits(r0, enc_state(m2, version), tail2) && dec_state(
            m2,
            version,
        ) && claim_state(m2, version) <= b0 implies s@ == m2 && rd.rest() == tail2 by {
            assert(complete);
            assert(s@ == m);
            lemma_state_inj(m, tail, m2, tail2, version);
        }
    }
    Ok(s)
}

} // verus!
