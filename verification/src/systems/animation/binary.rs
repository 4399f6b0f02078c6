//! Bounded little-endian binary writer and reader for persistent world state.
//! The writer refuses to grow past its byte budget; the reader refuses reads
//! past its input, counts that the remaining input cannot hold, and
//! allocations beyond its claim budget.

use vstd::prelude::*;
use vstd::string::StringSliceAdditionalSpecFns;
use vstd::utf8::{encode_utf8, valid_utf8};

verus! {

broadcast use vstd::utf8::encode_utf8_valid_utf8, vstd::utf8::encode_utf8_decode_utf8;

/// Little-endian bytes of the low `n` bytes of `v`.
pub open spec fn le(v: nat, n: nat) -> Seq<u8>
    decreases n,
{
    if n == 0 {
        Seq::empty()
    } else {
        seq![(v % 256) as u8] + le(v / 256, (n - 1) as nat)
    }
}

/// Value of little-endian bytes.
pub open spec fn le_value(b: Seq<u8>) -> nat
    decreases b.len(),
{
    if b.len() == 0 {
        0
    } else {
        b[0] as nat + 256 * le_value(b.drop_first())
    }
}

/// Number of values representable in `n` bytes.
pub open spec fn cap(n: nat) -> nat
    decreases n,
{
    if n == 0 {
        1
    } else {
        256 * cap((n - 1) as nat)
    }
}

pub proof fn lemma_le_len(v: nat, n: nat)
    ensures
        le(v, n).len() == n,
    decreases n,
{
    if n > 0 {
        lemma_le_len(v / 256, (n - 1) as nat);
    }
}

/// Encoding a representable value and reading it back gives the value.
pub proof fn lemma_le_value(v: nat, n: nat)
    requires
        v < cap(n),
    ensures
        le_value(le(v, n)) == v,
    decreases n,
{
    if n > 0 {
        lemma_le_len(v / 256, (n - 1) as nat);
        lemma_le_value(v / 256, (n - 1) as nat);
        let b = le(v, n);
        assert(b.drop_first() =~= le(v / 256, (n - 1) as nat));
    }
}

/// Reading bytes and encoding the value gives the bytes back.
pub proof fn lemma_le_bytes(b: Seq<u8>)
    ensures
        le(le_value(b), b.len()) == b,
        le_value(b) < cap(b.len()),
    decreases b.len(),
{
    if b.len() > 0 {
        let rest = b.drop_first();
        lemma_le_bytes(rest);
        let v = le_value(b);
        assert(v % 256 == b[0] as nat && v / 256 == le_value(rest)) by {
            vstd::arithmetic::div_mod::lemma_fundamental_div_mod_converse(
                v as int,
                256,
                le_value(rest) as int,
                b[0] as int,
            );
        }
        assert(le(v, b.len()) =~= seq![b[0]] + rest);
        assert(b =~= seq![b[0]] + rest);
    }
}

pub proof fn lemma_cap_values()
    ensures
        cap(1) == 0x100,
        cap(2) == 0x1_0000,
        cap(4) == 0x1_0000_0000,
        cap(7) == 0x100_0000_0000_0000,
        cap(8) == 0x1_0000_0000_0000_0000,
{
    reveal_with_fuel(cap, 9);
}

pub proof fn lemma_cap_monotone(a: nat, b: nat)
    requires
        a <= b,
    ensures
        cap(a) <= cap(b),
    decreases b,
{
    if a < b {
        lemma_cap_monotone(a, (b - 1) as nat);
    }
}

/// A u8 as bytes.
pub open spec fn enc_u8(v: u8) -> Seq<u8> {
    le(v as nat, 1)
}

/// A u16 as little-endian bytes.
pub open spec fn enc_u16(v: u16) -> Seq<u8> {
    le(v as nat, 2)
}

/// A u32 as little-endian bytes.
pub open spec fn enc_u32(v: u32) -> Seq<u8> {
    le(v as nat, 4)
}

/// A u64 as little-endian bytes.
pub open spec fn enc_u64(v: u64) -> Seq<u8> {
    le(v as nat, 8)
}

/// A boolean as one byte, zero or one.
pub open spec fn enc_bool(b: bool) -> Seq<u8> {
    enc_u8(if b { 1u8 } else { 0u8 })
}

/// A collection length as a u32.
pub open spec fn enc_count(n: nat) -> Seq<u8> {
    le(n, 4)
}

/// A string as its byte length and UTF-8 bytes.
pub open spec fn enc_string(s: Seq<char>) -> Seq<u8> {
    enc_count(encode_utf8(s).len()) + encode_utf8(s)
}

pub proof fn lemma_enc_lens()
    ensures
        forall|v: u8| #[trigger] enc_u8(v).len() == 1,
        forall|v: u16| #[trigger] enc_u16(v).len() == 2,
        forall|v: u32| #[trigger] enc_u32(v).len() == 4,
        forall|v: u64| #[trigger] enc_u64(v).len() == 8,
        forall|b: bool| #[trigger] enc_bool(b).len() == 1,
        forall|n: nat| #[trigger] enc_count(n).len() == 4,
        forall|s: Seq<char>| #[trigger] enc_string(s).len() == 4 + encode_utf8(s).len(),
{
    assert forall|v: u8| #[trigger] enc_u8(v).len() == 1 by {
        lemma_le_len(v as nat, 1);
    }
    assert forall|v: u16| #[trigger] enc_u16(v).len() == 2 by {
        lemma_le_len(v as nat, 2);
    }
    assert forall|v: u32| #[trigger] enc_u32(v).len() == 4 by {
        lemma_le_len(v as nat, 4);
    }
    assert forall|v: u64| #[trigger] enc_u64(v).len() == 8 by {
        lemma_le_len(v as nat, 8);
    }
    assert forall|b: bool| #[trigger] enc_bool(b).len() == 1 by {
        lemma_le_len((if b { 1u8 } else { 0u8 }) as nat, 1);
    }
    assert forall|n: nat| #[trigger] enc_count(n).len() == 4 by {
        lemma_le_len(n, 4);
    }
    assert forall|s: Seq<char>| #[trigger] enc_string(s).len() == 4 + encode_utf8(s).len() by {
        lemma_le_len(encode_utf8(s).len(), 4);
    }
}

/// `s` is `head` followed by `tail`.
pub open spec fn splits(s: Seq<u8>, head: Seq<u8>, tail: Seq<u8>) -> bool {
    s == head + tail
}

pub proof fn lemma_split_eq(p1: Seq<u8>, x: Seq<u8>, p2: Seq<u8>, y: Seq<u8>)
    requires
        p1 + x == p2 + y,
        p1.len() == p2.len(),
    ensures
        p1 == p2,
        x == y,
{
    assert(p1 =~= (p1 + x).subrange(0, p1.len() as int));
    assert(p2 =~= (p2 + y).subrange(0, p2.len() as int));
    assert(x =~= (p1 + x).subrange(p1.len() as int, (p1 + x).len() as int));
    assert(y =~= (p2 + y).subrange(p2.len() as int, (p2 + y).len() as int));
}

pub proof fn lemma_le_inj(a: nat, b: nat, n: nat)
    requires
        le(a, n) == le(b, n),
        a < cap(n),
        b < cap(n),
    ensures
        a == b,
{
    lemma_le_value(a, n);
    lemma_le_value(b, n);
}

pub proof fn lemma_u8_inj(a: u8, x: Seq<u8>, b: u8, y: Seq<u8>)
    requires
        enc_u8(a) + x == enc_u8(b) + y,
    ensures
        a == b,
        x == y,
{
    lemma_le_len(a as nat, 1);
    lemma_le_len(b as nat, 1);
    lemma_split_eq(enc_u8(a), x, enc_u8(b), y);
    lemma_cap_values();
    lemma_le_inj(a as nat, b as nat, 1);
}

pub proof fn lemma_u16_inj(a: u16, x: Seq<u8>, b: u16, y: Seq<u8>)
    requires
        enc_u16(a) + x == enc_u16(b) + y,
    ensures
        a == b,
        x == y,
{
    lemma_le_len(a as nat, 2);
    lemma_le_len(b as nat, 2);
    lemma_split_eq(enc_u16(a), x, enc_u16(b), y);
    lemma_cap_values();
    lemma_le_inj(a as nat, b as nat, 2);
}

pub proof fn lemma_u32_inj(a: u32, x: Seq<u8>, b: u32, y: Seq<u8>)
    requires
        enc_u32(a) + x == enc_u32(b) + y,
    ensures
        a == b,
        x == y,
{
    lemma_le_len(a as nat, 4);
    lemma_le_len(b as nat, 4);
    lemma_split_eq(enc_u32(a), x, enc_u32(b), y);
    lemma_cap_values();
    lemma_le_inj(a as nat, b as nat, 4);
}

pub proof fn lemma_u64_inj(a: u64, x: Seq<u8>, b: u64, y: Seq<u8>)
    requires
        enc_u64(a) + x == enc_u64(b) + y,
    ensures
        a == b,
        x == y,
{
    lemma_le_len(a as nat, 8);
    lemma_le_len(b as nat, 8);
    lemma_split_eq(enc_u64(a), x, enc_u64(b), y);
    lemma_cap_values();
    lemma_le_inj(a as nat, b as nat, 8);
}

pub proof fn lemma_bool_inj(a: bool, x: Seq<u8>, b: bool, y: Seq<u8>)
    requires
        enc_bool(a) + x == enc_bool(b) + y,
    ensures
        a == b,
        x == y,
{
    lemma_u8_inj(if a { 1u8 } else { 0u8 }, x, if b { 1u8 } else { 0u8 }, y);
}

pub proof fn lemma_count_inj(a: nat, x: Seq<u8>, b: nat, y: Seq<u8>)
    requires
        enc_count(a) + x == enc_count(b) + y,
        a <= u32::MAX,
        b <= u32::MAX,
    ensures
        a == b,
        x == y,
{
    lemma_le_len(a, 4);
    lemma_le_len(b, 4);
    lemma_split_eq(enc_count(a), x, enc_count(b), y);
    lemma_cap_values();
    lemma_le_inj(a, b, 4);
}

pub proof fn lemma_string_inj(a: Seq<char>, x: Seq<u8>, b: Seq<char>, y: Seq<u8>)
    requires
        enc_string(a) + x == enc_string(b) + y,
        encode_utf8(a).len() <= u32::MAX,
        encode_utf8(b).len() <= u32::MAX,
    ensures
        a == b,
        x == y,
{
    assert(enc_string(a) + x =~= enc_count(encode_utf8(a).len()) + (encode_utf8(a) + x));
    assert(enc_string(b) + y =~= enc_count(encode_utf8(b).len()) + (encode_utf8(b) + y));
    lemma_count_inj(encode_utf8(a).len(), encode_utf8(a) + x, encode_utf8(b).len(), encode_utf8(b) + y);
    lemma_split_eq(encode_utf8(a), x, encode_utf8(b), y);
    assert(vstd::utf8::decode_utf8(encode_utf8(a)) == a);
    assert(vstd::utf8::decode_utf8(encode_utf8(b)) == b);
}

/// Writer of bounded output.
pub struct WorldBinaryWriter {
    pub bytes: Vec<u8>,
    pub max_bytes: usize,
}

impl WorldBinaryWriter {
    /// Output never exceeds the byte budget.
    pub open spec fn wf(&self) -> bool {
        self.bytes@.len() <= self.max_bytes
    }

    pub fn new(max_bytes: usize) -> (r: Self)
        ensures
            r.bytes@.len() == 0,
            r.max_bytes == max_bytes,
    {
        WorldBinaryWriter { bytes: Vec::new(), max_bytes }
    }

    fn put(&mut self, v: u64, n: usize) -> (r: Result<(), String>)
        requires
            1 <= n <= 8,
        ensures
            final(self).max_bytes == old(self).max_bytes,
            r is Ok <==> old(self).bytes@.len() + n <= old(self).max_bytes,
            r is Ok ==> final(self).bytes@ == old(self).bytes@ + le(v as nat, n as nat),
            r is Err ==> final(self).bytes@ == old(self).bytes@,
    {
        if n > self.max_bytes || self.bytes.len() > self.max_bytes - n {
            return Err("World state byte budget exhausted".to_owned());
        }
        let ghost before = self.bytes@;
        let mut rest: u64 = v;
        let mut i: usize = 0;
        while i < n
            invariant
                i <= n <= 8,
                self.bytes@ + le(rest as nat, (n - i) as nat) == before + le(v as nat, n as nat),
                self.max_bytes == old(self).max_bytes,
            decreases n - i,
        {
            let ghost b = self.bytes@;
            self.bytes.push((rest % 256) as u8);
            proof {
                assert(le(rest as nat, (n - i) as nat) == seq![(rest % 256) as u8] + le(
                    (rest / 256) as nat,
                    (n - i - 1) as nat,
                ));
                assert(self.bytes@ + le((rest / 256) as nat, (n - i - 1) as nat) =~= b + le(rest as nat, (n - i) as nat));
            }
            rest = rest / 256;
            i = i + 1;
        }
        proof {
            assert(self.bytes@ + le(rest as nat, 0) =~= self.bytes@);
        }
        Ok(())
    }

    pub fn u8(&mut self, v: u8) -> (r: Result<(), String>)
        ensures
            final(self).max_bytes == old(self).max_bytes,
            r is Ok <==> old(self).bytes@.len() + 1 <= old(self).max_bytes,
            r is Ok ==> final(self).bytes@ == old(self).bytes@ + enc_u8(v),
            r is Err ==> final(self).bytes@ == old(self).bytes@,
    {
        self.put(v as u64, 1)
    }

    pub fn u16(&mut self, v: u16) -> (r: Result<(), String>)
        ensures
            final(self).max_bytes == old(self).max_bytes,
            r is Ok <==> old(self).bytes@.len() + 2 <= old(self).max_bytes,
            r is Ok ==> final(self).bytes@ == old(self).bytes@ + enc_u16(v),
            r is Err ==> final(self).bytes@ == old(self).bytes@,
    {
        self.put(v as u64, 2)
    }

    pub fn u32(&mut self, v: u32) -> (r: Result<(), String>)
        ensures
            final(self).max_bytes == old(self).max_bytes,
            r is Ok <==> old(self).bytes@.len() + 4 <= old(self).max_bytes,
            r is Ok ==> final(self).bytes@ == old(self).bytes@ + enc_u32(v),
            r is Err ==> final(self).bytes@ == old(self).bytes@,
    {
        self.put(v as u64, 4)
    }

    pub fn u64(&mut self, v: u64) -> (r: Result<(), String>)
        ensures
            final(self).max_bytes == old(self).max_bytes,
            r is Ok <==> old(self).bytes@.len() + 8 <= old(self).max_bytes,
            r is Ok ==> final(self).bytes@ == old(self).bytes@ + enc_u64(v),
            r is Err ==> final(self).bytes@ == old(self).bytes@,
    {
        self.put(v, 8)
    }

    pub fn boolean(&mut self, b: bool) -> (r: Result<(), String>)
        ensures
            final(self).max_bytes == old(self).max_bytes,
            r is Ok <==> old(self).bytes@.len() + 1 <= old(self).max_bytes,
            r is Ok ==> final(self).bytes@ == old(self).bytes@ + enc_bool(b),
            r is Err ==> final(self).bytes@ == old(self).bytes@,
    {
        self.u8(if b { 1 } else { 0 })
    }

    /// A collection length; lengths beyond a u32 are refused.
    pub fn count(&mut self, n: usize) -> (r: Result<(), String>)
        ensures
            final(self).max_bytes == old(self).max_bytes,
            r is Ok <==> n <= u32::MAX && old(self).bytes@.len() + 4 <= old(self).max_bytes,
            r is Ok ==> final(self).bytes@ == old(self).bytes@ + enc_count(n as nat),
            r is Err ==> final(self).bytes@ == old(self).bytes@,
    {
        if n > 0xffff_ffff {
            return Err("World state collection too large".to_owned());
        }
        self.put(n as u64, 4)
    }

    /// A string as its byte length and bytes.
    pub fn string(&mut self, s: &str) -> (r: Result<(), String>)
        ensures
            final(self).max_bytes == old(self).max_bytes,
            r is Ok <==> s.spec_bytes().len() <= u32::MAX && old(self).bytes@.len() + 4 + s.spec_bytes().len()
                <= old(self).max_bytes,
            r is Ok ==> final(self).bytes@ == old(self).bytes@ + enc_string(s@),
            r is Err ==> final(self).bytes@ == old(self).bytes@,
    {
        let b = s.as_bytes();
        if b.len() > 0xffff_ffff {
            return Err("World state collection too large".to_owned());
        }
        if self.bytes.len() > self.max_bytes || b.len() > self.max_bytes - self.bytes.len() || 4 > self.max_bytes
            - self.bytes.len() - b.len() {
            return Err("World state byte budget exhausted".to_owned());
        }
        let ghost before = self.bytes@;
        let _ = self.count(b.len());
        let ghost mid = self.bytes@;
        let mut i: usize = 0;
        while i < b.len()
            invariant
                i <= b@.len(),
                self.bytes@ == mid + b@.subrange(0, i as int),
                self.max_bytes == old(self).max_bytes,
            decreases b@.len() - i,
        {
            self.bytes.push(b[i]);
            i = i + 1;
            proof {
                assert(self.bytes@ =~= mid + b@.subrange(0, i as int));
            }
        }
        proof {
            assert(b@.subrange(0, i as int) =~= b@);
            assert(self.bytes@ =~= before + enc_string(s@));
        }
        Ok(())
    }
}

/// Build a string from UTF-8 bytes.
///
/// Calls `String::from_utf8`. Trusted: it succeeds exactly on well-formed
/// UTF-8 input, and the string it returns holds exactly the input bytes.
#[verifier::external_body]
fn string_from_utf8(bytes: Vec<u8>) -> (r: Option<String>)
    ensures
        r is Some <==> valid_utf8(bytes@),
        r matches Some(s) ==> encode_utf8(s@) == bytes@,
{
    String::from_utf8(bytes).ok()
}

/// Reader of bounded input with an allocation claim budget.
pub struct WorldBinaryReader<'a> {
    pub bytes: &'a [u8],
    pub pos: usize,
    pub budget: usize,
}

impl<'a> WorldBinaryReader<'a> {
    /// The input not yet read.
    pub open spec fn rest(&self) -> Seq<u8> {
        self.bytes@.subrange(self.pos as int, self.bytes@.len() as int)
    }

    pub open spec fn wf(&self) -> bool {
        self.pos <= self.bytes@.len()
    }

    pub fn new(bytes: &'a [u8], max_bytes: usize) -> (r: Self)
        ensures
            r.wf(),
            r.bytes == bytes,
            r.pos == 0,
            r.budget == max_bytes,
            r.rest() == bytes@,
    {
        let r = WorldBinaryReader { bytes, pos: 0, budget: max_bytes };
        proof {
            assert(r.rest() =~= bytes@);
        }
        r
    }

    fn take(&mut self, n: usize) -> (r: Result<u64, String>)
        requires
            old(self).wf(),
            1 <= n <= 8,
        ensures
            final(self).wf(),
            final(self).bytes == old(self).bytes,
            final(self).budget == old(self).budget,
            r is Ok <==> n <= old(self).rest().len(),
            r matches Ok(v) ==> v < cap(n as nat) && old(self).rest() == le(v as nat, n as nat) + final(self).rest()
                && final(self).pos == old(self).pos + n,
    {
        if n > self.bytes.len() - self.pos {
            return Err("Truncated world state".to_owned());
        }
        let ghost slice = self.bytes@.subrange(self.pos as int, self.pos + n);
        let len = self.bytes.len();
        let mut acc: u64 = 0;
        let mut j: usize = n;
        proof {
            lemma_cap_values();
        }
        while j > 0
            invariant
                0 <= j <= n <= 8,
                len == self.bytes@.len(),
                self.pos + n <= self.bytes@.len(),
                slice == self.bytes@.subrange(self.pos as int, self.pos + n),
                acc == le_value(slice.subrange(j as int, n as int)),
                acc < cap((n - j) as nat),
                cap(7) == 0x100_0000_0000_0000,
            decreases j,
        {
            proof {
                lemma_cap_monotone((n - j) as nat, 7);
                assert(slice.subrange(j - 1, n as int).drop_first() =~= slice.subrange(j as int, n as int));
            }
            acc = acc * 256 + self.bytes[self.pos + j - 1] as u64;
            j = j - 1;
        }
        proof {
            assert(slice.subrange(0, n as int) =~= slice);
            lemma_le_bytes(slice);
            assert(self.bytes@.subrange(self.pos as int, self.bytes@.len() as int) =~= slice + self.bytes@.subrange(
                self.pos + n,
                self.bytes@.len() as int,
            ));
        }
        self.pos = self.pos + n;
        Ok(acc)
    }

    pub fn u8(&mut self) -> (r: Result<u8, String>)
        requires
            old(self).wf(),
        ensures
            final(self).wf(),
            final(self).bytes == old(self).bytes,
            final(self).budget == old(self).budget,
            r is Ok <==> 1 <= old(self).rest().len(),
            r matches Ok(v) ==> old(self).rest() == enc_u8(v) + final(self).rest(),
            forall|m: u8, tail: Seq<u8>| #[trigger] splits(old(self).rest(), enc_u8(m), tail) ==> r == Ok::<u8, String>(m)
                && final(self).rest() == tail,
    {
        let ghost r0 = self.rest();
        let v = self.take(1)?;
        proof {
            lemma_cap_values();
            assert forall|m: u8, tail: Seq<u8>| #[trigger] splits(r0, enc_u8(m), tail) implies v as u8 == m && self.rest() == tail by {
                lemma_le_len(m as nat, 1);
                lemma_le_len(v as nat, 1);
                lemma_split_eq(enc_u8(m), tail, le(v as nat, 1), self.rest());
                lemma_le_inj(m as nat, v as nat, 1);
            }
        }
        Ok(v as u8)
    }

    pub fn u16(&mut self) -> (r: Result<u16, String>)
        requires
            old(self).wf(),
        ensures
            final(self).wf(),
            final(self).bytes == old(self).bytes,
            final(self).budget == old(self).budget,
            r is Ok <==> 2 <= old(self).rest().len(),
            r matches Ok(v) ==> old(self).rest() == enc_u16(v) + final(self).rest(),
            forall|m: u16, tail: Seq<u8>| #[trigger] splits(old(self).rest(), enc_u16(m), tail) ==> r == Ok::<u16, String>(m)
                && final(self).rest() == tail,
    {
        let ghost r0 = self.rest();
        proof {
            lemma_enc_lens();
        }
        let v = self.take(2)?;
        proof {
            lemma_cap_values();
            assert forall|m: u16, tail: Seq<u8>| #[trigger] splits(r0, enc_u16(m), tail) implies v as u16 == m && self.rest() == tail by {
                lemma_le_len(m as nat, 2);
                lemma_le_len(v as nat, 2);
                lemma_split_eq(enc_u16(m), tail, le(v as nat, 2), self.rest());
                lemma_le_inj(m as nat, v as nat, 2);
            }
        }
        Ok(v as u16)
    }

    pub fn u32(&mut self) -> (r: Result<u32, String>)
        requires
            old(self).wf(),
        ensures
            final(self).wf(),
            final(self).bytes == old(self).bytes,
            final(self).budget == old(self).budget,
            r is Ok <==> 4 <= old(self).rest().len(),
            r matches Ok(v) ==> old(self).rest() == enc_u32(v) + final(self).rest(),
            forall|m: u32, tail: Seq<u8>| #[trigger] splits(old(self).rest(), enc_u32(m), tail) ==> r == Ok::<u32, String>(m)
                && final(self).rest() == tail,
    {
        let ghost r0 = self.rest();
        proof {
            lemma_enc_lens();
        }
        let v = self.take(4)?;
        proof {
            lemma_cap_values();
            assert forall|m: u32, tail: Seq<u8>| #[trigger] splits(r0, enc_u32(m), tail) implies v as u32 == m && self.rest() == tail by {
                lemma_le_len(m as nat, 4);
                lemma_le_len(v as nat, 4);
                lemma_split_eq(enc_u32(m), tail, le(v as nat, 4), self.rest());
                lemma_le_inj(m as nat, v as nat, 4);
            }
        }
        Ok(v as u32)
    }

    pub fn u64(&mut self) -> (r: Result<u64, String>)
        requires
            old(self).wf(),
        ensures
            final(self).wf(),
            final(self).bytes == old(self).bytes,
            final(self).budget == old(self).budget,
            r is Ok <==> 8 <= old(self).rest().len(),
            r matches Ok(v) ==> old(self).rest() == enc_u64(v) + final(self).rest(),
            forall|m: u64, tail: Seq<u8>| #[trigger] splits(old(self).rest(), enc_u64(m), tail) ==> r == Ok::<u64, String>(m)
                && final(self).rest() == tail,
    {
        let ghost r0 = self.rest();
        proof {
            lemma_enc_lens();
        }
        let v = self.take(8)?;
        proof {
            lemma_cap_values();
            assert forall|m: u64, tail: Seq<u8>| #[trigger] splits(r0, enc_u64(m), tail) implies v == m && self.rest() == tail by {
                lemma_le_len(m as nat, 8);
                lemma_le_len(v as nat, 8);
                lemma_split_eq(enc_u64(m), tail, le(v as nat, 8), self.rest());
                lemma_le_inj(m as nat, v as nat, 8);
            }
        }
        Ok(v)
    }

    /// A collection length whose items, each at least `min_bytes` long, fit
    /// in the remaining input.
    pub fn count(&mut self, min_bytes: usize) -> (r: Result<usize, String>)
        requires
            old(self).wf(),
        ensures
            final(self).wf(),
            final(self).bytes == old(self).bytes,
            final(self).budget == old(self).budget,
            r is Ok <==> 4 <= old(self).rest().len() && le_value(old(self).rest().subrange(0, 4)) * min_bytes
                <= old(self).rest().len() - 4,
            r matches Ok(n) ==> old(self).rest() == enc_count(n as nat) + final(self).rest() && n * min_bytes
                <= final(self).rest().len() && n <= u32::MAX,
            forall|m: nat, tail: Seq<u8>| #[trigger] splits(old(self).rest(), enc_count(m), tail) && m <= u32::MAX && m
                * min_bytes <= tail.len() ==> r == Ok::<usize, String>(m as usize) && final(self).rest() == tail,
    {
        let ghost r0 = self.rest();
        proof {
            assert forall|m: nat, tail: Seq<u8>| #[trigger] splits(r0, enc_count(m), tail) && m <= u32::MAX implies splits(
                r0,
                enc_u32(m as u32),
                tail,
            ) by {}
        }
        let n = match self.u32() {
            Ok(n) => n,
            Err(e) => return Err(e),
        };
        proof {
            lemma_le_len(n as nat, 4);
            assert(r0.subrange(0, 4) =~= enc_u32(n));
            lemma_cap_values();
            lemma_le_value(n as nat, 4);
        }
        let remaining = self.bytes.len() - self.pos;
        assert((n as u128) * (min_bytes as u128) <= 0xffff_ffff * 0xffff_ffff_ffff_ffffu128) by (nonlinear_arith)
            requires
                n <= 0xffff_ffff,
                min_bytes <= 0xffff_ffff_ffff_ffff,
        ;
        if (n as u128) * (min_bytes as u128) > remaining as u128 {
            return Err("World state count exceeds its input".to_owned());
        }
        Ok(n as usize)
    }

    /// Reserve part of the allocation budget.
    pub fn claim(&mut self, n: usize) -> (r: Result<(), String>)
        ensures
            final(self).bytes == old(self).bytes,
            final(self).pos == old(self).pos,
            r is Ok <==> n <= old(self).budget,
            r is Ok ==> final(self).budget == old(self).budget - n,
    {
        if n > self.budget {
            return Err("World state allocation budget exhausted".to_owned());
        }
        self.budget = self.budget - n;
        Ok(())
    }

    /// A string: its byte length, then that many UTF-8 bytes.
    pub fn string(&mut self) -> (r: Result<String, String>)
        requires
            old(self).wf(),
        ensures
            final(self).wf(),
            final(self).bytes == old(self).bytes,
            final(self).budget == old(self).budget,
            r matches Ok(s) ==> old(self).rest() == enc_string(s@) + final(self).rest() && encode_utf8(s@).len()
                <= u32::MAX,
            (exists|c: Seq<char>, tail: Seq<u8>| old(self).rest() == enc_string(c) + tail && encode_utf8(c).len() <= u32::MAX)
                ==> r is Ok,
            forall|c: Seq<char>, tail: Seq<u8>| #[trigger] splits(old(self).rest(), enc_string(c), tail) && encode_utf8(c).len()
                <= u32::MAX ==> (r matches Ok(s) && s@ == c && final(self).rest() == tail),
    {
        let ghost r0 = self.rest();
        proof {
            if exists|c: Seq<char>, tail: Seq<u8>| r0 == enc_string(c) + tail && encode_utf8(c).len() <= u32::MAX {
                let (c, tail) = choose|c: Seq<char>, tail: Seq<u8>| r0 == enc_string(c) + tail && encode_utf8(c).len() <= u32::MAX;
                lemma_le_len(encode_utf8(c).len(), 4);
                lemma_cap_values();
                lemma_le_value(encode_utf8(c).len(), 4);
                assert(r0.subrange(0, 4) =~= enc_count(encode_utf8(c).len()));
            }
        }
        let n = self.count(1)?;
        let len = self.bytes.len();
        let mut out: Vec<u8> = Vec::new();
        let start = self.pos;
        let mut i: usize = 0;
        while i < n
            invariant
                self.wf(),
                len == self.bytes@.len(),
                start == self.pos,
                n <= self.rest().len(),
                i <= n,
                out@ == self.bytes@.subrange(start as int, start + i),
            decreases n - i,
        {
            out.push(self.bytes[start + i]);
            i = i + 1;
            proof {
                assert(out@ =~= self.bytes@.subrange(start as int, start + i));
            }
        }
        let ghost body = out@;
        self.pos = start + n;
        proof {
            assert(self.bytes@.subrange(start as int, self.bytes@.len() as int) =~= body + self.rest());
        }
        match string_from_utf8(out) {
            Some(s) => {
                proof {
                    lemma_le_len(n as nat, 4);
                    assert(r0 =~= enc_count(n as nat) + (body + self.rest()));
                    assert(enc_string(s@) + self.rest() =~= enc_count(n as nat) + (body + self.rest()));
                    assert forall|c: Seq<char>, tail: Seq<u8>| #[trigger] splits(r0, enc_string(c), tail) && encode_utf8(c).len()
                        <= u32::MAX implies s@ == c && self.rest() == tail by {
                        lemma_le_len(encode_utf8(c).len(), 4);
                        lemma_cap_values();
                        assert(r0.subrange(0, 4) =~= enc_count(encode_utf8(c).len()));
                        assert(r0.subrange(0, 4) =~= enc_count(n as nat));
                        lemma_le_inj(encode_utf8(c).len(), n as nat, 4);
                        assert(encode_utf8(c) + tail =~= r0.subrange(4, r0.len() as int));
                        assert(body + self.rest() =~= r0.subrange(4, r0.len() as int));
                        lemma_split_eq(encode_utf8(c), tail, body, self.rest());
                        assert(encode_utf8(s@) == encode_utf8(c));
                        assert(vstd::utf8::decode_utf8(encode_utf8(s@)) == s@);
                        assert(vstd::utf8::decode_utf8(encode_utf8(c)) == c);
                    }
                }
                Ok(s)
            },
            None => {
                proof {
                    if exists|c: Seq<char>, tail: Seq<u8>| r0 == enc_string(c) + tail && encode_utf8(c).len() <= u32::MAX {
                        let (c, tail) = choose|c: Seq<char>, tail: Seq<u8>| r0 == enc_string(c) + tail && encode_utf8(c).len() <= u32::MAX;
                        lemma_le_len(encode_utf8(c).len(), 4);
                        lemma_le_len(n as nat, 4);
                        assert(r0.subrange(0, 4) =~= enc_count(encode_utf8(c).len()));
                        assert(r0.subrange(0, 4) =~= enc_count(n as nat));
                        lemma_cap_values();
                        lemma_le_value(encode_utf8(c).len(), 4);
                        lemma_le_value(n as nat, 4);
                        assert(body =~= r0.subrange(4, 4 + n));
                        assert(encode_utf8(c) =~= r0.subrange(4, 4 + n));
                    }
                }
                Err("Invalid UTF-8 in world state".to_owned())
            },
        }
    }

    /// All input was consumed.
    pub fn end(&self) -> (r: Result<(), String>)
        requires
            self.wf(),
        ensures
            r is Ok <==> self.rest().len() == 0,
    {
        if self.pos == self.bytes.len() {
            Ok(())
        } else {
            Err("Trailing world state bytes".to_owned())
        }
    }
}

} // verus!
