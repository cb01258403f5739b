//! The executor's value encodings: delayed-field tuples, aggregator deltas
//! with explicit overflow, and resource groups with their byte size.

use vstd::prelude::*;
use crate::types::{le_bytes, le_value, lemma_le_bytes_len, lemma_le_value_of_bytes, pow256};

verus! {

#[verifier::external_type_specification]
#[verifier::external_body]
pub struct ExBcsError(bcs::Error);

/// The tag that every resource group holds and that is never deleted.
pub const RESERVED_TAG: u32 = 0;

/// The version that marks the storage baseline of a delayed field.
pub const STORAGE_VERSION: u32 = 4294967295;

/// The encoding of a delayed-field tuple `(value, version)`: sixteen
/// little-endian bytes, then four.
pub open spec fn tuple_bytes(value: u128, version: u32) -> Seq<u8> {
    le_bytes(value as nat, 16) + le_bytes(version as nat, 4)
}

/// Relies on `bcs::to_bytes` for `(u128, u32)`: BCS writes a tuple's fields
/// in order, a `u128` as its sixteen little-endian bytes and a `u32` as its
/// four, and writing into a `Vec` cannot fail.
#[verifier::external_body]
fn bcs_tuple_to_bytes(value: u128, version: u32) -> (r: Vec<u8>)
    ensures
        r@ == tuple_bytes(value, version),
{
    match bcs::to_bytes(&(value, version)) {
        Ok(bytes) => bytes,
        Err(_) => Vec::new(),
    }
}

/// Relies on `bcs::from_bytes::<(u128, u32)>`: it reads sixteen
/// little-endian bytes then four, and fails when the input is shorter
/// (end of input) or longer (remaining input) than twenty bytes.
#[verifier::external_body]
fn bcs_tuple_from_bytes(bytes: &[u8]) -> (r: Result<(u128, u32), bcs::Error>)
    ensures
        r is Ok <==> bytes@.len() == 20,
        r is Ok ==> r->Ok_0.0 as nat == le_value(bytes@.take(16)) && r->Ok_0.1 as nat == le_value(
            bytes@.skip(16),
        ),
{
    bcs::from_bytes::<(u128, u32)>(bytes)
}

/// Why bytes do not decode as a delayed-field tuple.
#[derive(Clone, Copy, Debug, Eq, PartialEq)]
pub enum DecodeError {
    /// Not exactly twenty bytes.
    Malformed,
}

/// Encodes a delayed field's id or value with its version.
pub fn serialize_from_delayed_field_u128(value_or_id: u128, version: u32) -> (r: Vec<u8>)
    ensures
        r@ == tuple_bytes(value_or_id, version),
{
    bcs_tuple_to_bytes(value_or_id, version)
}

/// Decodes a delayed-field tuple; only twenty bytes decode.
pub fn deserialize_to_delayed_field_u128(bytes: &[u8]) -> (r: Result<(u128, u32), DecodeError>)
    ensures
        r is Ok <==> bytes@.len() == 20,
        r is Ok ==> r->Ok_0.0 as nat == le_value(bytes@.take(16)) && r->Ok_0.1 as nat == le_value(
            bytes@.skip(16),
        ),
        r is Err ==> r == Err::<(u128, u32), DecodeError>(DecodeError::Malformed),
{
    match bcs_tuple_from_bytes(bytes) {
        Ok(t) => Ok(t),
        Err(_) => Err(DecodeError::Malformed),
    }
}

/// The bytes a write of a value carrying a delayed field stores: the id
/// read from the previous value, with the writing transaction's index as
/// version. Refused when the previous value is not a delayed-field tuple.
pub fn rewrite_delayed_field(previous: &[u8], txn_idx: u32) -> (r: Result<Vec<u8>, DecodeError>)
    ensures
        r is Ok <==> previous@.len() == 20,
        r matches Ok(b) ==> b@ == tuple_bytes(le_value(previous@.take(16)) as u128, txn_idx),
{
    match deserialize_to_delayed_field_u128(previous) {
        Ok((id, _version)) => Ok(serialize_from_delayed_field_u128(id, txn_idx)),
        Err(e) => Err(e),
    }
}

/// Decoding an encoded delayed-field tuple gives the tuple back.
pub proof fn lemma_delayed_field_round_trip(value: u128, version: u32)
    ensures
        tuple_bytes(value, version).len() == 20,
        le_value(tuple_bytes(value, version).take(16)) == value,
        le_value(tuple_bytes(value, version).skip(16)) == version,
{
    lemma_le_bytes_len(value as nat, 16);
    lemma_le_bytes_len(version as nat, 4);
    let b = tuple_bytes(value, version);
    assert(b.take(16) =~= le_bytes(value as nat, 16));
    assert(b.skip(16) =~= le_bytes(version as nat, 4));
    reveal_with_fuel(pow256, 17);
    assert(pow256(16) == 0x1_0000_0000_0000_0000_0000_0000_0000_0000);
    assert(pow256(4) == 0x1_0000_0000);
    lemma_le_value_of_bytes(value as nat, 16);
    lemma_le_value_of_bytes(version as nat, 4);
}

/// A commutative change to an aggregator.
#[derive(Clone, Copy, Debug, Eq, PartialEq)]
pub enum DeltaUpdate {
    Plus(u128),
    Minus(u128),
}

/// A delta and the largest value the aggregator may hold.
#[derive(Clone, Copy, Debug, Eq, PartialEq)]
pub struct DeltaOp {
    pub update: DeltaUpdate,
    pub max_value: u128,
}

/// Why a delta cannot be applied.
#[derive(Clone, Copy, Debug, Eq, PartialEq)]
pub enum DeltaApplicationError {
    /// The result would exceed the maximum.
    Overflow,
    /// The result would fall below zero.
    Underflow,
}

/// The value a delta gives on `base`, or why it gives none.
pub open spec fn spec_apply_delta(base: u128, op: DeltaOp) -> Result<u128, DeltaApplicationError> {
    match op.update {
        DeltaUpdate::Plus(d) => if base + d > op.max_value {
            Err(DeltaApplicationError::Overflow)
        } else {
            Ok((base + d) as u128)
        },
        DeltaUpdate::Minus(d) => if d > base {
            Err(DeltaApplicationError::Underflow)
        } else {
            Ok((base - d) as u128)
        },
    }
}

pub fn apply_delta(base: u128, op: &DeltaOp) -> (r: Result<u128, DeltaApplicationError>)
    ensures
        r == spec_apply_delta(base, *op),
{
    match op.update {
        DeltaUpdate::Plus(d) => {
            if base > op.max_value || d > op.max_value - base {
                Err(DeltaApplicationError::Overflow)
            } else {
                Ok(base + d)
            }
        },
        DeltaUpdate::Minus(d) => {
            if d > base {
                Err(DeltaApplicationError::Underflow)
            } else {
                Ok(base - d)
            }
        },
    }
}

/// The outcome of applying a transaction's deltas at output time: the
/// values written, and the first failure, which stops the rest.
#[derive(Clone, Debug)]
pub struct MaterializedDeltas {
    pub writes: Vec<(u64, u128)>,
    pub error: Option<(u64, DeltaApplicationError)>,
}

/// Applies the deltas in order, each to the stored value read for its key;
/// the first failure is reported in the outcome and the rest are not
/// applied.
pub open spec fn spec_materialize(deltas: Seq<(u64, DeltaOp)>, bases: Seq<u128>) -> (Seq<(u64, u128)>, Option<(u64, DeltaApplicationError)>)
    decreases deltas.len(),
{
    if deltas.len() == 0 {
        (Seq::empty(), None)
    } else {
        let prev = spec_materialize(deltas.drop_last(), bases.drop_last());
        if prev.1 is Some {
            prev
        } else {
            match spec_apply_delta(bases.last(), deltas.last().1) {
                Ok(v) => (prev.0.push((deltas.last().0, v)), None),
                Err(e) => (prev.0, Some((deltas.last().0, e))),
            }
        }
    }
}

pub fn materialize_deltas(deltas: &Vec<(u64, DeltaOp)>, bases: &Vec<u128>) -> (r: MaterializedDeltas)
    requires
        deltas@.len() == bases@.len(),
    ensures
        (r.writes@, r.error) == spec_materialize(deltas@, bases@),
{
    let mut writes: Vec<(u64, u128)> = Vec::new();
    let mut i: usize = 0;
    while i < deltas.len()
        invariant
            deltas@.len() == bases@.len(),
            i <= deltas@.len(),
            spec_materialize(deltas@.take(i as int), bases@.take(i as int)) == (
                writes@,
                None::<(u64, DeltaApplicationError)>,
            ),
        decreases deltas@.len() - i,
    {
        let (key, op) = deltas[i];
        assert(deltas@.take(i as int + 1).drop_last() =~= deltas@.take(i as int));
        assert(bases@.take(i as int + 1).drop_last() =~= bases@.take(i as int));
        match apply_delta(bases[i], &op) {
            Ok(v) => {
                writes.push((key, v));
            },
            Err(e) => {
                proof {
                    lemma_materialize_stops(deltas@, bases@, i as int + 1);
                }
                return MaterializedDeltas { writes, error: Some((key, e)) };
            },
        }
        i += 1;
    }
    assert(deltas@.take(i as int) =~= deltas@);
    assert(bases@.take(i as int) =~= bases@);
    MaterializedDeltas { writes, error: None }
}

proof fn lemma_materialize_stops(deltas: Seq<(u64, DeltaOp)>, bases: Seq<u128>, k: int)
    requires
        0 <= k <= deltas.len(),
        deltas.len() == bases.len(),
        spec_materialize(deltas.take(k), bases.take(k)).1 is Some,
    ensures
        spec_materialize(deltas, bases) == spec_materialize(deltas.take(k), bases.take(k)),
    decreases deltas.len() - k,
{
    if k < deltas.len() {
        assert(deltas.take(k + 1).drop_last() =~= deltas.take(k));
        assert(bases.take(k + 1).drop_last() =~= bases.take(k));
        lemma_materialize_stops(deltas, bases, k + 1);
    } else {
        assert(deltas.take(k) =~= deltas);
        assert(bases.take(k) =~= bases);
    }
}

} // verus!
