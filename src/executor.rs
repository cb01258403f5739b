//! The control surface of a transaction in the executor's deterministic
//! harness: which behavior an incarnation runs, and the signals that skip
//! the rest of the block, abort it, or wait for an interrupt.

use vstd::prelude::*;

verus! {

/// A transaction of the harness.
#[derive(Clone, Copy, Debug, Eq, PartialEq)]
pub enum MockTransaction {
    /// Runs one of `num_behaviors` behaviors, chosen round-robin by
    /// incarnation.
    Write { num_behaviors: usize },
    /// Ends the block here, keeping this gas.
    SkipRest(u64),
    /// Fails the block.
    Abort,
    /// Waits for the executor's interrupt flag, then ends the block.
    InterruptRequested,
}

/// What the executor does with a transaction's incarnation.
#[derive(Clone, Copy, Debug, Eq, PartialEq)]
pub enum ExecutionDecision {
    Execute { behavior: usize },
    SkipRest { gas: u64 },
    Abort { txn_idx: u32 },
    AwaitInterruptThenSkip,
}

/// The decision for incarnation `incarnation` of transaction `txn_idx`.
pub open spec fn spec_decide(txn: MockTransaction, incarnation: usize, txn_idx: u32) -> ExecutionDecision {
    match txn {
        MockTransaction::Write { num_behaviors } => ExecutionDecision::Execute {
            behavior: (incarnation % num_behaviors) as usize,
        },
        MockTransaction::SkipRest(gas) => ExecutionDecision::SkipRest { gas },
        MockTransaction::Abort => ExecutionDecision::Abort { txn_idx },
        MockTransaction::InterruptRequested => ExecutionDecision::AwaitInterruptThenSkip,
    }
}

pub fn decide(txn: &MockTransaction, incarnation: usize, txn_idx: u32) -> (r: ExecutionDecision)
    requires
        txn matches MockTransaction::Write { num_behaviors } ==> num_behaviors > 0,
    ensures
        r == spec_decide(*txn, incarnation, txn_idx),
{
    match txn {
        MockTransaction::Write { num_behaviors } => ExecutionDecision::Execute {
            behavior: incarnation % *num_behaviors,
        },
        MockTransaction::SkipRest(gas) => ExecutionDecision::SkipRest { gas: *gas },
        MockTransaction::Abort => ExecutionDecision::Abort { txn_idx },
        MockTransaction::InterruptRequested => ExecutionDecision::AwaitInterruptThenSkip,
    }
}

} // verus!

verus! {

use crate::delayed_field::RESERVED_TAG;
use crate::resource_group::{entry_size, GroupSizeError, ResourceGroupSize, MAX_SEQUENCE_LENGTH};

/// What a write does to a value.
#[derive(Clone, Copy, Debug, Eq, PartialEq)]
pub enum WriteKind {
    Creation,
    Modification,
    Deletion,
}

/// The tagged write a requested group operation turns into, given the
/// length of the tag's current value if it has one. A requested creation
/// (`Some(bytes)`) of a present tag modifies it when the first byte is
/// below 3 modulo 4 or the tag is the reserved one, and deletes it
/// otherwise; of an absent tag it creates it. A requested deletion (`None`)
/// of a present tag deletes it, and of an absent tag does nothing.
pub open spec fn decide_op(existing: Option<u64>, tag: u32, bytes: Option<Seq<u8>>) -> Option<(WriteKind, Seq<u8>)> {
    match existing {
        Some(_) => match bytes {
            Some(b) => if b[0] % 4 < 3 || tag == RESERVED_TAG {
                Some((WriteKind::Modification, b))
            } else {
                Some((WriteKind::Deletion, Seq::empty()))
            },
            None => Some((WriteKind::Deletion, Seq::empty())),
        },
        None => match bytes {
            Some(b) => Some((WriteKind::Creation, b)),
            None => None,
        },
    }
}

/// The size after removing a value of `len` bytes.
pub open spec fn size_minus(s: ResourceGroupSize, len: u64) -> Result<ResourceGroupSize, GroupSizeError> {
    if s.num_tagged_resources >= 1 && s.all_tagged_resources_size >= entry_size(len as nat) {
        Ok(
            ResourceGroupSize {
                num_tagged_resources: (s.num_tagged_resources - 1) as u64,
                all_tagged_resources_size: (s.all_tagged_resources_size - entry_size(len as nat)) as u64,
            },
        )
    } else {
        Err(GroupSizeError::Underflow)
    }
}

/// The size after adding a value of `len` bytes.
pub open spec fn size_plus(s: ResourceGroupSize, len: nat) -> Result<ResourceGroupSize, GroupSizeError> {
    if s.num_tagged_resources < MAX_SEQUENCE_LENGTH && s.all_tagged_resources_size + entry_size(len) <= u64::MAX {
        Ok(
            ResourceGroupSize {
                num_tagged_resources: (s.num_tagged_resources + 1) as u64,
                all_tagged_resources_size: (s.all_tagged_resources_size + entry_size(len)) as u64,
            },
        )
    } else {
        Err(GroupSizeError::Overflow)
    }
}

/// The size after a tagged write: the old value's share leaves, the new
/// value's share comes in.
pub open spec fn size_step(s: ResourceGroupSize, existing: Option<u64>, kind: WriteKind, len: nat) -> Result<ResourceGroupSize, GroupSizeError> {
    let removed = match existing {
        Some(l) => size_minus(s, l),
        None => Ok(s),
    };
    match removed {
        Err(e) => Err(e),
        Ok(s1) => if kind == WriteKind::Deletion {
            Ok(s1)
        } else {
            size_plus(s1, len)
        },
    }
}

/// The requested operations with their bytes.
pub open spec fn ops_view(ops: Seq<(u32, Option<Vec<u8>>)>) -> Seq<(u32, Option<Seq<u8>>)> {
    Seq::new(
        ops.len(),
        |i: int|
            (ops[i].0, match ops[i].1 {
                Some(v) => Some(v@),
                None => None,
            }),
    )
}

/// The tagged writes with their bytes.
pub open spec fn writes_view(w: Seq<(u32, WriteKind, Vec<u8>)>) -> Seq<(u32, WriteKind, Seq<u8>)> {
    Seq::new(w.len(), |i: int| (w[i].0, w[i].1, w[i].2@))
}

/// The group's new size and tagged writes after the requested operations,
/// in order, or the first size error.
pub open spec fn spec_apply_group(size: ResourceGroupSize, existing: Seq<Option<u64>>, ops: Seq<(u32, Option<Seq<u8>>)>) -> Result<
    (ResourceGroupSize, Seq<(u32, WriteKind, Seq<u8>)>),
    GroupSizeError,
>
    decreases ops.len(),
{
    if ops.len() == 0 || existing.len() == 0 {
        Ok((size, Seq::empty()))
    } else {
        match spec_apply_group(size, existing.drop_last(), ops.drop_last()) {
            Err(e) => Err(e),
            Ok((s, out)) => {
                let (tag, bytes) = ops.last();
                match decide_op(existing.last(), tag, bytes) {
                    None => Ok((s, out)),
                    Some((kind, b)) => match size_step(s, existing.last(), kind, b.len()) {
                        Err(e) => Err(e),
                        Ok(s2) => Ok((s2, out.push((tag, kind, b)))),
                    },
                }
            },
        }
    }
}

fn copy_bytes(v: &Vec<u8>) -> (r: Vec<u8>)
    ensures
        r@ == v@,
{
    let mut out: Vec<u8> = Vec::new();
    let mut i: usize = 0;
    while i < v.len()
        invariant
            i <= v@.len(),
            out@ == v@.take(i as int),
        decreases v@.len() - i,
    {
        out.push(v[i]);
        assert(v@.take(i as int + 1) =~= v@.take(i as int).push(v@[i as int]));
        i += 1;
    }
    assert(v@.take(i as int) =~= v@);
    out
}

proof fn lemma_apply_group_stops(size: ResourceGroupSize, existing: Seq<Option<u64>>, ops: Seq<(u32, Option<Seq<u8>>)>, k: int)
    requires
        0 <= k <= ops.len(),
        ops.len() == existing.len(),
        spec_apply_group(size, existing.take(k), ops.take(k)) is Err,
    ensures
        spec_apply_group(size, existing, ops) == spec_apply_group(size, existing.take(k), ops.take(k)),
    decreases ops.len() - k,
{
    if k < ops.len() {
        assert(ops.take(k + 1).drop_last() =~= ops.take(k));
        assert(existing.take(k + 1).drop_last() =~= existing.take(k));
        lemma_apply_group_stops(size, existing, ops, k + 1);
    } else {
        assert(ops.take(k) =~= ops);
        assert(existing.take(k) =~= existing);
    }
}

/// Applies a transaction's requested operations on one resource group,
/// given the group's size and, per operation, the length of the tag's
/// current value (`None` when the tag is absent). The reserved tag is
/// always present and every requested creation carries bytes.
pub fn apply_group_writes(size: ResourceGroupSize, existing: &Vec<Option<u64>>, ops: &Vec<(u32, Option<Vec<u8>>)>) -> (r: Result<
    (ResourceGroupSize, Vec<(u32, WriteKind, Vec<u8>)>),
    GroupSizeError,
>)
    requires
        existing@.len() == ops@.len(),
        forall|i: int| 0 <= i < ops@.len() && (#[trigger] ops@[i]).0 == RESERVED_TAG ==> existing@[i] is Some,
        forall|i: int| 0 <= i < ops@.len() && (#[trigger] ops@[i]).1 is Some ==> ops@[i].1->0@.len() > 0,
    ensures
        match spec_apply_group(size, existing@, ops_view(ops@)) {
            Ok((s, w)) => r matches Ok((s2, w2)) && s2 == s && writes_view(w2@) == w,
            Err(e) => r == Err::<(ResourceGroupSize, Vec<(u32, WriteKind, Vec<u8>)>), GroupSizeError>(e),
        },
{
    let ghost ov = ops_view(ops@);
    let mut cur = size;
    let mut out: Vec<(u32, WriteKind, Vec<u8>)> = Vec::new();
    let mut i: usize = 0;
    assert(writes_view(out@) =~= Seq::<(u32, WriteKind, Seq<u8>)>::empty());
    while i < ops.len()
        invariant
            existing@.len() == ops@.len(),
            ov == ops_view(ops@),
            forall|q: int| 0 <= q < ops@.len() && (#[trigger] ops@[q]).1 is Some ==> ops@[q].1->0@.len() > 0,
            i <= ops@.len(),
            spec_apply_group(size, existing@.take(i as int), ov.take(i as int)) == Ok::<
                (ResourceGroupSize, Seq<(u32, WriteKind, Seq<u8>)>),
                GroupSizeError,
            >((cur, writes_view(out@))),
        decreases ops@.len() - i,
    {
        proof {
            assert(ov.take(i as int + 1).drop_last() =~= ov.take(i as int));
            assert(existing@.take(i as int + 1).drop_last() =~= existing@.take(i as int));
            assert(ov.take(i as int + 1).last() == ov[i as int]);
        }
        let tag = ops[i].0;
        let ex = existing[i];
        let decision: Option<(WriteKind, Vec<u8>)> = match &ops[i].1 {
            Some(b) => {
                if ex.is_some() {
                    if b[0] % 4 < 3 || tag == RESERVED_TAG {
                        Some((WriteKind::Modification, copy_bytes(b)))
                    } else {
                        Some((WriteKind::Deletion, Vec::new()))
                    }
                } else {
                    Some((WriteKind::Creation, copy_bytes(b)))
                }
            },
            None => {
                if ex.is_some() {
                    Some((WriteKind::Deletion, Vec::new()))
                } else {
                    None
                }
            },
        };
        match decision {
            None => {},
            Some((kind, bytes)) => {
                let mut next = cur;
                let mut failed: Option<GroupSizeError> = None;
                if let Some(l) = ex {
                    if next.decrement_size_for_remove_tag(l).is_err() {
                        failed = Some(GroupSizeError::Underflow);
                    }
                }
                if failed.is_none() && !matches!(kind, WriteKind::Deletion) {
                    if next.increment_size_for_add_tag(bytes.len() as u64).is_err() {
                        failed = Some(GroupSizeError::Overflow);
                    }
                }
                if let Some(e) = failed {
                    proof {
                        lemma_apply_group_stops(size, existing@, ov, i as int + 1);
                    }
                    return Err(e);
                }
                let ghost bv = bytes@;
                let ghost before = out@;
                out.push((tag, kind, bytes));
                cur = next;
                proof {
                    assert(writes_view(out@) =~= writes_view(before).push((tag, kind, bv)));
                }
            },
        }
        i += 1;
    }
    proof {
        assert(ov.take(i as int) =~= ov);
        assert(existing@.take(i as int) =~= existing@);
    }
    Ok((cur, out))
}

/// The kind of write a whole group gets, once some tagged write applies:
/// a group that had entries and has none left is deleted; one that had
/// none is created; any other is modified.
pub open spec fn spec_group_kind(before: ResourceGroupSize, after: ResourceGroupSize) -> WriteKind {
    if before.num_tagged_resources > 0 && after.num_tagged_resources == 0 && after.all_tagged_resources_size == 0 {
        WriteKind::Deletion
    } else if before.num_tagged_resources == 0 {
        WriteKind::Creation
    } else {
        WriteKind::Modification
    }
}

pub fn group_write_kind(before: &ResourceGroupSize, after: &ResourceGroupSize) -> (r: WriteKind)
    ensures
        r == spec_group_kind(*before, *after),
{
    if before.num_tagged_resources > 0 && after.num_tagged_resources == 0 && after.all_tagged_resources_size == 0 {
        WriteKind::Deletion
    } else if before.num_tagged_resources == 0 {
        WriteKind::Creation
    } else {
        WriteKind::Modification
    }
}

} // verus!

verus! {

use crate::delayed_field::{DeltaOp, deserialize_to_delayed_field_u128};
use crate::types::le_value;

/// The view's answer to one read: the value, if any; a value that carries
/// a delayed field, with the field's current value from the resolver; or a
/// failure.
#[derive(Clone, Debug)]
pub enum ReadAnswer {
    Value(Option<Vec<u8>>),
    DelayedField(Vec<u8>, u128),
    Failed,
}

/// The view's answer to a group size or metadata query.
#[derive(Clone, Copy, Debug, Eq, PartialEq)]
pub enum QueryAnswer {
    Size(u64),
    Metadata(Option<u64>),
    Failed,
}

/// One group a transaction writes: its key, its size as the view reports
/// it, per operation the length of the tag's current value, and the
/// requested operations (`Some(bytes)` creates, `None` deletes).
#[derive(Clone, Debug)]
pub struct GroupWriteRequest {
    pub key: u64,
    pub size: ResourceGroupSize,
    pub existing: Vec<Option<u64>>,
    pub ops: Vec<(u32, Option<Vec<u8>>)>,
}

/// The write a group receives: its kind, its new size and its tagged writes.
#[derive(Debug)]
pub struct GroupWrite {
    pub key: u64,
    pub kind: WriteKind,
    pub size: ResourceGroupSize,
    pub ops: Vec<(u32, WriteKind, Vec<u8>)>,
}

/// Why a speculative execution produced an error output instead of writes.
#[derive(Clone, Copy, Debug, Eq, PartialEq)]
pub enum ExecutionError {
    /// The read at this position failed, or its delayed field did not decode.
    ReadFailed(usize),
    /// The group query at this position failed.
    QueryFailed(usize),
    /// The size of this group could not be updated.
    GroupSize(u64, GroupSizeError),
}

/// What one incarnation of a write transaction declares besides its reads:
/// events, deltas and gas.
#[derive(Clone, Debug)]
pub struct BehaviorEffects {
    /// Resource writes: the key and the new value (`None` deletes).
    pub writes: Vec<(u64, Option<Vec<u8>>)>,
    pub events: Vec<Vec<u8>>,
    pub deltas: Vec<(u64, DeltaOp)>,
    pub gas: u64,
}

/// A transaction's output. A failed read, query or group size update gives
/// an output with the error and nothing else: the block goes on.
#[derive(Debug)]
pub struct MockOutput {
    /// Resource and group read results, in read order.
    pub read_results: Vec<Option<Vec<u8>>>,
    /// For each read that carried a delayed field: its id and resolved value.
    pub delayed_field_reads: Vec<(u128, u128)>,
    pub query_results: Vec<QueryAnswer>,
    pub group_writes: Vec<GroupWrite>,
    pub writes: Vec<(u64, Option<Vec<u8>>)>,
    pub events: Vec<Vec<u8>>,
    /// Aggregator deltas to apply at materialization; empty when delayed
    /// fields carry them instead.
    pub deltas: Vec<(u64, DeltaOp)>,
    pub total_gas: u64,
    pub error: Option<ExecutionError>,
    /// The deltas' materialized values, set once after post-processing.
    pub materialized_delta_writes: Option<Vec<(u64, u128)>>,
}

impl MockOutput {
    /// Sets the materialized delta writes; refused, with nothing changed,
    /// when they were set already.
    pub fn incorporate_materialized_delta_writes(&mut self, writes: Vec<(u64, u128)>) -> (r: bool)
        ensures
            r == old(self).materialized_delta_writes is None,
            r ==> final(self).materialized_delta_writes == Some(writes),
            !r ==> final(self).materialized_delta_writes == old(self).materialized_delta_writes,
            final(self).read_results == old(self).read_results,
            final(self).total_gas == old(self).total_gas,
            final(self).error == old(self).error,
    {
        if self.materialized_delta_writes.is_some() {
            return false;
        }
        self.materialized_delta_writes = Some(writes);
        true
    }
}

pub open spec fn request_ok(g: GroupWriteRequest) -> bool {
    &&& g.existing@.len() == g.ops@.len()
    &&& forall|i: int| 0 <= i < g.ops@.len() && (#[trigger] g.ops@[i]).0 == RESERVED_TAG ==> g.existing@[i] is Some
    &&& forall|i: int| 0 <= i < g.ops@.len() && (#[trigger] g.ops@[i]).1 is Some ==> g.ops@[i].1->0@.len() > 0
}

pub open spec fn group_outcome(g: GroupWriteRequest) -> Result<(ResourceGroupSize, Seq<(u32, WriteKind, Seq<u8>)>), GroupSizeError> {
    spec_apply_group(g.size, g.existing@, ops_view(g.ops@))
}

/// A read fails when the view failed, or when a value said to carry a
/// delayed field is not a twenty-byte delayed-field tuple.
pub open spec fn read_fails(a: ReadAnswer) -> bool {
    match a {
        ReadAnswer::Failed => true,
        ReadAnswer::DelayedField(b, _) => b@.len() != 20,
        ReadAnswer::Value(_) => false,
    }
}

/// The position of the first failed read, if any.
pub open spec fn first_failed_read(reads: Seq<ReadAnswer>) -> Option<int>
    decreases reads.len(),
{
    if reads.len() == 0 {
        None
    } else {
        match first_failed_read(reads.drop_last()) {
            Some(i) => Some(i),
            None => if read_fails(reads.last()) {
                Some(reads.len() - 1)
            } else {
                None
            },
        }
    }
}

/// The position of the first failed query, if any.
pub open spec fn first_failed_query(qs: Seq<QueryAnswer>) -> Option<int>
    decreases qs.len(),
{
    if qs.len() == 0 {
        None
    } else {
        match first_failed_query(qs.drop_last()) {
            Some(i) => Some(i),
            None => if qs.last() is Failed {
                Some(qs.len() - 1)
            } else {
                None
            },
        }
    }
}

/// The first group whose size cannot be updated, with the reason.
pub open spec fn first_group_error(gs: Seq<GroupWriteRequest>) -> Option<(u64, GroupSizeError)>
    decreases gs.len(),
{
    if gs.len() == 0 {
        None
    } else {
        match first_group_error(gs.drop_last()) {
            Some(x) => Some(x),
            None => match group_outcome(gs.last()) {
                Err(e) => Some((gs.last().key, e)),
                Ok(_) => None,
            },
        }
    }
}

/// The error output's reason when a group's size cannot be updated.
pub open spec fn group_error(gs: Seq<GroupWriteRequest>) -> Option<ExecutionError> {
    match first_group_error(gs) {
        Some((k, e)) => Some(ExecutionError::GroupSize(k, e)),
        None => None,
    }
}

/// The group writes, in order, of the groups that receive at least one
/// tagged write.
pub open spec fn spec_group_writes(gs: Seq<GroupWriteRequest>) -> Seq<(u64, WriteKind, ResourceGroupSize, Seq<(u32, WriteKind, Seq<u8>)>)>
    decreases gs.len(),
{
    if gs.len() == 0 {
        Seq::empty()
    } else {
        let prev = spec_group_writes(gs.drop_last());
        let g = gs.last();
        match group_outcome(g) {
            Ok((s, w)) => if w.len() > 0 {
                prev.push((g.key, spec_group_kind(g.size, s), s, w))
            } else {
                prev
            },
            Err(_) => prev,
        }
    }
}

pub open spec fn read_view(a: ReadAnswer) -> Option<Seq<u8>> {
    match a {
        ReadAnswer::Value(Some(v)) => Some(v@),
        ReadAnswer::DelayedField(v, _) => Some(v@),
        _ => None,
    }
}

/// The delayed-field reads recorded from `reads`: each field's id, decoded
/// from the first sixteen bytes, with its resolved value.
pub open spec fn spec_delayed_reads(reads: Seq<ReadAnswer>) -> Seq<(nat, u128)>
    decreases reads.len(),
{
    if reads.len() == 0 {
        Seq::empty()
    } else {
        let prev = spec_delayed_reads(reads.drop_last());
        match reads.last() {
            ReadAnswer::DelayedField(b, v) => prev.push((le_value(b@.take(16)), v)),
            _ => prev,
        }
    }
}

pub open spec fn delayed_view(d: Seq<(u128, u128)>) -> Seq<(nat, u128)> {
    Seq::new(d.len(), |i: int| (d[i].0 as nat, d[i].1))
}

pub open spec fn results_view(r: Seq<Option<Vec<u8>>>) -> Seq<Option<Seq<u8>>> {
    Seq::new(
        r.len(),
        |i: int|
            match r[i] {
                Some(v) => Some(v@),
                None => None,
            },
    )
}

pub open spec fn bytes_view(r: Seq<Vec<u8>>) -> Seq<Seq<u8>> {
    Seq::new(r.len(), |i: int| r[i]@)
}

pub open spec fn group_writes_view(w: Seq<GroupWrite>) -> Seq<(u64, WriteKind, ResourceGroupSize, Seq<(u32, WriteKind, Seq<u8>)>)> {
    Seq::new(w.len(), |i: int| (w[i].key, w[i].kind, w[i].size, writes_view(w[i].ops@)))
}

fn error_output(e: ExecutionError) -> (r: MockOutput)
    ensures
        r.error == Some(e),
        r.read_results@.len() == 0,
        r.delayed_field_reads@.len() == 0,
        r.query_results@.len() == 0,
        r.group_writes@.len() == 0,
        r.events@.len() == 0,
        r.deltas@.len() == 0,
        r.total_gas == 0,
{
    MockOutput {
        read_results: Vec::new(),
        delayed_field_reads: Vec::new(),
        query_results: Vec::new(),
        group_writes: Vec::new(),
        writes: Vec::new(),
        events: Vec::new(),
        deltas: Vec::new(),
        total_gas: 0,
        error: Some(e),
        materialized_delta_writes: None,
    }
}

/// Records the read answers in order, or names the first failed read.
fn record_reads(reads: &Vec<ReadAnswer>) -> (r: Result<(Vec<Option<Vec<u8>>>, Vec<(u128, u128)>), usize>)
    ensures
        first_failed_read(reads@) matches Some(i) ==> r == Err::<(Vec<Option<Vec<u8>>>, Vec<(u128, u128)>), usize>(
            i as usize,
        ),
        first_failed_read(reads@) is None ==> (r matches Ok((v, d)) && results_view(v@) == reads@.map_values(
            |a: ReadAnswer| read_view(a),
        ) && delayed_view(d@) == spec_delayed_reads(reads@)),
{
    let mut results: Vec<Option<Vec<u8>>> = Vec::new();
    let mut delayed: Vec<(u128, u128)> = Vec::new();
    let mut i: usize = 0;
    while i < reads.len()
        invariant
            i <= reads@.len(),
            first_failed_read(reads@.take(i as int)) is None,
            results_view(results@) == reads@.take(i as int).map_values(|a: ReadAnswer| read_view(a)),
            delayed_view(delayed@) == spec_delayed_reads(reads@.take(i as int)),
        decreases reads@.len() - i,
    {
        proof {
            assert(reads@.take(i as int + 1).drop_last() =~= reads@.take(i as int));
            assert(reads@.take(i as int + 1).last() == reads@[i as int]);
        }
        let ghost before = results@;
        let ghost dbefore = delayed@;
        match &reads[i] {
            ReadAnswer::Failed => {
                proof {
                    lemma_first_failed_stays(reads@, i as int + 1);
                }
                return Err(i);
            },
            ReadAnswer::Value(v) => {
                let copy = match v {
                    Some(b) => Some(copy_bytes(b)),
                    None => None,
                };
                results.push(copy);
                proof {
                    assert(results_view(results@) =~= results_view(before).push(read_view(reads@[i as int])));
                    assert(delayed_view(delayed@) =~= spec_delayed_reads(reads@.take(i as int + 1)));
                }
            },
            ReadAnswer::DelayedField(b, value) => {
                match deserialize_to_delayed_field_u128(b.as_slice()) {
                    Err(_) => {
                        proof {
                            lemma_first_failed_stays(reads@, i as int + 1);
                        }
                        return Err(i);
                    },
                    Ok((id, _version)) => {
                        results.push(Some(copy_bytes(b)));
                        delayed.push((id, *value));
                        proof {
                            assert(results_view(results@) =~= results_view(before).push(read_view(reads@[i as int])));
                            assert(delayed_view(delayed@) =~= delayed_view(dbefore).push((id as nat, *value)));
                        }
                    },
                }
            },
        }
        proof {
            assert(reads@.take(i as int + 1).map_values(|a: ReadAnswer| read_view(a)) =~= reads@.take(
                i as int,
            ).map_values(|a: ReadAnswer| read_view(a)).push(read_view(reads@[i as int])));
        }
        i += 1;
    }
    proof {
        assert(reads@.take(i as int) =~= reads@);
    }
    Ok((results, delayed))
}

/// Records the query answers in order, or names the first failed query.
fn record_queries(queries: &Vec<QueryAnswer>) -> (r: Result<Vec<QueryAnswer>, usize>)
    ensures
        first_failed_query(queries@) matches Some(i) ==> r == Err::<Vec<QueryAnswer>, usize>(i as usize),
        first_failed_query(queries@) is None ==> (r matches Ok(v) && v@ == queries@),
{
    let mut out: Vec<QueryAnswer> = Vec::new();
    let mut i: usize = 0;
    while i < queries.len()
        invariant
            i <= queries@.len(),
            first_failed_query(queries@.take(i as int)) is None,
            out@ == queries@.take(i as int),
        decreases queries@.len() - i,
    {
        proof {
            assert(queries@.take(i as int + 1).drop_last() =~= queries@.take(i as int));
        }
        let q = queries[i];
        if matches!(q, QueryAnswer::Failed) {
            proof {
                lemma_first_failed_query_stays(queries@, i as int + 1);
            }
            return Err(i);
        }
        out.push(q);
        proof {
            assert(out@ =~= queries@.take(i as int + 1));
        }
        i += 1;
    }
    proof {
        assert(queries@.take(i as int) =~= queries@);
    }
    Ok(out)
}

/// Applies every group's requested operations, or names the first group
/// whose size cannot be updated.
fn apply_groups(groups: &Vec<GroupWriteRequest>) -> (r: Result<Vec<GroupWrite>, (u64, GroupSizeError)>)
    requires
        forall|i: int| 0 <= i < groups@.len() ==> request_ok(#[trigger] groups@[i]),
    ensures
        first_group_error(groups@) is Some ==> r == Err::<Vec<GroupWrite>, (u64, GroupSizeError)>(
            first_group_error(groups@)->0,
        ),
        first_group_error(groups@) is None ==> (r matches Ok(w) && group_writes_view(w@) == spec_group_writes(
            groups@,
        )),
{
    let mut writes: Vec<GroupWrite> = Vec::new();
    let mut j: usize = 0;
    assert(group_writes_view(writes@) =~= spec_group_writes(groups@.take(0)));
    while j < groups.len()
        invariant
            j <= groups@.len(),
            forall|q: int| 0 <= q < groups@.len() ==> request_ok(#[trigger] groups@[q]),
            first_group_error(groups@.take(j as int)) is None,
            group_writes_view(writes@) == spec_group_writes(groups@.take(j as int)),
        decreases groups@.len() - j,
    {
        proof {
            assert(groups@.take(j as int + 1).drop_last() =~= groups@.take(j as int));
            assert(groups@.take(j as int + 1).last() == groups@[j as int]);
        }
        let g = &groups[j];
        assert(request_ok(groups@[j as int]));
        match apply_group_writes(g.size, &g.existing, &g.ops) {
            Err(e) => {
                proof {
                    lemma_first_group_error_stays(groups@, j as int + 1);
                }
                return Err((g.key, e));
            },
            Ok((s, w)) => {
                if w.len() > 0 {
                    let kind = group_write_kind(&g.size, &s);
                    let ghost before = writes@;
                    let ghost wv = writes_view(w@);
                    writes.push(GroupWrite { key: g.key, kind, size: s, ops: w });
                    proof {
                        assert(group_writes_view(writes@) =~= group_writes_view(before).push((g.key, kind, s, wv)));
                    }
                }
            },
        }
        j += 1;
    }
    proof {
        assert(groups@.take(j as int) =~= groups@);
    }
    Ok(writes)
}

fn copy_events(v: &Vec<Vec<u8>>) -> (r: Vec<Vec<u8>>)
    ensures
        bytes_view(r@) == bytes_view(v@),
{
    let mut out: Vec<Vec<u8>> = Vec::new();
    let mut i: usize = 0;
    while i < v.len()
        invariant
            i <= v@.len(),
            bytes_view(out@) == bytes_view(v@.take(i as int)),
        decreases v@.len() - i,
    {
        let ghost prev = out@;
        out.push(copy_bytes(&v[i]));
        assert(bytes_view(out@) =~= bytes_view(prev).push(v@[i as int]@));
        assert(bytes_view(v@.take(i as int + 1)) =~= bytes_view(v@.take(i as int)).push(v@[i as int]@));
        i += 1;
    }
    assert(v@.take(i as int) =~= v@);
    out
}

/// Each resource write's key and new bytes.
pub open spec fn resource_writes_view(w: Seq<(u64, Option<Vec<u8>>)>) -> Seq<(u64, Option<Seq<u8>>)> {
    Seq::new(
        w.len(),
        |i: int|
            (w[i].0, match w[i].1 {
                Some(v) => Some(v@),
                None => None,
            }),
    )
}

fn copy_writes(v: &Vec<(u64, Option<Vec<u8>>)>) -> (r: Vec<(u64, Option<Vec<u8>>)>)
    ensures
        resource_writes_view(r@) == resource_writes_view(v@),
{
    let mut out: Vec<(u64, Option<Vec<u8>>)> = Vec::new();
    let mut i: usize = 0;
    while i < v.len()
        invariant
            i <= v@.len(),
            resource_writes_view(out@) == resource_writes_view(v@.take(i as int)),
        decreases v@.len() - i,
    {
        let ghost prev = out@;
        let value = match &v[i].1 {
            Some(b) => Some(copy_bytes(b)),
            None => None,
        };
        out.push((v[i].0, value));
        assert(resource_writes_view(out@) =~= resource_writes_view(prev).push(resource_writes_view(v@)[i as int]));
        assert(resource_writes_view(v@.take(i as int + 1)) =~= resource_writes_view(v@.take(i as int)).push(
            resource_writes_view(v@)[i as int],
        ));
        i += 1;
    }
    assert(v@.take(i as int) =~= v@);
    out
}

fn copy_deltas(v: &Vec<(u64, DeltaOp)>) -> (r: Vec<(u64, DeltaOp)>)
    ensures
        r@ == v@,
{
    let mut out: Vec<(u64, DeltaOp)> = Vec::new();
    let mut i: usize = 0;
    while i < v.len()
        invariant
            i <= v@.len(),
            out@ == v@.take(i as int),
        decreases v@.len() - i,
    {
        out.push(v[i]);
        assert(out@ =~= v@.take(i as int + 1));
        i += 1;
    }
    assert(v@.take(i as int) =~= v@);
    out
}

/// Assembles a write incarnation's output from the view's answers: read
/// results (resource reads, then group reads) with the delayed fields they
/// carry, group query results, group writes, events, deltas and gas. The
/// first failed read, else the first failed query, else the first group
/// whose size cannot be updated gives an error output instead. Deltas are
/// kept only when delayed fields do not carry them.
pub fn build_output(
    reads: &Vec<ReadAnswer>,
    queries: &Vec<QueryAnswer>,
    groups: &Vec<GroupWriteRequest>,
    effects: &BehaviorEffects,
    delayed_fields: bool,
) -> (r: MockOutput)
    requires
        forall|i: int| 0 <= i < groups@.len() ==> request_ok(#[trigger] groups@[i]),
    ensures
        first_failed_read(reads@) matches Some(i) ==> r.error == Some(ExecutionError::ReadFailed(i as usize))
            && r.read_results@.len() == 0 && r.group_writes@.len() == 0 && r.total_gas == 0,
        first_failed_read(reads@) is None && first_failed_query(queries@) is Some ==> r.error == Some(
            ExecutionError::QueryFailed(first_failed_query(queries@)->0 as usize),
        ) && r.read_results@.len() == 0 && r.group_writes@.len() == 0 && r.total_gas == 0,
        first_failed_read(reads@) is None && first_failed_query(queries@) is None && first_group_error(groups@)
            is Some ==> r.error == group_error(groups@) && r.read_results@.len() == 0 && r.group_writes@.len()
            == 0 && r.total_gas == 0,
        first_failed_read(reads@) is None && first_failed_query(queries@) is None && first_group_error(groups@)
            is None ==> {
            &&& r.error is None
            &&& results_view(r.read_results@) == reads@.map_values(|a: ReadAnswer| read_view(a))
            &&& delayed_view(r.delayed_field_reads@) == spec_delayed_reads(reads@)
            &&& r.query_results@ == queries@
            &&& group_writes_view(r.group_writes@) == spec_group_writes(groups@)
            &&& resource_writes_view(r.writes@) == resource_writes_view(effects.writes@)
            &&& bytes_view(r.events@) == bytes_view(effects.events@)
            &&& r.deltas@ == if delayed_fields {
                Seq::<(u64, DeltaOp)>::empty()
            } else {
                effects.deltas@
            }
            &&& r.total_gas == effects.gas
            &&& r.materialized_delta_writes is None
        },
{
    let (read_results, delayed_field_reads) = match record_reads(reads) {
        Ok(x) => x,
        Err(i) => {
            return error_output(ExecutionError::ReadFailed(i));
        },
    };
    let query_results = match record_queries(queries) {
        Ok(q) => q,
        Err(i) => {
            return error_output(ExecutionError::QueryFailed(i));
        },
    };
    let group_writes = match apply_groups(groups) {
        Ok(w) => w,
        Err((k, e)) => {
            return error_output(ExecutionError::GroupSize(k, e));
        },
    };
    let deltas = if delayed_fields {
        Vec::new()
    } else {
        copy_deltas(&effects.deltas)
    };
    MockOutput {
        read_results,
        delayed_field_reads,
        query_results,
        group_writes,
        writes: copy_writes(&effects.writes),
        events: copy_events(&effects.events),
        deltas,
        total_gas: effects.gas,
        error: None,
        materialized_delta_writes: None,
    }
}

proof fn lemma_first_failed_stays(reads: Seq<ReadAnswer>, k: int)
    requires
        0 <= k <= reads.len(),
        first_failed_read(reads.take(k)) is Some,
    ensures
        first_failed_read(reads) == first_failed_read(reads.take(k)),
    decreases reads.len() - k,
{
    if k < reads.len() {
        assert(reads.take(k + 1).drop_last() =~= reads.take(k));
        lemma_first_failed_stays(reads, k + 1);
    } else {
        assert(reads.take(k) =~= reads);
    }
}

proof fn lemma_first_failed_query_stays(qs: Seq<QueryAnswer>, k: int)
    requires
        0 <= k <= qs.len(),
        first_failed_query(qs.take(k)) is Some,
    ensures
        first_failed_query(qs) == first_failed_query(qs.take(k)),
    decreases qs.len() - k,
{
    if k < qs.len() {
        assert(qs.take(k + 1).drop_last() =~= qs.take(k));
        lemma_first_failed_query_stays(qs, k + 1);
    } else {
        assert(qs.take(k) =~= qs);
    }
}

proof fn lemma_first_group_error_stays(gs: Seq<GroupWriteRequest>, k: int)
    requires
        0 <= k <= gs.len(),
        first_group_error(gs.take(k)) is Some,
    ensures
        first_group_error(gs) == first_group_error(gs.take(k)),
    decreases gs.len() - k,
{
    if k < gs.len() {
        assert(gs.take(k + 1).drop_last() =~= gs.take(k));
        lemma_first_group_error_stays(gs, k + 1);
    } else {
        assert(gs.take(k) =~= gs);
    }
}

} // verus!
