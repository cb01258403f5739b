//! Interleaves the committed anchors of the DAG instances into one block
//! stream: each block's round is the sum of the instances' last committed
//! anchor rounds, so rounds only grow.

use vstd::prelude::*;
use crate::dag_store::{CertifiedNode, DagStore, NodeMetadata, retained};
use crate::types::{HashValue, le_bytes, u64_le_bytes};

verus! {

/// Number of DAG instances whose committed rounds the notifier tracks.
pub const NUM_DAG_INSTANCES: usize = 3;

/// The consensus data digest of the committed rounds: their little-endian
/// bytes, padded with zeros to 32 bytes. It identifies the rounds; it is
/// not a cryptographic commitment.
pub open spec fn data_digest(rounds: Seq<u64>) -> Seq<u8> {
    rounds_bytes(rounds) + Seq::new(8, |i: int| 0u8)
}

/// A block made from one committed anchor and its causal history.
#[derive(Clone, Debug)]
pub struct OrderedBlock {
    pub epoch: u64,
    pub round: u64,
    pub timestamp_usecs: u64,
    pub author: usize,
    pub payload: Vec<u64>,
    pub node_digests: Vec<HashValue>,
    /// One flag per validator: whether it authored a parent of the anchor.
    pub parents_bitvec: Vec<bool>,
    /// The committed rounds, as little-endian bytes.
    pub consensus_data_hash: Vec<u8>,
    /// Anchors that failed before this one: (round, author).
    pub failed_authors: Vec<(u64, usize)>,
}

/// Sum of the rounds.
pub open spec fn sum_rounds(s: Seq<u64>) -> int
    decreases s.len(),
{
    if s.len() == 0 {
        0
    } else {
        sum_rounds(s.drop_last()) + s.last()
    }
}

/// The payloads of `nodes` one after the other.
pub open spec fn flat_payload(nodes: Seq<CertifiedNode>) -> Seq<u64>
    decreases nodes.len(),
{
    if nodes.len() == 0 {
        Seq::empty()
    } else {
        flat_payload(nodes.drop_last()) + nodes.last().payload@
    }
}

/// The little-endian bytes of each round, one after the other.
pub open spec fn rounds_bytes(s: Seq<u64>) -> Seq<u8>
    decreases s.len(),
{
    if s.len() == 0 {
        Seq::empty()
    } else {
        rounds_bytes(s.drop_last()) + le_bytes(s.last() as nat, 8)
    }
}

/// Some parent was authored by validator `i`.
pub open spec fn has_parent_by(parents: Seq<NodeMetadata>, i: int) -> bool {
    exists|k: int| 0 <= k < parents.len() && (#[trigger] parents[k]).author == i
}

/// Turns committed anchors into blocks.
pub struct ShoalppOrderNotifier {
    sent_to_commit_anchor_rounds: Vec<u64>,
    parent_timestamp: u64,
    num_validators: usize,
}

impl ShoalppOrderNotifier {
    pub closed spec fn rounds(&self) -> Seq<u64> {
        self.sent_to_commit_anchor_rounds@
    }

    pub closed spec fn parent_ts(&self) -> u64 {
        self.parent_timestamp
    }

    pub closed spec fn validators(&self) -> nat {
        self.num_validators as nat
    }

    /// All committed rounds at zero, after a parent block of the given
    /// timestamp.
    pub fn new(parent_timestamp: u64, num_validators: usize) -> (r: Self)
        ensures
            r.rounds() == seq![0u64, 0u64, 0u64],
            r.parent_ts() == parent_timestamp,
            r.validators() == num_validators,
    {
        let mut rounds: Vec<u64> = Vec::new();
        rounds.push(0);
        rounds.push(0);
        rounds.push(0);
        assert(rounds@ =~= seq![0u64, 0u64, 0u64]);
        ShoalppOrderNotifier { sent_to_commit_anchor_rounds: rounds, parent_timestamp, num_validators }
    }

    /// The last committed anchor round of each slot.
    pub fn committed_rounds(&self) -> (r: Vec<u64>)
        ensures
            r@ == self.rounds(),
    {
        copy_payload(&self.sent_to_commit_anchor_rounds)
    }

    pub fn parent_timestamp(&self) -> (r: u64)
        ensures
            r == self.parent_ts(),
    {
        self.parent_timestamp
    }

    /// The consensus data digest of the committed rounds.
    pub fn committed_anchors_to_hashvalue(&self) -> (r: Vec<u8>)
        ensures
            r@ == data_digest(self.rounds()),
    {
        let mut bytes: Vec<u8> = Vec::new();
        let mut i: usize = 0;
        while i < self.sent_to_commit_anchor_rounds.len()
            invariant
                i <= self.rounds().len(),
                bytes@ == rounds_bytes(self.rounds().take(i as int)),
            decreases self.rounds().len() - i,
        {
            let mut b = u64_le_bytes(self.sent_to_commit_anchor_rounds[i]);
            assert(self.rounds().take(i as int + 1).drop_last() =~= self.rounds().take(i as int));
            bytes.append(&mut b);
            i += 1;
        }
        assert(self.rounds().take(i as int) =~= self.rounds());
        let ghost before = bytes@;
        let mut k: usize = 0;
        while k < 8
            invariant
                k <= 8,
                bytes@ == before + Seq::new(k as nat, |i: int| 0u8),
            decreases 8 - k,
        {
            bytes.push(0);
            assert(bytes@ =~= before + Seq::new(k as nat + 1, |i: int| 0u8));
            k += 1;
        }
        bytes
    }

    /// Makes the block of instance `dag_id`'s newly committed anchor, the
    /// last of `ordered_nodes`: its round becomes the instance's committed
    /// round, the block round is the sum of all committed rounds, and the
    /// timestamp is the later of the anchor's and one past the parent
    /// block's.
    pub fn create_block(&mut self, dag_id: usize, ordered_nodes: &Vec<CertifiedNode>, failed_authors: Vec<(u64, usize)>) -> (r: OrderedBlock)
        requires
            ordered_nodes@.len() > 0,
            dag_id < old(self).rounds().len(),
            ordered_nodes@.last().metadata.round > old(self).rounds()[dag_id as int],
            old(self).parent_ts() < u64::MAX,
            sum_rounds(old(self).rounds().update(dag_id as int, ordered_nodes@.last().metadata.round))
                <= u64::MAX,
        ensures
            ({
                let anchor = ordered_nodes@.last().metadata;
                let rounds = old(self).rounds().update(dag_id as int, anchor.round);
                &&& final(self).rounds() == rounds
                &&& r.round == sum_rounds(rounds)
                &&& r.round > sum_rounds(old(self).rounds())
                &&& r.epoch == anchor.epoch
                &&& r.author == anchor.author
                &&& r.timestamp_usecs == if anchor.timestamp > old(self).parent_ts() + 1 {
                    anchor.timestamp
                } else {
                    (old(self).parent_ts() + 1) as u64
                }
                &&& final(self).parent_ts() == r.timestamp_usecs
                &&& final(self).validators() == old(self).validators()
                &&& r.payload@ == flat_payload(ordered_nodes@)
                &&& r.node_digests@ == ordered_nodes@.map_values(|n: CertifiedNode| n.metadata.digest)
                &&& r.parents_bitvec@.len() == old(self).validators()
                &&& forall|i: int|
                    0 <= i < r.parents_bitvec@.len() ==> #[trigger] r.parents_bitvec@[i] == has_parent_by(
                        ordered_nodes@.last().parents@,
                        i,
                    )
                &&& r.consensus_data_hash@ == data_digest(rounds)
                &&& r.failed_authors@ == failed_authors@
            }),
    {
        let last = ordered_nodes.len() - 1;
        let anchor = ordered_nodes[last].metadata;
        let ghost old_rounds = self.rounds();
        self.sent_to_commit_anchor_rounds.set(dag_id, anchor.round);
        proof {
            lemma_sum_update_grows(old_rounds, dag_id as int, anchor.round);
        }
        let block_round = self.sum_committed();
        let after_parent = self.parent_timestamp + 1;
        let timestamp = if anchor.timestamp > after_parent {
            anchor.timestamp
        } else {
            after_parent
        };
        let mut payload: Vec<u64> = Vec::new();
        let mut node_digests: Vec<HashValue> = Vec::new();
        let mut i: usize = 0;
        while i < ordered_nodes.len()
            invariant
                i <= ordered_nodes@.len(),
                payload@ == flat_payload(ordered_nodes@.take(i as int)),
                node_digests@ == ordered_nodes@.take(i as int).map_values(
                    |n: CertifiedNode| n.metadata.digest,
                ),
            decreases ordered_nodes@.len() - i,
        {
            assert(ordered_nodes@.take(i as int + 1).drop_last() =~= ordered_nodes@.take(i as int));
            let mut p = copy_payload(&ordered_nodes[i].payload);
            payload.append(&mut p);
            node_digests.push(ordered_nodes[i].metadata.digest);
            assert(node_digests@ =~= ordered_nodes@.take(i as int + 1).map_values(
                |n: CertifiedNode| n.metadata.digest,
            ));
            i += 1;
        }
        assert(ordered_nodes@.take(i as int) =~= ordered_nodes@);
        let parents_bitvec = parents_bits(&ordered_nodes[last].parents, self.num_validators);
        self.parent_timestamp = timestamp;
        let consensus_data_hash = self.committed_anchors_to_hashvalue();
        OrderedBlock {
            epoch: anchor.epoch,
            round: block_round,
            timestamp_usecs: timestamp,
            author: anchor.author,
            payload,
            node_digests,
            parents_bitvec,
            consensus_data_hash,
            failed_authors,
        }
    }

    fn sum_committed(&self) -> (r: u64)
        requires
            sum_rounds(self.rounds()) <= u64::MAX,
        ensures
            r == sum_rounds(self.rounds()),
    {
        let mut total: u64 = 0;
        let mut i: usize = 0;
        while i < self.sent_to_commit_anchor_rounds.len()
            invariant
                i <= self.rounds().len(),
                total == sum_rounds(self.rounds().take(i as int)),
                sum_rounds(self.rounds()) <= u64::MAX,
            decreases self.rounds().len() - i,
        {
            assert(self.rounds().take(i as int + 1).drop_last() =~= self.rounds().take(i as int));
            proof {
                lemma_sum_prefix_le(self.rounds(), i as int + 1);
            }
            total = total + self.sent_to_commit_anchor_rounds[i];
            i += 1;
        }
        assert(self.rounds().take(i as int) =~= self.rounds());
        total
    }
}

proof fn lemma_sum_prefix_le(s: Seq<u64>, k: int)
    requires
        0 <= k <= s.len(),
    ensures
        sum_rounds(s.take(k)) <= sum_rounds(s),
    decreases s.len(),
{
    if k < s.len() {
        lemma_sum_prefix_le(s.drop_last(), k);
        assert(s.drop_last().take(k) =~= s.take(k));
    } else {
        assert(s.take(k) =~= s);
    }
}

proof fn lemma_sum_update_grows(s: Seq<u64>, i: int, v: u64)
    requires
        0 <= i < s.len(),
        v > s[i],
    ensures
        sum_rounds(s.update(i, v)) == sum_rounds(s) + v - s[i],
    decreases s.len(),
{
    let t = s.update(i, v);
    if i < s.len() - 1 {
        lemma_sum_update_grows(s.drop_last(), i, v);
        assert(t.drop_last() =~= s.drop_last().update(i, v));
    } else {
        assert(t.drop_last() =~= s.drop_last());
    }
}

fn copy_payload(v: &Vec<u64>) -> (r: Vec<u64>)
    ensures
        r@ == v@,
{
    let mut out: Vec<u64> = Vec::new();
    let mut i: usize = 0;
    while i < v.len()
        invariant
            i <= v@.len(),
            out@ == v@.take(i as int),
        decreases v@.len() - i,
    {
        out.push(v[i]);
        assert(v@.take(i as int + 1) =~= v@.take(i as int).push(v@[i as int]));
        i += 1;
    }
    assert(v@.take(i as int) =~= v@);
    out
}

/// One flag per validator: whether it authored one of `parents`.
pub fn parents_bits(parents: &Vec<NodeMetadata>, num_validators: usize) -> (r: Vec<bool>)
    ensures
        r@.len() == num_validators,
        forall|i: int| 0 <= i < num_validators ==> #[trigger] r@[i] == has_parent_by(parents@, i),
{
    let mut bits: Vec<bool> = Vec::new();
    let mut i: usize = 0;
    while i < num_validators
        invariant
            i <= num_validators,
            bits@.len() == i,
            forall|j: int| 0 <= j < i ==> #[trigger] bits@[j] == false,
        decreases num_validators - i,
    {
        bits.push(false);
        i += 1;
    }
    let mut k: usize = 0;
    while k < parents.len()
        invariant
            k <= parents@.len(),
            bits@.len() == num_validators,
            forall|j: int|
                0 <= j < num_validators ==> #[trigger] bits@[j] == has_parent_by(parents@.take(k as int), j),
        decreases parents@.len() - k,
    {
        let a = parents[k].author;
        if a < num_validators {
            bits.set(a, true);
        }
        proof {
            let pre = parents@.take(k as int);
            let post = parents@.take(k as int + 1);
            assert forall|j: int| 0 <= j < num_validators implies #[trigger] bits@[j] == has_parent_by(post, j) by {
                if has_parent_by(pre, j) {
                    let w = choose|w: int| 0 <= w < pre.len() && (#[trigger] pre[w]).author == j;
                    assert(post[w] == pre[w]);
                }
                if j == a {
                    assert(post[k as int].author == j);
                } else if has_parent_by(post, j) {
                    let w = choose|w: int| 0 <= w < post.len() && (#[trigger] post[w]).author == j;
                    assert(pre[w] == post[w]);
                }
            }
        }
        k += 1;
    }
    assert(parents@.take(k as int) =~= parents@);
    bits
}

} // verus!

verus! {

/// Applies a commit decision: each DAG instance's store is pruned to the
/// committed round the decision carries for it.
pub fn apply_commit(dags: &mut Vec<DagStore>, committed_rounds: &Vec<u64>)
    requires
        forall|i: int| 0 <= i < old(dags)@.len() ==> (#[trigger] old(dags)@[i]).wf(),
        committed_rounds@.len() >= old(dags)@.len(),
    ensures
        final(dags)@.len() == old(dags)@.len(),
        forall|i: int|
            0 <= i < final(dags)@.len() ==> (#[trigger] final(dags)@[i]).wf() && final(dags)@[i].nodes() == retained(
                old(dags)@[i].nodes(),
                old(dags)@[i].pruned_lowest(committed_rounds@[i]),
            ) && final(dags)@[i].lowest() == old(dags)@[i].pruned_lowest(committed_rounds@[i])
                && final(dags)@[i].window() == old(dags)@[i].window(),
        forall|i: int, j: int|
            0 <= i < final(dags)@.len() && 0 <= j < final(dags)@[i].nodes().len() ==> (#[trigger] final(dags)@[i].nodes()[j]).round
                > committed_rounds@[i] - old(dags)@[i].window(),
{
    let n = dags.len();
    let mut i: usize = 0;
    while i < n
        invariant
            n == dags@.len(),
            n == old(dags)@.len(),
            committed_rounds@.len() >= n,
            i <= n,
            forall|k: int| i <= k < n ==> #[trigger] dags@[k] == old(dags)@[k],
            forall|k: int|
                0 <= k < i ==> (#[trigger] dags@[k]).wf() && dags@[k].nodes() == retained(
                    old(dags)@[k].nodes(),
                    old(dags)@[k].pruned_lowest(committed_rounds@[k]),
                ) && dags@[k].lowest() == old(dags)@[k].pruned_lowest(committed_rounds@[k])
                    && dags@[k].window() == old(dags)@[k].window(),
            forall|k: int| 0 <= k < n ==> (#[trigger] old(dags)@[k]).wf(),
            forall|k: int, j: int|
                0 <= k < i && 0 <= j < dags@[k].nodes().len() ==> (#[trigger] dags@[k].nodes()[j]).round
                    > committed_rounds@[k] - old(dags)@[k].window(),
        decreases n - i,
    {
        let round = committed_rounds[i];
        assert(dags@[i as int] == old(dags)@[i as int]);
        dags[i].commit_callback(round);
        proof {
            crate::dag_store::lemma_pruning_bound(&old(dags)@[i as int], round, &dags@[i as int]);
        }
        i += 1;
    }
}

} // verus!
