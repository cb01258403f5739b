//! The certificate DAG: certified nodes keyed by round and author, with a
//! sliding window of retained rounds.

use vstd::prelude::*;
use crate::types::HashValue;

verus! {

/// What identifies a node: epoch, round, author (an index into the
/// validator set), its timestamp and content digest.
#[derive(Clone, Copy, Debug)]
pub struct NodeMetadata {
    pub epoch: u64,
    pub round: u64,
    pub author: usize,
    pub timestamp: u64,
    pub digest: HashValue,
}

/// A node with a quorum certificate: its metadata, the metadata of its
/// parents, and its payload (transaction ids).
#[derive(Clone, Debug)]
pub struct CertifiedNode {
    pub metadata: NodeMetadata,
    pub parents: Vec<NodeMetadata>,
    pub payload: Vec<u64>,
}

/// Why the store refuses a node.
#[derive(Clone, Copy, Debug, Eq, PartialEq)]
pub enum DagError {
    /// Its round is below the lowest retained round.
    Stale,
    /// Its author is not in the validator set.
    UnknownAuthor,
    /// A parent is not from the previous round.
    InvalidParents,
    /// A parent above the retained window is not in the store.
    MissingParents,
    /// A node of the same round and author is already held.
    Duplicate,
}

/// Two metadata refer to the same node.
pub open spec fn same_node(a: NodeMetadata, b: NodeMetadata) -> bool {
    a.round == b.round && a.author == b.author && a.digest.bytes@ == b.digest.bytes@
}

/// Some node of `s` is `m`.
pub open spec fn contains_node(s: Seq<NodeMetadata>, m: NodeMetadata) -> bool {
    exists|i: int| 0 <= i < s.len() && same_node(#[trigger] s[i], m)
}

/// Voting power of the authors of the nodes of `s` at `round`.
pub open spec fn stake_at(s: Seq<NodeMetadata>, power: Seq<u64>, round: u64) -> nat
    decreases s.len(),
{
    if s.len() == 0 {
        0
    } else {
        stake_at(s.drop_last(), power, round) + if s.last().round == round && s.last().author < power.len() {
            power[s.last().author as int] as nat
        } else {
            0nat
        }
    }
}

/// Total voting power.
pub open spec fn total_power(power: Seq<u64>) -> nat
    decreases power.len(),
{
    if power.len() == 0 {
        0
    } else {
        total_power(power.drop_last()) + power.last() as nat
    }
}

/// Voting power needed for a quorum: more than two thirds of `total`.
pub open spec fn quorum(total: nat) -> nat {
    total * 2 / 3 + 1
}

/// The metadata of the nodes of `s` at `round`, in store order.
pub open spec fn nodes_at(s: Seq<NodeMetadata>, round: u64) -> Seq<NodeMetadata> {
    s.filter(|m: NodeMetadata| m.round == round)
}

/// The certificate DAG, with each validator's voting power.
pub struct DagStore {
    nodes: Vec<NodeMetadata>,
    parents: Vec<Vec<NodeMetadata>>,
    payloads: Vec<Vec<u64>>,
    lowest_round: u64,
    window_size: u64,
    voting_power: Vec<u64>,
}

impl DagStore {
    pub closed spec fn nodes(&self) -> Seq<NodeMetadata> {
        self.nodes@
    }

    pub closed spec fn parents_of(&self, i: int) -> Seq<NodeMetadata> {
        self.parents@[i]@
    }

    /// The payload of the node at store index `i`.
    pub closed spec fn payload_of(&self, i: int) -> Seq<u64> {
        self.payloads@[i]@
    }

    pub closed spec fn payloads_len(&self) -> nat {
        self.payloads@.len()
    }

    pub closed spec fn lowest(&self) -> u64 {
        self.lowest_round
    }

    pub closed spec fn window(&self) -> u64 {
        self.window_size
    }

    pub closed spec fn validators(&self) -> nat {
        self.voting_power@.len()
    }

    /// Each validator's voting power, by author index.
    pub closed spec fn power(&self) -> Seq<u64> {
        self.voting_power@
    }

    pub closed spec fn parents_len(&self) -> nat {
        self.parents@.len()
    }

    /// At most one node per round and author.
    pub open spec fn unique_round_author(&self) -> bool {
        forall|i: int, j: int|
            0 <= i < self.nodes().len() && 0 <= j < self.nodes().len() && i != j ==> !(
            #[trigger] self.nodes()[i].round == #[trigger] self.nodes()[j].round && self.nodes()[i].author
                == self.nodes()[j].author)
    }

    pub open spec fn wf(&self) -> bool {
        &&& self.parents_len() == self.nodes().len()
        &&& self.payloads_len() == self.nodes().len()
        &&& self.unique_round_author()
        &&& forall|i: int|
            0 <= i < self.nodes().len() ==> #[trigger] self.nodes()[i].round >= self.lowest()
                && self.nodes()[i].author < self.validators()
        &&& forall|i: int, k: int|
            0 <= i < self.nodes().len() && 0 <= k < self.parents_of(i).len() ==> #[trigger] self.parents_of(
                i,
            )[k].round + 1 == self.nodes()[i].round
        &&& forall|i: int, k: int|
            0 <= i < self.nodes().len() && 0 <= k < self.parents_of(i).len() && self.nodes()[i].round
                > self.lowest() ==> contains_node(self.nodes(), #[trigger] self.parents_of(i)[k])
        &&& self.lowest() >= 1
        &&& self.window() >= 1
    }

    /// An empty store whose window, of `window_size` rounds (at least 1),
    /// starts at `start_round` (at least 1).
    pub fn new(voting_power: Vec<u64>, window_size: u64, start_round: u64) -> (r: Self)
        requires
            start_round >= 1,
            window_size >= 1,
        ensures
            r.wf(),
            r.nodes() == Seq::<NodeMetadata>::empty(),
            r.lowest() == start_round,
            r.window() == window_size,
            r.power() == voting_power@,
    {
        DagStore {
            nodes: Vec::new(),
            parents: Vec::new(),
            payloads: Vec::new(),
            lowest_round: start_round,
            window_size,
            voting_power,
        }
    }

    pub fn lowest_round(&self) -> (r: u64)
        ensures
            r == self.lowest(),
    {
        self.lowest_round
    }

    pub fn is_empty(&self) -> (r: bool)
        ensures
            r == (self.nodes().len() == 0),
    {
        self.nodes.len() == 0
    }

    /// Whether the node is held.
    pub fn has_node(&self, m: &NodeMetadata) -> (r: bool)
        ensures
            r == contains_node(self.nodes(), *m),
    {
        let mut i: usize = 0;
        while i < self.nodes.len()
            invariant
                i <= self.nodes@.len(),
                forall|j: int| 0 <= j < i ==> !same_node(#[trigger] self.nodes@[j], *m),
            decreases self.nodes@.len() - i,
        {
            let n = self.nodes[i];
            if n.round == m.round && n.author == m.author && matches!(
                crate::types::compare_bytes(&n.digest.bytes, &m.digest.bytes),
                core::cmp::Ordering::Equal
            ) {
                proof {
                    crate::types::lemma_lex_cmp_equal(n.digest.bytes@, m.digest.bytes@);
                }
                assert(same_node(self.nodes@[i as int], *m));
                return true;
            }
            proof {
                crate::types::lemma_lex_cmp_equal(n.digest.bytes@, m.digest.bytes@);
            }
            i += 1;
        }
        false
    }

    /// Whether every listed node is held.
    pub fn all_exists(&self, ms: &Vec<NodeMetadata>) -> (r: bool)
        ensures
            r == forall|k: int| 0 <= k < ms@.len() ==> contains_node(self.nodes(), #[trigger] ms@[k]),
    {
        let mut k: usize = 0;
        while k < ms.len()
            invariant
                k <= ms@.len(),
                forall|j: int| 0 <= j < k ==> contains_node(self.nodes(), #[trigger] ms@[j]),
            decreases ms@.len() - k,
        {
            if !self.has_node(&ms[k]) {
                return false;
            }
            k += 1;
        }
        true
    }

    /// Whether a node of this round and author is held.
    pub fn has_round_author(&self, round: u64, author: usize) -> (r: bool)
        ensures
            r == exists|i: int|
                0 <= i < self.nodes().len() && (#[trigger] self.nodes()[i]).round == round
                    && self.nodes()[i].author == author,
    {
        let mut i: usize = 0;
        while i < self.nodes.len()
            invariant
                i <= self.nodes@.len(),
                forall|j: int|
                    0 <= j < i ==> !((#[trigger] self.nodes@[j]).round == round && self.nodes@[j].author == author),
            decreases self.nodes@.len() - i,
        {
            if self.nodes[i].round == round && self.nodes[i].author == author {
                assert(self.nodes()[i as int].round == round);
                return true;
            }
            i += 1;
        }
        false
    }

    /// Inserts a certified node. Refused when its round is below the window,
    /// its author unknown, a parent not from the previous round, a parent
    /// missing (above the window's lowest round), or its round and author
    /// already taken; checked in that order.
    pub fn add_node(&mut self, node: CertifiedNode) -> (r: Result<(), DagError>)
        requires
            old(self).wf(),
        ensures
            final(self).wf(),
            final(self).lowest() == old(self).lowest(),
            final(self).window() == old(self).window(),
            final(self).validators() == old(self).validators(),
            node.metadata.round < old(self).lowest() ==> r == Err::<(), DagError>(DagError::Stale),
            node.metadata.round >= old(self).lowest() && node.metadata.author >= old(self).validators()
                ==> r == Err::<(), DagError>(DagError::UnknownAuthor),
            node.metadata.round >= old(self).lowest() && node.metadata.author < old(self).validators()
                && !parents_from_previous_round(node.parents@, node.metadata.round) ==> r == Err::<
                (),
                DagError,
            >(DagError::InvalidParents),
            node.metadata.round >= old(self).lowest() && node.metadata.author < old(self).validators()
                && parents_from_previous_round(node.parents@, node.metadata.round)
                && node.metadata.round > old(self).lowest() && !(forall|k: int|
                0 <= k < node.parents@.len() ==> contains_node(old(self).nodes(), #[trigger] node.parents@[k]))
                ==> r == Err::<(), DagError>(DagError::MissingParents),
            r is Ok ==> final(self).nodes() == old(self).nodes().push(node.metadata),
            r is Ok ==> final(self).payload_of(old(self).nodes().len() as int) == node.payload@,
            r is Ok ==> forall|i: int|
                0 <= i < old(self).nodes().len() ==> #[trigger] final(self).payload_of(i) == old(self).payload_of(i),
            r is Err ==> *final(self) == *old(self),
            node.metadata.round >= old(self).lowest() && node.metadata.author < old(self).validators()
                && parents_from_previous_round(node.parents@, node.metadata.round) && (node.metadata.round
                > old(self).lowest() ==> forall|k: int|
                0 <= k < node.parents@.len() ==> contains_node(old(self).nodes(), #[trigger] node.parents@[k]))
                && (exists|i: int|
                0 <= i < old(self).nodes().len() && (#[trigger] old(self).nodes()[i]).round
                    == node.metadata.round && old(self).nodes()[i].author == node.metadata.author) ==> r
                == Err::<(), DagError>(DagError::Duplicate),
            r == Err::<(), DagError>(DagError::Duplicate) ==> exists|i: int|
                0 <= i < old(self).nodes().len() && (#[trigger] old(self).nodes()[i]).round
                    == node.metadata.round && old(self).nodes()[i].author == node.metadata.author,
            r is Ok <==> (node.metadata.round >= old(self).lowest() && node.metadata.author < old(
                self,
            ).validators() && parents_from_previous_round(node.parents@, node.metadata.round) && (
            node.metadata.round > old(self).lowest() ==> forall|k: int|
                0 <= k < node.parents@.len() ==> contains_node(old(self).nodes(), #[trigger] node.parents@[k]))
                && !exists|i: int|
                0 <= i < old(self).nodes().len() && (#[trigger] old(self).nodes()[i]).round
                    == node.metadata.round && old(self).nodes()[i].author == node.metadata.author),
    {
        let m = node.metadata;
        if m.round < self.lowest_round {
            return Err(DagError::Stale);
        }
        if m.author >= self.voting_power.len() {
            return Err(DagError::UnknownAuthor);
        }
        if !check_parents(&node.parents, m.round) {
            return Err(DagError::InvalidParents);
        }
        if m.round > self.lowest_round && !self.all_exists(&node.parents) {
            return Err(DagError::MissingParents);
        }
        if self.has_round_author(m.round, m.author) {
            return Err(DagError::Duplicate);
        }
        let ghost old_nodes = self.nodes@;
        self.nodes.push(m);
        self.parents.push(node.parents);
        self.payloads.push(node.payload);
        proof {
            let s = self.nodes@;
            assert forall|i: int, k: int|
                0 <= i < s.len() && 0 <= k < self.parents_of(i).len() && s[i].round > self.lowest()
                    implies contains_node(s, #[trigger] self.parents_of(i)[k]) by {
                let p = self.parents_of(i)[k];
                if i < old_nodes.len() {
                    assert(self.parents_of(i) == old(self).parents_of(i));
                    assert(contains_node(old_nodes, p));
                } else {
                    assert(contains_node(old_nodes, node.parents@[k]));
                }
                let w = choose|w: int| 0 <= w < old_nodes.len() && same_node(#[trigger] old_nodes[w], p);
                assert(same_node(s[w], p));
            }
            assert forall|i: int, k: int|
                0 <= i < s.len() && 0 <= k < self.parents_of(i).len() implies #[trigger] self.parents_of(i)[k].round
                + 1 == s[i].round by {
                if i < old_nodes.len() {
                    assert(self.parents_of(i) == old(self).parents_of(i));
                }
            }
        }
        Ok(())
    }

    /// Voting power of the authors of the held nodes at `round`.
    pub fn stake_round(&self, round: u64) -> (r: u128)
        ensures
            r == stake_at(self.nodes(), self.power(), round),
    {
        let mut c: u128 = 0;
        let mut i: usize = 0;
        while i < self.nodes.len()
            invariant
                i <= self.nodes@.len(),
                c == stake_at(self.nodes@.take(i as int), self.voting_power@, round),
                c <= i * 0xffff_ffff_ffff_ffffnat,
            decreases self.nodes@.len() - i,
        {
            assert(self.nodes@.take(i as int + 1).drop_last() =~= self.nodes@.take(i as int));
            let n = self.nodes[i];
            if n.round == round && n.author < self.voting_power.len() {
                let p = self.voting_power[n.author];
                assert(c + p <= (i + 1) * 0xffff_ffff_ffff_ffffnat) by (nonlinear_arith)
                    requires c <= i * 0xffff_ffff_ffff_ffffnat, p <= 0xffff_ffff_ffff_ffffnat;
                assert((i + 1) * 0xffff_ffff_ffff_ffffnat <= 0xffff_ffff_ffff_ffff_ffff_ffff_ffff_ffffnat) by (nonlinear_arith)
                    requires i < 0xffff_ffff_ffff_ffffnat;
                c = c + p as u128;
            } else {
                assert(c <= (i + 1) * 0xffff_ffff_ffff_ffffnat) by (nonlinear_arith)
                    requires c <= i * 0xffff_ffff_ffff_ffffnat;
            }
            i += 1;
        }
        assert(self.nodes@.take(i as int) =~= self.nodes@);
        c
    }

    /// The voting power a quorum needs.
    pub fn quorum_power(&self) -> (r: u128)
        ensures
            r == quorum(total_power(self.power())),
    {
        let mut t: u128 = 0;
        let mut i: usize = 0;
        while i < self.voting_power.len()
            invariant
                i <= self.voting_power@.len(),
                t == total_power(self.voting_power@.take(i as int)),
                t <= i * 0xffff_ffff_ffff_ffffnat,
            decreases self.voting_power@.len() - i,
        {
            assert(self.voting_power@.take(i as int + 1).drop_last() =~= self.voting_power@.take(i as int));
            let p = self.voting_power[i];
            assert(t + p <= (i + 1) * 0xffff_ffff_ffff_ffffnat) by (nonlinear_arith)
                requires t <= i * 0xffff_ffff_ffff_ffffnat, p <= 0xffff_ffff_ffff_ffffnat;
            assert((i + 1) * 0xffff_ffff_ffff_ffffnat <= 0xffff_ffff_ffff_ffff_ffff_ffff_ffff_ffffnat) by (nonlinear_arith)
                requires i < 0xffff_ffff_ffff_ffffnat;
            t = t + p as u128;
            i += 1;
        }
        assert(self.voting_power@.take(i as int) =~= self.voting_power@);
        let q = t / 3 * 2 + (t % 3) * 2 / 3 + 1;
        assert(q == quorum(t as nat)) by (nonlinear_arith)
            requires q == t / 3 * 2 + (t % 3) * 2 / 3 + 1;
        q
    }

    /// Whether the nodes at `round` reach a quorum of voting power.
    pub open spec fn has_strong_links(&self, round: u64) -> bool {
        stake_at(self.nodes(), self.power(), round) >= quorum(total_power(self.power()))
    }

    /// The highest round whose nodes reach a quorum; when there is none, the
    /// round just below the window.
    pub open spec fn spec_highest_strong_links_round(&self, r: u64) -> bool {
        ||| (exists|i: int|
            0 <= i < self.nodes().len() && self.has_strong_links(#[trigger] self.nodes()[i].round)
                && self.nodes()[i].round == r) && forall|j: int|
            0 <= j < self.nodes().len() && self.has_strong_links(#[trigger] self.nodes()[j].round)
                ==> self.nodes()[j].round <= r
        ||| (forall|j: int|
            0 <= j < self.nodes().len() ==> !self.has_strong_links(#[trigger] self.nodes()[j].round))
            && r == self.lowest() - 1
    }

    pub fn highest_strong_links_round(&self) -> (r: u64)
        requires
            self.wf(),
        ensures
            self.spec_highest_strong_links_round(r),
            r + 1 >= self.lowest(),
    {
        let q = self.quorum_power();
        let mut best: Option<u64> = None;
        let mut i: usize = 0;
        while i < self.nodes.len()
            invariant
                self.wf(),
                q == quorum(total_power(self.power())),
                i <= self.nodes@.len(),
                best is Some ==> (exists|k: int|
                    0 <= k < i && self.has_strong_links(#[trigger] self.nodes()[k].round)
                        && self.nodes()[k].round == best->0),
                forall|j: int|
                    0 <= j < i && self.has_strong_links(#[trigger] self.nodes()[j].round) ==> best is Some
                        && self.nodes()[j].round <= best->0,
            decreases self.nodes@.len() - i,
        {
            let round = self.nodes[i].round;
            if self.stake_round(round) >= q {
                match best {
                    Some(b) => {
                        if round > b {
                            best = Some(round);
                        }
                    },
                    None => {
                        best = Some(round);
                    },
                }
            }
            i += 1;
        }
        match best {
            Some(b) => {
                proof {
                    let k = choose|k: int|
                        0 <= k < self.nodes().len() && self.has_strong_links(#[trigger] self.nodes()[k].round)
                            && self.nodes()[k].round == b;
                    assert(self.nodes()[k].round >= self.lowest());
                }
                b
            },
            None => self.lowest_round - 1,
        }
    }

    /// At most one round answers `spec_highest_strong_links_round`.
    pub proof fn lemma_highest_unique(&self, h: u64)
        requires
            self.spec_highest_strong_links_round(h),
            self.wf(),
        ensures
            forall|g: u64| self.spec_highest_strong_links_round(g) ==> g == h,
            h + 1 >= self.lowest(),
    {
        assert forall|g: u64| self.spec_highest_strong_links_round(g) implies g == h by {
            if exists|i: int|
                0 <= i < self.nodes().len() && self.has_strong_links(#[trigger] self.nodes()[i].round) {
                let i = choose|i: int|
                    0 <= i < self.nodes().len() && self.has_strong_links(#[trigger] self.nodes()[i].round);
                assert(self.has_strong_links(self.nodes()[i].round));
            }
        }
        if exists|i: int|
            0 <= i < self.nodes().len() && self.has_strong_links(#[trigger] self.nodes()[i].round) {
            let i = choose|i: int|
                0 <= i < self.nodes().len() && self.has_strong_links(#[trigger] self.nodes()[i].round)
                    && self.nodes()[i].round == h;
            assert(self.nodes()[i].round >= self.lowest());
        }
    }

    /// The nodes at `round` when they reach a quorum.
    pub fn get_strong_links_for_round(&self, round: u64) -> (r: Option<Vec<NodeMetadata>>)
        ensures
            r is Some <==> self.has_strong_links(round),
            r is Some ==> r->0@ == nodes_at(self.nodes(), round),
    {
        let q = self.quorum_power();
        if self.stake_round(round) < q {
            return None;
        }
        let mut out: Vec<NodeMetadata> = Vec::new();
        let mut i: usize = 0;
        while i < self.nodes.len()
            invariant
                i <= self.nodes@.len(),
                out@ == nodes_at(self.nodes@.take(i as int), round),
            decreases self.nodes@.len() - i,
        {
            proof {
                reveal(Seq::filter);
                assert(self.nodes@.take(i as int + 1).drop_last() =~= self.nodes@.take(i as int));
            }
            if self.nodes[i].round == round {
                out.push(self.nodes[i]);
            }
            i += 1;
        }
        assert(self.nodes@.take(i as int) =~= self.nodes@);
        Some(out)
    }

    /// The lowest round kept after committing `round`: rounds at or below
    /// `round - window` leave.
    pub open spec fn pruned_lowest(&self, round: u64) -> u64 {
        if round > self.window() && round - self.window() + 1 > self.lowest() {
            (round - self.window() + 1) as u64
        } else {
            self.lowest()
        }
    }

    /// Drops every node at or below `round - window`.
    pub fn commit_callback(&mut self, round: u64)
        requires
            old(self).wf(),
        ensures
            final(self).wf(),
            final(self).lowest() == old(self).pruned_lowest(round),
            final(self).window() == old(self).window(),
            final(self).validators() == old(self).validators(),
            final(self).nodes() == retained(old(self).nodes(), old(self).pruned_lowest(round)),
    {
        let ghost low = self.pruned_lowest(round);
        let new_lowest = if round > self.window_size && round - self.window_size >= self.lowest_round {
            round - self.window_size + 1
        } else {
            self.lowest_round
        };
        let mut nodes: Vec<NodeMetadata> = Vec::new();
        let mut parents: Vec<Vec<NodeMetadata>> = Vec::new();
        let mut payloads: Vec<Vec<u64>> = Vec::new();
        let ghost on = self.nodes@;
        let ghost idx: Seq<int> = Seq::empty();
        let mut i: usize = 0;
        while i < self.nodes.len()
            invariant
                self.wf(),
                new_lowest == low,
                low >= self.lowest(),
                on == self.nodes(),
                i <= on.len(),
                nodes@ == retained(on.take(i as int), low),
                nodes@.len() == parents@.len(),
                nodes@.len() == payloads@.len(),
                idx.len() == nodes@.len(),
                forall|a: int, b: int| 0 <= a < b < idx.len() ==> idx[a] < idx[b],
                forall|a: int|
                    0 <= a < idx.len() ==> 0 <= #[trigger] idx[a] < i && nodes@[a] == on[idx[a]]
                        && parents@[a]@ == self.parents_of(idx[a]) && payloads@[a]@ == self.payload_of(idx[a]),
                forall|w: int|
                    0 <= w < i && (#[trigger] on[w]).round >= low ==> exists|a: int|
                        0 <= a < idx.len() && idx[a] == w,
            decreases on.len() - i,
        {
            proof {
                reveal(Seq::filter);
                assert(on.take(i as int + 1).drop_last() =~= on.take(i as int));
            }
            if self.nodes[i].round >= new_lowest {
                nodes.push(self.nodes[i]);
                parents.push(copy_metadata(&self.parents[i]));
                payloads.push(copy_ids(&self.payloads[i]));
                proof {
                    let old_idx = idx;
                    idx = idx.push(i as int);
                    assert forall|w: int|
                        0 <= w < i + 1 && (#[trigger] on[w]).round >= low implies exists|a: int|
                            0 <= a < idx.len() && idx[a] == w by {
                        if w < i {
                            let a = choose|a: int| 0 <= a < old_idx.len() && old_idx[a] == w;
                            assert(idx[a] == w);
                        } else {
                            assert(idx[idx.len() - 1] == w);
                        }
                    }
                }
            }
            i += 1;
        }
        proof {
            assert(on.take(on.len() as int) =~= on);
            let s = nodes@;
            assert forall|a: int, b: int|
                0 <= a < s.len() && 0 <= b < s.len() && a != b implies !(#[trigger] s[a].round
                == #[trigger] s[b].round && s[a].author == s[b].author) by {
                assert(idx[a] != idx[b]);
            }
            assert forall|a: int, k: int|
                0 <= a < s.len() && 0 <= k < parents@[a]@.len() && s[a].round > low implies contains_node(
                s,
                #[trigger] parents@[a]@[k],
            ) by {
                let pm = parents@[a]@[k];
                assert(pm == self.parents_of(idx[a])[k]);
                let w = choose|w: int| 0 <= w < on.len() && same_node(#[trigger] on[w], pm);
                let b = choose|b: int| 0 <= b < idx.len() && idx[b] == w;
                assert(same_node(s[b], pm));
            }
            assert forall|a: int| 0 <= a < s.len() implies #[trigger] s[a].round >= low && s[a].author
                < self.validators() by {
                assert(s[a] == on[idx[a]]);
                assert(self.nodes()[idx[a]].round >= self.lowest());
            }
        }
        self.nodes = nodes;
        self.parents = parents;
        self.payloads = payloads;
        self.lowest_round = new_lowest;
        proof {
            assert forall|a: int, k: int|
                0 <= a < self.nodes().len() && 0 <= k < self.parents_of(a).len() && self.nodes()[a].round
                    > self.lowest() implies contains_node(self.nodes(), #[trigger] self.parents_of(a)[k]) by {
                assert(self.parents_of(a) == parents@[a]@);
            }
            assert forall|a: int, k: int|
                0 <= a < self.nodes().len() && 0 <= k < self.parents_of(a).len() implies #[trigger] self.parents_of(
                a,
            )[k].round + 1 == self.nodes()[a].round by {
                assert(self.parents_of(a) == parents@[a]@);
                assert(old(self).parents_of(idx[a]) == parents@[a]@);
            }
        }
    }
}

/// The nodes of `s` at or above round `low`.
pub open spec fn retained(s: Seq<NodeMetadata>, low: u64) -> Seq<NodeMetadata> {
    s.filter(|m: NodeMetadata| m.round >= low)
}

fn copy_ids(v: &Vec<u64>) -> (r: Vec<u64>)
    ensures
        r@ == v@,
{
    let mut out: Vec<u64> = Vec::new();
    let mut i: usize = 0;
    while i < v.len()
        invariant
            i <= v@.len(),
            out@ == v@.take(i as int),
        decreases v@.len() - i,
    {
        out.push(v[i]);
        assert(v@.take(i as int + 1) =~= v@.take(i as int).push(v@[i as int]));
        i += 1;
    }
    assert(v@.take(i as int) =~= v@);
    out
}

fn copy_metadata(v: &Vec<NodeMetadata>) -> (r: Vec<NodeMetadata>)
    ensures
        r@ == v@,
{
    let mut out: Vec<NodeMetadata> = Vec::new();
    let mut i: usize = 0;
    while i < v.len()
        invariant
            i <= v@.len(),
            out@ == v@.take(i as int),
        decreases v@.len() - i,
    {
        out.push(v[i]);
        assert(v@.take(i as int + 1) =~= v@.take(i as int).push(v@[i as int]));
        i += 1;
    }
    assert(v@.take(i as int) =~= v@);
    out
}

fn check_parents(parents: &Vec<NodeMetadata>, round: u64) -> (r: bool)
    ensures
        r == parents_from_previous_round(parents@, round),
{
    let mut k: usize = 0;
    while k < parents.len()
        invariant
            k <= parents@.len(),
            forall|j: int| 0 <= j < k ==> (#[trigger] parents@[j]).round + 1 == round,
        decreases parents@.len() - k,
    {
        if parents[k].round >= round || parents[k].round + 1 != round {
            return false;
        }
        k += 1;
    }
    true
}

/// Every parent is from the round before `round`.
pub open spec fn parents_from_previous_round(parents: Seq<NodeMetadata>, round: u64) -> bool {
    forall|k: int| 0 <= k < parents.len() ==> (#[trigger] parents[k]).round + 1 == round
}

} // verus!

verus! {

/// The store never holds two nodes of the same round and author.
pub proof fn lemma_dag_uniqueness(store: &DagStore, i: int, j: int)
    requires
        store.wf(),
        0 <= i < store.nodes().len(),
        0 <= j < store.nodes().len(),
        store.nodes()[i].round == store.nodes()[j].round,
        store.nodes()[i].author == store.nodes()[j].author,
    ensures
        i == j,
{
}

/// After committing round `r`, no node of round `r - window` or below is
/// left in the store.
pub proof fn lemma_pruning_bound(before: &DagStore, r: u64, after: &DagStore)
    requires
        before.wf(),
        after.nodes() == retained(before.nodes(), before.pruned_lowest(r)),
    ensures
        forall|i: int| 0 <= i < after.nodes().len() ==> #[trigger] after.nodes()[i].round > r - before.window(),
{
    let low = before.pruned_lowest(r);
    assert forall|i: int| 0 <= i < after.nodes().len() implies #[trigger] after.nodes()[i].round > r - before.window() by {
        let p = |m: NodeMetadata| m.round >= low;
        before.nodes().filter_lemma(p);
        assert(after.nodes()[i].round >= low);
    }
}

} // verus!

verus! {

/// The payloads of the nodes at store indices `idxs`, one after the other.
pub open spec fn joined_payloads(store: DagStore, idxs: Seq<usize>) -> Seq<u64>
    decreases idxs.len(),
{
    if idxs.len() == 0 {
        Seq::empty()
    } else {
        joined_payloads(store, idxs.drop_last()) + store.payload_of(idxs.last() as int)
    }
}

/// Number of `true` flags.
pub open spec fn count_true(s: Seq<bool>) -> int
    decreases s.len(),
{
    if s.len() == 0 {
        0
    } else {
        count_true(s.drop_last()) + if s.last() {
            1int
        } else {
            0int
        }
    }
}

proof fn lemma_count_true_bounds(s: Seq<bool>)
    ensures
        0 <= count_true(s) <= s.len(),
    decreases s.len(),
{
    if s.len() > 0 {
        lemma_count_true_bounds(s.drop_last());
    }
}

proof fn lemma_count_true_set(s: Seq<bool>, i: int)
    requires
        0 <= i < s.len(),
        !s[i],
    ensures
        count_true(s.update(i, true)) == count_true(s) + 1,
    decreases s.len(),
{
    if i < s.len() - 1 {
        lemma_count_true_set(s.drop_last(), i);
        assert(s.update(i, true).drop_last() =~= s.drop_last().update(i, true));
    } else {
        assert(s.update(i, true).drop_last() =~= s.drop_last());
    }
}

/// Store index `j` holds `m` itself.
pub open spec fn at_index(store: DagStore, j: int, m: NodeMetadata) -> bool {
    0 <= j < store.nodes().len() && same_node(store.nodes()[j], m)
}

/// Node `a` (a store index) is a parent, held in the store, of node `b`.
pub open spec fn parent_edge(store: DagStore, b: int, a: int) -> bool {
    0 <= b < store.nodes().len() && 0 <= a < store.nodes().len() && exists|k: int|
        0 <= k < store.parents_of(b).len() && same_node(#[trigger] store.parents_of(b)[k], store.nodes()[a])
}

impl DagStore {
    /// The node at store index `i`.
    pub fn node_at(&self, i: usize) -> (r: NodeMetadata)
        requires
            i < self.nodes().len(),
        ensures
            r == self.nodes()[i as int],
    {
        self.nodes[i]
    }

    /// The payloads of the nodes at the given store indices, one after the
    /// other.
    pub fn payloads_of(&self, idxs: &Vec<usize>) -> (r: Vec<u64>)
        requires
            self.wf(),
            forall|i: int| 0 <= i < idxs@.len() ==> (#[trigger] idxs@[i]) < self.nodes().len(),
        ensures
            r@ == joined_payloads(*self, idxs@),
    {
        let mut out: Vec<u64> = Vec::new();
        let mut i: usize = 0;
        while i < idxs.len()
            invariant
                self.wf(),
                forall|q: int| 0 <= q < idxs@.len() ==> (#[trigger] idxs@[q]) < self.nodes().len(),
                i <= idxs@.len(),
                out@ == joined_payloads(*self, idxs@.take(i as int)),
            decreases idxs@.len() - i,
        {
            assert(idxs@.take(i as int + 1).drop_last() =~= idxs@.take(i as int));
            let mut more = copy_ids(&self.payloads[idxs[i]]);
            out.append(&mut more);
            i += 1;
        }
        assert(idxs@.take(i as int) =~= idxs@);
        out
    }

    /// The store index of `m`, if held.
    pub fn index_of(&self, m: &NodeMetadata) -> (r: Option<usize>)
        requires
            self.wf(),
        ensures
            r is Some ==> at_index(*self, r->0 as int, *m),
            r is None ==> !contains_node(self.nodes(), *m),
    {
        let mut i: usize = 0;
        while i < self.nodes.len()
            invariant
                i <= self.nodes@.len(),
                forall|j: int| 0 <= j < i ==> !same_node(#[trigger] self.nodes@[j], *m),
            decreases self.nodes@.len() - i,
        {
            let n = self.nodes[i];
            proof {
                crate::types::lemma_lex_cmp_equal(n.digest.bytes@, m.digest.bytes@);
            }
            if n.round == m.round && n.author == m.author && matches!(
                crate::types::compare_bytes(&n.digest.bytes, &m.digest.bytes),
                core::cmp::Ordering::Equal
            ) {
                return Some(i);
            }
            i += 1;
        }
        None
    }

    /// The held nodes reachable from the held nodes of `from` along parent
    /// edges without going below `until_round`, each once: every start is
    /// included, every later node is a parent of an earlier one, and every
    /// held parent at or above `until_round` of an included node is
    /// included.
    pub fn reachable(&self, from: &Vec<NodeMetadata>, until_round: u64) -> (r: Vec<usize>)
        requires
            self.wf(),
        ensures
            is_causal_history(*self, from@, until_round, r@),
    {
        let n = self.nodes.len();
        let mut visited: Vec<bool> = Vec::new();
        let mut z: usize = 0;
        while z < n
            invariant
                z <= n,
                n == self.nodes@.len(),
                visited@.len() == z,
                forall|q: int| 0 <= q < z ==> !visited@[q],
            decreases n - z,
        {
            visited.push(false);
            z += 1;
        }
        proof {
            assert(visited@ =~= Seq::new(n as nat, |q: int| false));
            lemma_count_false(visited@);
        }
        let mut out: Vec<usize> = Vec::new();
        let mut s: usize = 0;
        while s < from.len()
            invariant
                self.wf(),
                n == self.nodes@.len(),
                visited@.len() == n,
                s <= from@.len(),
                count_true(visited@) == out@.len(),
                forall|i: int| 0 <= i < out@.len() ==> (#[trigger] out@[i]) < n && self.nodes()[out@[i] as int].round
                    >= until_round,
                forall|i: int, j: int| 0 <= i < j < out@.len() ==> out@[i] != out@[j],
                forall|q: int| 0 <= q < n ==> (visited@[q] <==> out@.contains(q as usize)),
                forall|k: int, j: int|
                    0 <= k < s && #[trigger] at_index(*self, j, from@[k]) && from@[k].round >= until_round
                        ==> out@.contains(j as usize),
                forall|i: int| 0 <= i < out@.len() ==> #[trigger] reached(*self, from@, out@, i),
            decreases from@.len() - s,
        {
            let start = from[s];
            if start.round >= until_round {
                match self.index_of(&start) {
                    Some(j) => {
                        if !visited[j] {
                            proof {
                                lemma_count_true_set(visited@, j as int);
                            }
                            let ghost before = out@;
                            visited.set(j, true);
                            out.push(j);
                            proof {
                                assert(out@[out@.len() - 1] == j);
                                assert forall|q: int| 0 <= q < n implies (visited@[q] <==> out@.contains(q as usize)) by {
                                    if q != j {
                                        if out@.contains(q as usize) {
                                            let w = choose|w: int| 0 <= w < out@.len() && out@[w] == q as usize;
                                            assert(before[w] == q as usize);
                                        }
                                        if before.contains(q as usize) {
                                            let w = choose|w: int| 0 <= w < before.len() && before[w] == q as usize;
                                            assert(out@[w] == q as usize);
                                        }
                                    }
                                }
                                assert forall|i: int, i2: int| 0 <= i < i2 < out@.len() implies out@[i] != out@[i2] by {
                                    if i2 == out@.len() - 1 {
                                        assert(!before.contains(j));
                                        assert(before[i] == out@[i]);
                                    }
                                }
                                assert(at_index(*self, j as int, from@[s as int]));
                                assert forall|i: int| 0 <= i < out@.len() implies #[trigger] reached(*self, from@, out@, i) by {
                                    if i == out@.len() - 1 {
                                        assert(at_index(*self, out@[i] as int, from@[s as int]));
                                    } else {
                                        lemma_reached_grows(*self, from@, before, out@, i);
                                    }
                                }
                                assert forall|q: usize| before.contains(q) implies out@.contains(q) by {
                                    let w = choose|w: int| 0 <= w < before.len() && before[w] == q;
                                    assert(out@[w] == q);
                                }
                            }
                        }
                        proof {
                            assert(out@.contains(j));
                            assert forall|k: int, j2: int|
                                0 <= k <= s && #[trigger] at_index(*self, j2, from@[k]) && from@[k].round >= until_round
                                    implies out@.contains(j2 as usize) by {
                                if k == s {
                                    lemma_at_index_unique(*self, j2, j as int, from@[k]);
                                }
                            }
                        }
                    },
                    None => {},
                }
            }
            s += 1;
        }
        let mut head: usize = 0;
        proof {
            lemma_count_true_bounds(visited@);
        }
        while head < out.len()
            invariant
                self.wf(),
                n == self.nodes@.len(),
                visited@.len() == n,
                head <= out@.len(),
                count_true(visited@) == out@.len(),
                out@.len() <= n,
                forall|i: int| 0 <= i < out@.len() ==> (#[trigger] out@[i]) < n && self.nodes()[out@[i] as int].round
                    >= until_round,
                forall|i: int, j: int| 0 <= i < j < out@.len() ==> out@[i] != out@[j],
                forall|q: int| 0 <= q < n ==> (visited@[q] <==> out@.contains(q as usize)),
                forall|k: int, j: int|
                    0 <= k < from@.len() && #[trigger] at_index(*self, j, from@[k]) && from@[k].round
                        >= until_round ==> out@.contains(j as usize),
                forall|i: int| 0 <= i < out@.len() ==> #[trigger] reached(*self, from@, out@, i),
                forall|i: int, a: int|
                    0 <= i < head && #[trigger] parent_edge(*self, out@[i] as int, a) && self.nodes()[a].round
                        >= until_round ==> out@.contains(a as usize),
            decreases n - head,
        {
            let b = out[head];
            let ps = &self.parents[b];
            let mut k: usize = 0;
            while k < ps.len()
                invariant
                    self.wf(),
                    n == self.nodes@.len(),
                    visited@.len() == n,
                    head < out@.len(),
                    b == out@[head as int],
                    ps@ == self.parents_of(b as int),
                    k <= ps@.len(),
                    count_true(visited@) == out@.len(),
                    out@.len() <= n,
                    forall|i: int| 0 <= i < out@.len() ==> (#[trigger] out@[i]) < n && self.nodes()[out@[i] as int].round
                        >= until_round,
                    forall|i: int, j: int| 0 <= i < j < out@.len() ==> out@[i] != out@[j],
                    forall|q: int| 0 <= q < n ==> (visited@[q] <==> out@.contains(q as usize)),
                    forall|k2: int, j: int|
                        0 <= k2 < from@.len() && #[trigger] at_index(*self, j, from@[k2]) && from@[k2].round
                            >= until_round ==> out@.contains(j as usize),
                    forall|i: int| 0 <= i < out@.len() ==> #[trigger] reached(*self, from@, out@, i),
                    forall|i: int, a: int|
                        0 <= i < head && #[trigger] parent_edge(*self, out@[i] as int, a) && self.nodes()[a].round
                            >= until_round ==> out@.contains(a as usize),
                    forall|k2: int, a: int|
                        0 <= k2 < k && #[trigger] at_index(*self, a, ps@[k2]) && self.nodes()[a].round >= until_round
                            ==> out@.contains(a as usize),
                decreases ps@.len() - k,
            {
                let p = ps[k];
                if p.round >= until_round {
                    match self.index_of(&p) {
                        Some(a) => {
                            if !visited[a] {
                                proof {
                                    lemma_count_true_set(visited@, a as int);
                                    lemma_count_true_bounds(visited@.update(a as int, true));
                                    assert(parent_edge(*self, b as int, a as int));
                                }
                                let ghost before = out@;
                                visited.set(a, true);
                                out.push(a);
                                proof {
                                    assert(out@[out@.len() - 1] == a);
                                    assert forall|q: int| 0 <= q < n implies (visited@[q] <==> out@.contains(q as usize)) by {
                                        if q != a {
                                            if out@.contains(q as usize) {
                                                let w = choose|w: int| 0 <= w < out@.len() && out@[w] == q as usize;
                                                assert(before[w] == q as usize);
                                            }
                                            if before.contains(q as usize) {
                                                let w = choose|w: int| 0 <= w < before.len() && before[w] == q as usize;
                                                assert(out@[w] == q as usize);
                                            }
                                        }
                                    }
                                    assert forall|i: int, i2: int| 0 <= i < i2 < out@.len() implies out@[i] != out@[i2] by {
                                        if i2 == out@.len() - 1 {
                                            assert(!before.contains(a));
                                            assert(before[i] == out@[i]);
                                        }
                                    }
                                    assert forall|q: usize| before.contains(q) implies out@.contains(q) by {
                                        let w = choose|w: int| 0 <= w < before.len() && before[w] == q;
                                        assert(out@[w] == q);
                                    }
                                    assert forall|i: int| 0 <= i < out@.len() implies #[trigger] reached(*self, from@, out@, i) by {
                                        if i == out@.len() - 1 {
                                            assert(out@[head as int] == b);
                                            assert(parent_edge(*self, out@[head as int] as int, out@[i] as int));
                                        } else {
                                            lemma_reached_grows(*self, from@, before, out@, i);
                                        }
                                    }
                                }
                            }
                            proof {
                                assert(out@.contains(a));
                                assert forall|k2: int, a2: int|
                                    0 <= k2 <= k && #[trigger] at_index(*self, a2, ps@[k2]) && self.nodes()[a2].round
                                        >= until_round implies out@.contains(a2 as usize) by {
                                    if k2 == k {
                                        lemma_at_index_unique(*self, a2, a as int, ps@[k2]);
                                    }
                                }
                            }
                        },
                        None => {
                            proof {
                                assert forall|a2: int| !at_index(*self, a2, p) by {
                                    if at_index(*self, a2, p) {
                                        assert(same_node(self.nodes()[a2], p));
                                    }
                                }
                            }
                        },
                    }
                } else {
                    proof {
                        assert forall|a2: int| at_index(*self, a2, p) implies self.nodes()[a2].round < until_round by {
                        }
                    }
                }
                k += 1;
            }
            proof {
                assert forall|i: int, a: int|
                    0 <= i < head + 1 && #[trigger] parent_edge(*self, out@[i] as int, a) && self.nodes()[a].round
                        >= until_round implies out@.contains(a as usize) by {
                    if i == head {
                        let k2 = choose|k2: int|
                            0 <= k2 < self.parents_of(b as int).len() && same_node(
                                #[trigger] self.parents_of(b as int)[k2],
                                self.nodes()[a],
                            );
                        assert(at_index(*self, a, ps@[k2]));
                    }
                }
            }
            head += 1;
        }
        out
    }
}

/// `r` lists, each once, the held nodes reachable from the held nodes of
/// `from` along parent edges without going below `until_round`: every start
/// is listed, every later entry is a parent of an earlier one, and every
/// held parent at or above `until_round` of a listed node is listed.
pub open spec fn is_causal_history(store: DagStore, from: Seq<NodeMetadata>, until_round: u64, r: Seq<usize>) -> bool {
    &&& forall|i: int| 0 <= i < r.len() ==> (#[trigger] r[i]) < store.nodes().len()
        && store.nodes()[r[i] as int].round >= until_round
    &&& forall|i: int, j: int| 0 <= i < j < r.len() ==> r[i] != r[j]
    &&& forall|k: int, j: int|
        0 <= k < from.len() && #[trigger] at_index(store, j, from[k]) && from[k].round >= until_round
            ==> r.contains(j as usize)
    &&& forall|i: int| 0 <= i < r.len() ==> #[trigger] reached(store, from, r, i)
    &&& forall|i: int, a: int|
        0 <= i < r.len() && #[trigger] parent_edge(store, r[i] as int, a) && store.nodes()[a].round
            >= until_round ==> r.contains(a as usize)
}

/// Entry `i` of `r` is a node of `from`, or a parent of an earlier entry.
pub open spec fn reached(store: DagStore, from: Seq<NodeMetadata>, r: Seq<usize>, i: int) -> bool {
    ||| exists|k: int| 0 <= k < from.len() && #[trigger] at_index(store, r[i] as int, from[k])
    ||| exists|j: int| 0 <= j < i && #[trigger] parent_edge(store, r[j] as int, r[i] as int)
}

proof fn lemma_reached_grows(store: DagStore, from: Seq<NodeMetadata>, before: Seq<usize>, after: Seq<usize>, i: int)
    requires
        0 <= i < before.len(),
        before.len() <= after.len(),
        forall|q: int| 0 <= q < before.len() ==> after[q] == before[q],
        reached(store, from, before, i),
    ensures
        reached(store, from, after, i),
{
    if exists|k: int| 0 <= k < from.len() && #[trigger] at_index(store, before[i] as int, from[k]) {
        let k = choose|k: int| 0 <= k < from.len() && #[trigger] at_index(store, before[i] as int, from[k]);
        assert(at_index(store, after[i] as int, from[k]));
    } else {
        let j = choose|j: int| 0 <= j < i && #[trigger] parent_edge(store, before[j] as int, before[i] as int);
        assert(parent_edge(store, after[j] as int, after[i] as int));
    }
}

proof fn lemma_count_false(s: Seq<bool>)
    requires
        forall|q: int| 0 <= q < s.len() ==> !s[q],
    ensures
        count_true(s) == 0,
    decreases s.len(),
{
    if s.len() > 0 {
        lemma_count_false(s.drop_last());
    }
}

proof fn lemma_at_index_unique(store: DagStore, a: int, b: int, m: NodeMetadata)
    requires
        store.wf(),
        at_index(store, a, m),
        at_index(store, b, m),
    ensures
        a == b,
{
}

} // verus!
