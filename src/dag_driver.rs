//! The per-instance round state machine: it decides when to enter a round,
//! forms the node to broadcast, accepts certified nodes from peers, and
//! bounds the broadcasts in flight. Pulling payloads, persisting, sending
//! and timing are left to the caller, which feeds their results back in.

use vstd::prelude::*;
use crate::dag_store::{
    CertifiedNode, DagError, DagStore, NodeMetadata, contains_node, is_causal_history, joined_payloads, nodes_at,
    parents_from_previous_round,
};

verus! {

/// A node this validator proposes for a round, before certification.
#[derive(Clone, Debug)]
pub struct ProposedNode {
    pub epoch: u64,
    pub round: u64,
    pub author: usize,
    pub timestamp: u64,
    pub payload: Vec<u64>,
    pub parents: Vec<NodeMetadata>,
}

/// Why a certified node from a peer is not taken.
#[derive(Clone, Copy, Debug, Eq, PartialEq)]
pub enum DriverError {
    /// Below the store's window.
    StaleNode,
    /// Some parent is not in the store; the caller should fetch it.
    MissingParents,
    /// The store refused the node.
    Store(DagError),
}

/// What to do when the driver starts.
#[derive(Clone, Copy, Debug, Eq, PartialEq)]
pub enum StartAction {
    /// Rebroadcast the saved pending node of this round.
    Resume(u64),
    /// Enter this round.
    Enter(u64),
    /// Wait for certified nodes.
    Idle,
}

/// The largest timestamp among `s`, or 0 when empty.
pub open spec fn max_timestamp(s: Seq<NodeMetadata>) -> u64
    decreases s.len(),
{
    if s.len() == 0 {
        0
    } else {
        let rest = max_timestamp(s.drop_last());
        if s.last().timestamp > rest {
            s.last().timestamp
        } else {
            rest
        }
    }
}

/// A node's timestamp: the later of the clock and one past its latest
/// parent (saturating at the largest value).
pub open spec fn node_timestamp(now: u64, parents: Seq<NodeMetadata>) -> u64 {
    let after = if max_timestamp(parents) < u64::MAX {
        (max_timestamp(parents) + 1) as u64
    } else {
        u64::MAX
    };
    if now > after {
        now
    } else {
        after
    }
}

fn compute_timestamp(now: u64, parents: &Vec<NodeMetadata>) -> (r: u64)
    ensures
        r == node_timestamp(now, parents@),
{
    let mut highest: u64 = 0;
    let mut i: usize = 0;
    while i < parents.len()
        invariant
            i <= parents@.len(),
            highest == max_timestamp(parents@.take(i as int)),
        decreases parents@.len() - i,
    {
        assert(parents@.take(i as int + 1).drop_last() =~= parents@.take(i as int));
        if parents[i].timestamp > highest {
            highest = parents[i].timestamp;
        }
        i += 1;
    }
    assert(parents@.take(i as int) =~= parents@);
    let after = if highest < u64::MAX {
        highest + 1
    } else {
        u64::MAX
    };
    if now > after {
        now
    } else {
        after
    }
}

/// Why a certified node from a peer is not taken, checked in this order:
/// below the window; a parent missing from the store; then the store's own
/// reasons (unknown author, a parent not from the previous round, the round
/// and author already taken). `None` when it is taken.
pub open spec fn add_error(store: DagStore, node: CertifiedNode) -> Option<DriverError> {
    let m = node.metadata;
    if m.round < store.lowest() {
        Some(DriverError::StaleNode)
    } else if !(forall|k: int| 0 <= k < node.parents@.len() ==> contains_node(store.nodes(), #[trigger] node.parents@[k])) {
        Some(DriverError::MissingParents)
    } else if m.author >= store.validators() {
        Some(DriverError::Store(DagError::UnknownAuthor))
    } else if !parents_from_previous_round(node.parents@, m.round) {
        Some(DriverError::Store(DagError::InvalidParents))
    } else if exists|i: int|
        0 <= i < store.nodes().len() && (#[trigger] store.nodes()[i]).round == m.round && store.nodes()[i].author
            == m.author {
        Some(DriverError::Store(DagError::Duplicate))
    } else {
        None
    }
}

/// Rounds strictly increase along `s`.
pub open spec fn rounds_increasing(s: Seq<u64>) -> bool {
    forall|i: int, j: int| 0 <= i < j < s.len() ==> s[i] < s[j]
}

/// How many rounds apart `a` and `b` are.
pub fn round_distance(a: u64, b: u64) -> (r: u64)
    ensures
        r == if a > b {
            a - b
        } else {
            b - a
        },
{
    if a > b {
        a - b
    } else {
        b - a
    }
}

/// The driver of one DAG instance for one validator.
pub struct DagDriver {
    author: usize,
    epoch: u64,
    current_round: u64,
    window_size: u64,
    dag: DagStore,
    rb_rounds: Vec<u64>,
}

impl DagDriver {
    pub closed spec fn current(&self) -> u64 {
        self.current_round
    }

    pub closed spec fn store(&self) -> DagStore {
        self.dag
    }

    pub closed spec fn spec_author(&self) -> usize {
        self.author
    }

    pub closed spec fn spec_epoch(&self) -> u64 {
        self.epoch
    }

    pub closed spec fn window(&self) -> u64 {
        self.window_size
    }

    /// Rounds whose broadcasts are still running, oldest first.
    pub closed spec fn in_flight(&self) -> Seq<u64> {
        self.rb_rounds@
    }

    pub open spec fn wf(&self) -> bool {
        &&& self.store().wf()
        &&& self.window() >= 1
        &&& self.in_flight().len() <= self.window()
        &&& rounds_increasing(self.in_flight())
        &&& forall|i: int| 0 <= i < self.in_flight().len() ==> #[trigger] self.in_flight()[i] <= self.current()
    }

    pub fn new(author: usize, epoch: u64, dag: DagStore, window_size: u64) -> (r: Self)
        requires
            dag.wf(),
            window_size >= 1,
        ensures
            r.wf(),
            r.current() == 0,
            r.store() == dag,
            r.spec_author() == author,
            r.spec_epoch() == epoch,
            r.window() == window_size,
            r.in_flight() == Seq::<u64>::empty(),
    {
        DagDriver { author, epoch, current_round: 0, window_size, dag, rb_rounds: Vec::new() }
    }

    pub fn current_round(&self) -> (r: u64)
        ensures
            r == self.current(),
    {
        self.current_round
    }

    pub fn dag(&self) -> (r: &DagStore)
        ensures
            *r == self.store(),
    {
        &self.dag
    }

    pub fn in_flight_rounds(&self) -> (r: Vec<u64>)
        ensures
            r@ == self.in_flight(),
    {
        let mut out: Vec<u64> = Vec::new();
        let mut i: usize = 0;
        while i < self.rb_rounds.len()
            invariant
                i <= self.rb_rounds@.len(),
                out@ == self.rb_rounds@.take(i as int),
            decreases self.rb_rounds@.len() - i,
        {
            out.push(self.rb_rounds[i]);
            assert(self.rb_rounds@.take(i as int + 1) =~= self.rb_rounds@.take(i as int).push(
                self.rb_rounds@[i as int],
            ));
            i += 1;
        }
        assert(self.rb_rounds@.take(i as int) =~= self.rb_rounds@);
        out
    }

    /// The round to enter next: one past the highest round with strong
    /// links, when that is beyond the current round.
    pub fn check_new_round(&self) -> (r: Option<u64>)
        requires
            self.wf(),
        ensures
            r is Some ==> self.store().spec_highest_strong_links_round((r->0 - 1) as u64) && r->0
                > self.current() && r->0 >= 1,
            r is None ==> forall|h: u64|
                self.store().spec_highest_strong_links_round(h) ==> h < self.current() || h == u64::MAX,
    {
        let h = self.dag.highest_strong_links_round();
        proof {
            self.store().lemma_highest_unique(h);
        }
        if h >= self.current_round && h < u64::MAX {
            Some(h + 1)
        } else {
            None
        }
    }

    /// What to do on start, given the round of a saved pending node: resume
    /// it when it is the round after the highest strong links; otherwise
    /// enter that round unless the store is empty.
    pub fn start(&mut self, pending_round: Option<u64>) -> (r: StartAction)
        requires
            old(self).wf(),
        ensures
            final(self).wf(),
            final(self).current() >= old(self).current(),
            final(self).store() == old(self).store(),
            final(self).in_flight() == old(self).in_flight(),
            r matches StartAction::Resume(k) ==> pending_round == Some(k) && old(self).store().spec_highest_strong_links_round(
                (k - 1) as u64,
            ) && k >= 1,
            r matches StartAction::Enter(k) ==> old(self).store().spec_highest_strong_links_round(
                (k - 1) as u64,
            ) && k >= 1 && old(self).store().nodes().len() > 0,
            r == StartAction::Idle ==> old(self).store().nodes().len() == 0 || forall|h: u64|
                old(self).store().spec_highest_strong_links_round(h) ==> h == u64::MAX,
            forall|k: u64|
                pending_round == Some(k) && k >= 1 && old(self).store().spec_highest_strong_links_round(
                    (k - 1) as u64,
                ) ==> r == StartAction::Resume(k),
            r matches StartAction::Resume(k) ==> final(self).current() == if k > old(self).current() {
                k
            } else {
                old(self).current()
            },
            !(r is Resume) ==> final(self).current() == old(self).current(),
    {
        let h = self.dag.highest_strong_links_round();
        proof {
            self.store().lemma_highest_unique(h);
        }
        if h == u64::MAX {
            return StartAction::Idle;
        }
        if let Some(p) = pending_round {
            if p == h + 1 {
                if p > self.current_round {
                    self.current_round = p;
                }
                return StartAction::Resume(p);
            }
        }
        if self.dag.is_empty() {
            StartAction::Idle
        } else {
            StartAction::Enter(h + 1)
        }
    }

    /// Whether entering `new_round` forms a node: the round is beyond the
    /// current one and beyond the highest round with strong links, and the
    /// previous round (round 1 aside) has strong links.
    pub open spec fn proposes(&self, new_round: u64) -> bool {
        &&& new_round > self.current()
        &&& forall|h: u64| self.store().spec_highest_strong_links_round(h) ==> new_round > h
        &&& new_round == 1 || self.store().has_strong_links((new_round - 1) as u64)
    }

    /// Decides, before any payload is pulled, whether `enter_new_round`
    /// would form a node for `new_round`.
    pub fn will_propose(&self, new_round: u64) -> (r: bool)
        requires
            self.wf(),
        ensures
            r == self.proposes(new_round),
    {
        if new_round <= self.current_round {
            return false;
        }
        let h = self.dag.highest_strong_links_round();
        proof {
            self.store().lemma_highest_unique(h);
        }
        if new_round <= h {
            return false;
        }
        new_round == 1 || self.dag.get_strong_links_for_round(new_round - 1).is_some()
    }

    /// Enters `new_round` and forms its node with `payload`, timestamped at
    /// the later of `now` and one past the latest parent. No node comes out
    /// when the round is not beyond the current one, when it is not beyond
    /// the highest round with strong links, or when the previous round
    /// (round 1 aside) lacks strong links. The current round never falls.
    pub fn enter_new_round(&mut self, new_round: u64, now: u64, payload: Vec<u64>) -> (r: Option<ProposedNode>)
        requires
            old(self).wf(),
        ensures
            final(self).wf(),
            final(self).store() == old(self).store(),
            final(self).current() == if new_round > old(self).current() {
                new_round
            } else {
                old(self).current()
            },
            r is Some <==> old(self).proposes(new_round),
            r is Some ==> ({
                let n = r->0;
                &&& n.round == new_round
                &&& n.epoch == old(self).spec_epoch()
                &&& n.author == old(self).spec_author()
                &&& n.payload@ == payload@
                &&& n.parents@ == if new_round == 1 {
                    Seq::<NodeMetadata>::empty()
                } else {
                    nodes_at(old(self).store().nodes(), (new_round - 1) as u64)
                }
                &&& n.timestamp == node_timestamp(now, n.parents@)
                &&& final(self).in_flight().last() == new_round
                &&& forall|i: int|
                    0 <= i < final(self).in_flight().len() ==> new_round - #[trigger] final(self).in_flight()[i]
                        <= final(self).window()
            }),
            r is None ==> final(self).in_flight() == old(self).in_flight(),
    {
        if new_round <= self.current_round {
            return None;
        }
        self.current_round = new_round;
        let h = self.dag.highest_strong_links_round();
        proof {
            old(self).store().lemma_highest_unique(h);
        }
        if new_round <= h {
            return None;
        }
        let parents = if new_round == 1 {
            Vec::new()
        } else {
            match self.dag.get_strong_links_for_round(new_round - 1) {
                Some(links) => links,
                None => {
                    return None;
                },
            }
        };
        let timestamp = compute_timestamp(now, &parents);
        self.track_broadcast(new_round);
        Some(
            ProposedNode {
                epoch: self.epoch,
                round: new_round,
                author: self.author,
                timestamp,
                payload,
                parents,
            },
        )
    }

    /// Records a broadcast for `round`, keeping at most `window` of them and
    /// cancelling from the oldest while the oldest is more than `window`
    /// rounds away.
    fn track_broadcast(&mut self, round: u64)
        requires
            old(self).wf(),
            round == old(self).current(),
            forall|i: int| 0 <= i < old(self).in_flight().len() ==> #[trigger] old(self).in_flight()[i] < round,
        ensures
            final(self).wf(),
            forall|i: int|
                0 <= i < final(self).in_flight().len() ==> round - #[trigger] final(self).in_flight()[i]
                    <= final(self).window(),
            final(self).store() == old(self).store(),
            final(self).current() == old(self).current(),
            final(self).spec_author() == old(self).spec_author(),
            final(self).spec_epoch() == old(self).spec_epoch(),
            final(self).in_flight().len() >= 1,
            final(self).in_flight().last() == round,
            exists|k: int|
                0 <= k <= old(self).in_flight().len() && final(self).in_flight() == old(self).in_flight().push(
                    round,
                ).skip(k),
    {
        let ghost pushed = self.rb_rounds@.push(round);
        proof {
            assert forall|i: int, j: int| 0 <= i < j < pushed.len() implies pushed[i] < pushed[j] by {
                if j == pushed.len() - 1 {
                    assert(pushed[i] == old(self).in_flight()[i]);
                }
            }
        }
        self.rb_rounds.push(round);
        if self.rb_rounds.len() as u64 > self.window_size {
            self.rb_rounds.remove(0);
        }
        assert(exists|k: int| 0 <= k <= old(self).in_flight().len() && self.rb_rounds@ == pushed.skip(k)) by {
            if self.rb_rounds@.len() == pushed.len() {
                assert(pushed.skip(0) =~= pushed);
            } else {
                assert(pushed.skip(1) =~= self.rb_rounds@);
            }
        }
        while self.rb_rounds.len() > 1 && round_distance(self.rb_rounds[0], round) > self.window_size
            invariant
                self.store() == old(self).store(),
                self.current() == old(self).current(),
                self.spec_author() == old(self).spec_author(),
                self.spec_epoch() == old(self).spec_epoch(),
                self.window() == old(self).window(),
                self.window() >= 1,
                self.store().wf(),
                self.in_flight().len() >= 1,
                self.in_flight().len() <= self.window(),
                pushed == old(self).in_flight().push(round),
                rounds_increasing(pushed),
                pushed.last() == round,
                exists|k: int| 0 <= k <= old(self).in_flight().len() && self.rb_rounds@ == pushed.skip(k),
            decreases self.rb_rounds@.len(),
        {
            let ghost before = self.rb_rounds@;
            self.rb_rounds.remove(0);
            proof {
                let k = choose|k: int| 0 <= k <= old(self).in_flight().len() && before == pushed.skip(k);
                assert(self.rb_rounds@ =~= pushed.skip(k + 1));
            }
        }
        proof {
            let k = choose|k: int| 0 <= k <= old(self).in_flight().len() && self.rb_rounds@ == pushed.skip(k);
            let t = self.rb_rounds@;
            assert(t.last() == pushed.last());
            assert forall|i: int, j: int| 0 <= i < j < t.len() implies t[i] < t[j] by {
                assert(t[i] == pushed[i + k] && t[j] == pushed[j + k]);
            }
            assert forall|i: int| 0 <= i < t.len() implies #[trigger] t[i] <= round && round - t[i] <= self.window() by {
                assert(t[i] == pushed[i + k]);
                if i < t.len() - 1 {
                    assert(t[i] < t[t.len() - 1]);
                }
                if t.len() > 1 {
                    assert(t[0] <= t[i]) by {
                        if i > 0 {
                            assert(t[0] < t[i]);
                        }
                    }
                }
            }
        }
    }

    /// Takes a certified node from a peer. It must be within the window and
    /// all its parents held; then the store takes it, and the round to
    /// enter next, if any, comes back.
    pub fn add_node(&mut self, node: CertifiedNode) -> (r: Result<Option<u64>, DriverError>)
        requires
            old(self).wf(),
        ensures
            final(self).wf(),
            final(self).current() == old(self).current(),
            final(self).in_flight() == old(self).in_flight(),
            r is Ok <==> add_error(old(self).store(), node) is None,
            r is Err ==> r == Err::<Option<u64>, DriverError>(add_error(old(self).store(), node)->0),
            r is Ok ==> final(self).store().nodes() == old(self).store().nodes().push(node.metadata),
            r is Err ==> final(self).store() == old(self).store(),
            r matches Ok(Some(k)) ==> final(self).store().spec_highest_strong_links_round((k - 1) as u64)
                && k > final(self).current(),
            r matches Ok(None) ==> forall|h: u64|
                final(self).store().spec_highest_strong_links_round(h) ==> h < final(self).current() || h
                    == u64::MAX,
    {
        if node.metadata.round < self.dag.lowest_round() {
            return Err(DriverError::StaleNode);
        }
        if !self.dag.all_exists(&node.parents) {
            return Err(DriverError::MissingParents);
        }
        match self.dag.add_node(node) {
            Ok(()) => Ok(self.check_new_round()),
            Err(e) => Err(DriverError::Store(e)),
        }
    }

    /// Handles a certified node from a peer: one already held is
    /// acknowledged as it is; another goes through `add_node`.
    pub fn process(&mut self, node: CertifiedNode) -> (r: Result<Option<u64>, DriverError>)
        requires
            old(self).wf(),
        ensures
            final(self).wf(),
            final(self).current() == old(self).current(),
            final(self).in_flight() == old(self).in_flight(),
            contains_node(old(self).store().nodes(), node.metadata) ==> r == Ok::<Option<u64>, DriverError>(
                None,
            ) && final(self).store() == old(self).store(),
            !contains_node(old(self).store().nodes(), node.metadata) ==> (r is Ok <==> add_error(
                old(self).store(),
                node,
            ) is None),
            !contains_node(old(self).store().nodes(), node.metadata) && r is Err ==> r == Err::<
                Option<u64>,
                DriverError,
            >(add_error(old(self).store(), node)->0),
            r is Ok && !contains_node(old(self).store().nodes(), node.metadata) ==> final(self).store().nodes()
                == old(self).store().nodes().push(node.metadata),
            r is Err ==> final(self).store() == old(self).store(),
            r matches Ok(Some(k)) ==> final(self).store().spec_highest_strong_links_round((k - 1) as u64)
                && k > final(self).current(),
    {
        if self.dag.has_node(&node.metadata) {
            return Ok(None);
        }
        self.add_node(node)
    }

    /// The strong links a node of `round` would have: the nodes of the
    /// previous round when they reach a quorum, none otherwise.
    pub open spec fn links_for(&self, round: u64) -> Seq<NodeMetadata> {
        if round >= 1 && self.store().has_strong_links((round - 1) as u64) {
            nodes_at(self.store().nodes(), (round - 1) as u64)
        } else {
            Seq::empty()
        }
    }

    /// The transactions a node of `new_round` must not repeat: the payloads
    /// of the causal history of its strong links, down to `window` rounds
    /// below the highest committed anchor round.
    pub fn payload_filter(&self, new_round: u64, highest_commit_round: u64) -> (r: Vec<u64>)
        requires
            self.wf(),
        ensures
            exists|h: Seq<usize>|
                is_causal_history(
                    self.store(),
                    self.links_for(new_round),
                    if highest_commit_round > self.window() {
                        (highest_commit_round - self.window()) as u64
                    } else {
                        0
                    },
                    h,
                ) && r@ == joined_payloads(self.store(), h),
    {
        let links = if new_round >= 1 {
            match self.dag.get_strong_links_for_round(new_round - 1) {
                Some(l) => l,
                None => Vec::new(),
            }
        } else {
            Vec::new()
        };
        assert(links@ =~= self.links_for(new_round));
        let until = if highest_commit_round > self.window_size {
            highest_commit_round - self.window_size
        } else {
            0
        };
        let history = self.dag.reachable(&links, until);
        self.dag.payloads_of(&history)
    }

    /// After missing parents arrive: the round to enter next, if any.
    pub fn fetch_callback(&self) -> (r: Option<u64>)
        requires
            self.wf(),
        ensures
            r is Some ==> self.store().spec_highest_strong_links_round((r->0 - 1) as u64) && r->0
                > self.current(),
            r is None ==> forall|h: u64|
                self.store().spec_highest_strong_links_round(h) ==> h < self.current() || h == u64::MAX,
    {
        self.check_new_round()
    }

    /// Prunes the store after `round` commits.
    pub fn commit_callback(&mut self, round: u64)
        requires
            old(self).wf(),
        ensures
            final(self).wf(),
            final(self).current() == old(self).current(),
            final(self).in_flight() == old(self).in_flight(),
            final(self).store().nodes() == crate::dag_store::retained(
                old(self).store().nodes(),
                old(self).store().pruned_lowest(round),
            ),
            final(self).store().lowest() == old(self).store().pruned_lowest(round),
    {
        self.dag.commit_callback(round);
    }
}

} // verus!
