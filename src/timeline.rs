//! The broadcast timelines: an append-only log of ready transactions per
//! ranking-score bucket, read in id order by the gossip protocol.

use vstd::prelude::*;
use crate::transaction::{MempoolTransaction, TimelineState};
use crate::types::{AccountAddress, ReplayProtector};

verus! {

/// One timeline entry: the id it was given, the transaction it refers to,
/// and when it was inserted (microseconds of a monotonic clock).
#[derive(Clone, Copy, Debug)]
pub struct TimelineEntry {
    pub id: u64,
    pub sender: AccountAddress,
    pub replay_protector: ReplayProtector,
    pub inserted_at: u64,
}

/// The reference to a transaction that a timeline read hands out.
pub open spec fn entry_ref(e: TimelineEntry) -> (AccountAddress, ReplayProtector) {
    (e.sender, e.replay_protector)
}

/// The entries a read returns: those with ids above `after`, in id order,
/// up to the first one inserted at or after `before`, at most `count`.
pub open spec fn read_entries(s: Seq<TimelineEntry>, after: u64, count: nat, before: Option<u64>) -> Seq<
    TimelineEntry,
>
    decreases s.len(),
{
    if s.len() == 0 {
        Seq::empty()
    } else if s[0].id <= after {
        read_entries(s.drop_first(), after, count, before)
    } else if before is Some && s[0].inserted_at >= before->0 {
        Seq::empty()
    } else if count == 0 {
        Seq::empty()
    } else {
        seq![s[0]] + read_entries(s.drop_first(), after, (count - 1) as nat, before)
    }
}

/// The entries with `start < id <= end`, in order.
pub open spec fn range_entries(s: Seq<TimelineEntry>, start: u64, end: u64) -> Seq<TimelineEntry>
    decreases s.len(),
{
    if s.len() == 0 {
        Seq::empty()
    } else if start < s[0].id && s[0].id <= end {
        seq![s[0]] + range_entries(s.drop_first(), start, end)
    } else {
        range_entries(s.drop_first(), start, end)
    }
}

/// Ids strictly increase along `s`, and all are below `next`.
pub open spec fn ids_increasing_below(s: Seq<TimelineEntry>, next: u64) -> bool {
    &&& forall|i: int, j: int| 0 <= i < j < s.len() ==> s[i].id < s[j].id
    &&& forall|i: int| 0 <= i < s.len() ==> s[i].id < next
}

pub proof fn lemma_read_entries_len(s: Seq<TimelineEntry>, after: u64, count: nat, before: Option<u64>)
    ensures
        read_entries(s, after, count, before).len() <= count,
    decreases s.len(),
{
    if s.len() != 0 {
        lemma_read_entries_len(s.drop_first(), after, count, before);
        if count > 0 {
            lemma_read_entries_len(s.drop_first(), after, (count - 1) as nat, before);
        }
    }
}

/// A read returns only entries whose ids are above the id read from, in
/// increasing id order.
pub proof fn lemma_read_after(s: Seq<TimelineEntry>, after: u64, count: nat, before: Option<u64>)
    requires
        forall|i: int, j: int| 0 <= i < j < s.len() ==> s[i].id < s[j].id,
    ensures
        forall|k: int|
            0 <= k < read_entries(s, after, count, before).len() ==> read_entries(
                s,
                after,
                count,
                before,
            )[k].id > after,
        forall|k: int, l: int|
            0 <= k < l < read_entries(s, after, count, before).len() ==> read_entries(
                s,
                after,
                count,
                before,
            )[k].id < read_entries(s, after, count, before)[l].id,
        forall|k: int|
            0 <= k < read_entries(s, after, count, before).len() ==> exists|m: int|
                0 <= m < s.len() && s[m] == #[trigger] read_entries(s, after, count, before)[k],
    decreases s.len(),
{
    if s.len() != 0 {
        let t = s.drop_first();
        lemma_read_after(t, after, count, before);
        if count > 0 {
            lemma_read_after(t, after, (count - 1) as nat, before);
        }
        let r = read_entries(s, after, count, before);
        assert forall|k: int| 0 <= k < r.len() implies exists|m: int| 0 <= m < s.len() && s[m] == #[trigger] r[k] by {
            if s[0].id <= after {
                let m = choose|m: int| 0 <= m < t.len() && t[m] == r[k];
                assert(s[m + 1] == r[k]);
            } else if k > 0 {
                let r2 = read_entries(t, after, (count - 1) as nat, before);
                assert(r[k] == r2[k - 1]);
                let m = choose|m: int| 0 <= m < t.len() && t[m] == r2[k - 1];
                assert(s[m + 1] == r[k]);
            } else {
                assert(s[0] == r[k]);
            }
        }
        if !(s[0].id <= after) && r.len() > 0 {
            let r2 = read_entries(t, after, (count - 1) as nat, before);
            assert forall|k: int| 0 <= k < r2.len() implies s[0].id < r2[k].id by {
                let m = choose|m: int| 0 <= m < t.len() && t[m] == r2[k];
                assert(s[m + 1] == r2[k]);
            }
        }
    }
}

/// An append-only log of broadcast-ready transactions; each insertion gets
/// the next id of a counter that starts at 1.
pub struct TimelineIndex {
    next_timeline_id: u64,
    timeline: Vec<TimelineEntry>,
}

impl TimelineIndex {
    pub closed spec fn entries(&self) -> Seq<TimelineEntry> {
        self.timeline@
    }

    pub closed spec fn next_id(&self) -> u64 {
        self.next_timeline_id
    }

    pub open spec fn wf(&self) -> bool {
        &&& ids_increasing_below(self.entries(), self.next_id())
        &&& self.next_id() >= 1
    }

    pub fn new() -> (r: Self)
        ensures
            r.wf(),
            r.entries() == Seq::<TimelineEntry>::empty(),
            r.next_id() == 1,
    {
        TimelineIndex { next_timeline_id: 1, timeline: Vec::new() }
    }

    /// The transactions after `timeline_id`, at most `count` of them, and
    /// only those inserted before `before` when it is given.
    pub fn read_timeline(&self, timeline_id: u64, count: usize, before: Option<u64>) -> (r: Vec<(AccountAddress, ReplayProtector)>)
        ensures
            r@ == read_entries(self.entries(), timeline_id, count as nat, before).map_values(
                |e: TimelineEntry| entry_ref(e),
            ),
    {
        let ghost s = self.timeline@;
        let mut batch: Vec<(AccountAddress, ReplayProtector)> = Vec::new();
        let mut i: usize = 0;
        assert(s.skip(0) =~= s);
        while i < self.timeline.len()
            invariant
                s == self.timeline@,
                i <= s.len(),
                batch@.len() <= count,
                batch@ + read_entries(s.skip(i as int), timeline_id, (count - batch@.len()) as nat, before).map_values(
                    |e: TimelineEntry| entry_ref(e),
                ) == read_entries(s, timeline_id, count as nat, before).map_values(
                    |e: TimelineEntry| entry_ref(e),
                ),
            decreases s.len() - i,
        {
            let e = self.timeline[i];
            let ghost rest = (count - batch@.len()) as nat;
            assert(s.skip(i as int).drop_first() =~= s.skip(i as int + 1));
            if e.id > timeline_id {
                if let Some(b) = before {
                    if e.inserted_at >= b {
                        assert(batch@ + Seq::<(AccountAddress, ReplayProtector)>::empty() =~= batch@);
                        return batch;
                    }
                }
                if batch.len() == count {
                    assert(batch@ + Seq::<(AccountAddress, ReplayProtector)>::empty() =~= batch@);
                    return batch;
                }
                let ghost tail = read_entries(s.skip(i as int + 1), timeline_id, (rest - 1) as nat, before);
                batch.push((e.sender, e.replay_protector));
                assert((seq![e] + tail).map_values(|e: TimelineEntry| entry_ref(e)) =~= seq![entry_ref(e)]
                    + tail.map_values(|e: TimelineEntry| entry_ref(e)));
            }
            i += 1;
        }
        assert(s.skip(i as int) =~= Seq::<TimelineEntry>::empty());
        assert(batch@ + Seq::<(AccountAddress, ReplayProtector)>::empty() =~= batch@);
        batch
    }

    /// The transactions with `start_timeline_id < id <= end_timeline_id`.
    pub fn timeline_range(&self, start_timeline_id: u64, end_timeline_id: u64) -> (r: Vec<(AccountAddress, ReplayProtector)>)
        ensures
            r@ == range_entries(self.entries(), start_timeline_id, end_timeline_id).map_values(
                |e: TimelineEntry| entry_ref(e),
            ),
    {
        let ghost s = self.timeline@;
        let mut out: Vec<(AccountAddress, ReplayProtector)> = Vec::new();
        let mut i: usize = 0;
        assert(s.skip(0) =~= s);
        while i < self.timeline.len()
            invariant
                s == self.timeline@,
                i <= s.len(),
                out@ + range_entries(s.skip(i as int), start_timeline_id, end_timeline_id).map_values(
                    |e: TimelineEntry| entry_ref(e),
                ) == range_entries(s, start_timeline_id, end_timeline_id).map_values(
                    |e: TimelineEntry| entry_ref(e),
                ),
            decreases s.len() - i,
        {
            let e = self.timeline[i];
            assert(s.skip(i as int).drop_first() =~= s.skip(i as int + 1));
            if start_timeline_id < e.id && e.id <= end_timeline_id {
                let ghost tail = range_entries(s.skip(i as int + 1), start_timeline_id, end_timeline_id);
                out.push((e.sender, e.replay_protector));
                assert((seq![e] + tail).map_values(|e: TimelineEntry| entry_ref(e)) =~= seq![entry_ref(e)]
                    + tail.map_values(|e: TimelineEntry| entry_ref(e)));
            }
            i += 1;
        }
        assert(s.skip(i as int) =~= Seq::<TimelineEntry>::empty());
        assert(out@ + Seq::<(AccountAddress, ReplayProtector)>::empty() =~= out@);
        out
    }

    /// Appends the transaction under the next id, inserted at `now`, and
    /// marks it ready under that id.
    pub fn insert(&mut self, txn: &mut MempoolTransaction, now: u64)
        requires
            old(self).wf(),
            old(self).next_id() < u64::MAX,
        ensures
            final(self).wf(),
            final(self).next_id() == old(self).next_id() + 1,
            final(self).entries() == old(self).entries().push(
                TimelineEntry {
                    id: old(self).next_id(),
                    sender: old(txn).sender,
                    replay_protector: old(txn).replay_protector,
                    inserted_at: now,
                },
            ),
            *final(txn) == (MempoolTransaction {
                timeline_state: TimelineState::Ready(old(self).next_id()),
                ..*old(txn)
            }),
    {
        let id = self.next_timeline_id;
        self.timeline.push(
            TimelineEntry {
                id,
                sender: txn.sender,
                replay_protector: txn.replay_protector,
                inserted_at: now,
            },
        );
        txn.timeline_state = TimelineState::Ready(id);
        self.next_timeline_id = id + 1;
    }

    /// Drops the transaction's entry if it is ready under some id.
    pub fn remove(&mut self, txn: &MempoolTransaction)
        requires
            old(self).wf(),
        ensures
            final(self).wf(),
            final(self).next_id() == old(self).next_id(),
            txn.timeline_state is Ready ==> final(self).entries() == drop_id(
                old(self).entries(),
                txn.timeline_state->Ready_0,
            ),
            !(txn.timeline_state is Ready) ==> final(self).entries() == old(self).entries(),
    {
        if let TimelineState::Ready(id) = txn.timeline_state {
            let n = self.timeline.len();
            let mut i: usize = 0;
            while i < n
                invariant
                    n == self.timeline@.len(),
                    self.timeline@ == old(self).timeline@,
                    self.next_timeline_id == old(self).next_timeline_id,
                    i <= n,
                    forall|j: int| 0 <= j < i ==> self.timeline@[j].id != id,
                    ids_increasing_below(self.timeline@, self.next_timeline_id),
                    self.next_timeline_id >= 1,
                    txn.timeline_state == TimelineState::Ready(id),
                decreases n - i,
            {
                if self.timeline[i].id == id {
                    let ghost s = self.timeline@;
                    self.timeline.remove(i);
                    proof {
                        let t = self.timeline@;
                        assert(t == s.remove(i as int));
                        lemma_filter_remove_unique(s, id, i as int);
                        assert forall|a: int, b: int| 0 <= a < b < t.len() implies t[a].id < t[b].id by {
                            if a >= i {
                                assert(t[a] == s[a + 1] && t[b] == s[b + 1]);
                            } else if b >= i {
                                assert(t[b] == s[b + 1]);
                            }
                        }
                        assert forall|a: int| 0 <= a < t.len() implies t[a].id < self.next_timeline_id by {
                            if a >= i {
                                assert(t[a] == s[a + 1]);
                            }
                        }
                    }
                    return;
                }
                i += 1;
            }
            proof {
                lemma_filter_none(self.timeline@, id);
            }
        }
    }

    pub fn size(&self) -> (r: usize)
        ensures
            r == self.entries().len(),
    {
        self.timeline.len()
    }
}

/// `s` without the entries under `id`.
pub open spec fn drop_id(s: Seq<TimelineEntry>, id: u64) -> Seq<TimelineEntry> {
    s.filter(|e: TimelineEntry| e.id != id)
}

proof fn lemma_filter_none(s: Seq<TimelineEntry>, id: u64)
    requires
        forall|j: int| 0 <= j < s.len() ==> s[j].id != id,
    ensures
        drop_id(s, id) == s,
    decreases s.len(),
{
    reveal(Seq::filter);
    if s.len() != 0 {
        lemma_filter_none(s.drop_last(), id);
        assert(s.drop_last().push(s.last()) =~= s);
    } else {
        assert(drop_id(s, id) =~= s);
    }
}

proof fn lemma_filter_remove_unique(s: Seq<TimelineEntry>, id: u64, i: int)
    requires
        0 <= i < s.len(),
        s[i].id == id,
        forall|a: int, b: int| 0 <= a < b < s.len() ==> s[a].id < s[b].id,
    ensures
        drop_id(s, id) == s.remove(i),
    decreases s.len(),
{
    reveal(Seq::filter);
    if i == s.len() - 1 {
        lemma_filter_none(s.drop_last(), id);
        assert(s.drop_last() =~= s.remove(i));
    } else {
        lemma_filter_remove_unique(s.drop_last(), id, i);
        assert(s.remove(i) =~= s.drop_last().remove(i).push(s.last()));
    }
}

} // verus!

verus! {

/// Timeline ids only grow: a read from any id returns entries with larger
/// ids, in increasing order, and every held id is below the id the next
/// admission will get.
pub proof fn lemma_timeline_monotonic(t: &TimelineIndex, after: u64, count: nat, before: Option<u64>)
    requires
        t.wf(),
    ensures
        forall|k: int|
            0 <= k < read_entries(t.entries(), after, count, before).len() ==> #[trigger] read_entries(
                t.entries(),
                after,
                count,
                before,
            )[k].id > after,
        forall|k: int, l: int|
            0 <= k < l < read_entries(t.entries(), after, count, before).len() ==> read_entries(
                t.entries(),
                after,
                count,
                before,
            )[k].id < read_entries(t.entries(), after, count, before)[l].id,
        forall|k: int| 0 <= k < t.entries().len() ==> #[trigger] t.entries()[k].id < t.next_id(),
{
    lemma_read_after(t.entries(), after, count, before);
}

/// Why a list of bucket minimums is refused.
#[derive(Clone, Copy, Debug, Eq, PartialEq)]
pub enum BucketError {
    /// No bucket at all.
    Empty,
    /// The first bucket does not start at 0.
    FirstNotZero,
    /// The minimums are not strictly increasing.
    NotIncreasing,
}

pub open spec fn strictly_increasing(s: Seq<u64>) -> bool {
    forall|i: int, j: int| 0 <= i < j < s.len() ==> s[i] < s[j]
}

/// Bucket `i` is the one that holds `score`: its minimum is at most
/// `score`, and the next bucket's minimum, if any, is above it.
pub open spec fn is_bucket_of(mins: Seq<u64>, score: u64, i: int) -> bool {
    &&& 0 <= i < mins.len()
    &&& mins[i] <= score
    &&& i + 1 < mins.len() ==> score < mins[i + 1]
}

/// Timelines partitioned by ranking score: bucket `i` holds the transactions
/// whose score is at least its minimum and below the next bucket's.
pub struct MultiBucketTimelineIndex {
    timelines: Vec<TimelineIndex>,
    bucket_mins: Vec<u64>,
}

/// The read budget left for buckets `k` and below, after the buckets above
/// `k` have taken their share of `count`.
pub open spec fn budget_below(tls: Seq<Seq<TimelineEntry>>, ids: Seq<u64>, count: nat, before: Option<u64>, k: int) -> nat
    decreases tls.len() - k,
{
    if k + 1 >= tls.len() || k + 1 < 0 {
        count
    } else {
        (budget_below(tls, ids, count, before, k + 1) - read_entries(
            tls[k + 1],
            ids[k + 1],
            budget_below(tls, ids, count, before, k + 1),
            before,
        ).len()) as nat
    }
}

/// What a multi-bucket read returns for bucket `k`: buckets are read from
/// the highest down, each from its own id, sharing one budget of `count`.
pub open spec fn bucket_read(tls: Seq<Seq<TimelineEntry>>, ids: Seq<u64>, count: nat, before: Option<u64>, k: int) -> Seq<
    TimelineEntry,
> {
    read_entries(tls[k], ids[k], budget_below(tls, ids, count, before, k), before)
}

impl MultiBucketTimelineIndex {
    pub closed spec fn bucket_mins(&self) -> Seq<u64> {
        self.bucket_mins@
    }

    pub closed spec fn timeline(&self, i: int) -> TimelineIndex {
        self.timelines@[i]
    }

    pub closed spec fn num_timelines(&self) -> nat {
        self.timelines@.len()
    }

    /// The entries of every bucket, lowest bucket first.
    pub open spec fn all_entries(&self) -> Seq<Seq<TimelineEntry>> {
        Seq::new(self.num_timelines(), |i: int| self.timeline(i).entries())
    }

    pub open spec fn wf(&self) -> bool {
        &&& self.num_timelines() == self.bucket_mins().len()
        &&& self.bucket_mins().len() > 0
        &&& self.bucket_mins()[0] == 0
        &&& strictly_increasing(self.bucket_mins())
        &&& forall|i: int| 0 <= i < self.num_timelines() ==> #[trigger] self.timeline(i).wf()
    }

    /// One empty timeline per bucket. The minimums must be non-empty, start
    /// at 0 and strictly increase.
    pub fn new(bucket_mins: Vec<u64>) -> (r: Result<Self, BucketError>)
        ensures
            bucket_mins@.len() == 0 ==> r == Err::<Self, BucketError>(BucketError::Empty),
            bucket_mins@.len() > 0 && bucket_mins@[0] != 0 ==> r == Err::<Self, BucketError>(
                BucketError::FirstNotZero,
            ),
            bucket_mins@.len() > 0 && bucket_mins@[0] == 0 && !strictly_increasing(bucket_mins@)
                ==> r == Err::<Self, BucketError>(BucketError::NotIncreasing),
            bucket_mins@.len() > 0 && bucket_mins@[0] == 0 && strictly_increasing(bucket_mins@) ==> (
            r matches Ok(m) && m.wf() && m.bucket_mins() == bucket_mins@ && forall|i: int|
                0 <= i < m.num_timelines() ==> #[trigger] m.timeline(i).entries().len() == 0),
    {
        if bucket_mins.len() == 0 {
            return Err(BucketError::Empty);
        }
        if bucket_mins[0] != 0 {
            return Err(BucketError::FirstNotZero);
        }
        let n = bucket_mins.len();
        let mut timelines: Vec<TimelineIndex> = Vec::new();
        let mut i: usize = 0;
        while i < n
            invariant
                n == bucket_mins@.len(),
                n > 0,
                bucket_mins@[0] == 0,
                i <= n,
                timelines@.len() == i,
                forall|a: int, b: int| 0 <= a < b < i ==> bucket_mins@[a] < bucket_mins@[b],
                forall|k: int| 0 <= k < i ==> (#[trigger] timelines@[k]).wf() && timelines@[k].entries().len() == 0,
            decreases n - i,
        {
            if i > 0 && bucket_mins[i - 1] >= bucket_mins[i] {
                return Err(BucketError::NotIncreasing);
            }
            timelines.push(TimelineIndex::new());
            i += 1;
        }
        let r = MultiBucketTimelineIndex { timelines, bucket_mins };
        assert forall|k: int| 0 <= k < n implies #[trigger] r.timeline(k).wf() && r.timeline(k).entries().len() == 0 by {
            assert(r.timeline(k) == r.timelines@[k]);
        }
        Ok(r)
    }

    /// The bucket that holds `ranking_score`.
    pub fn bucket_index(&self, ranking_score: u64) -> (r: usize)
        requires
            self.wf(),
        ensures
            is_bucket_of(self.bucket_mins(), ranking_score, r as int),
    {
        let n = self.bucket_mins.len();
        let mut i: usize = 0;
        while i < n - 1 && self.bucket_mins[i + 1] <= ranking_score
            invariant
                self.wf(),
                n == self.bucket_mins@.len(),
                i < self.bucket_mins@.len(),
                self.bucket_mins@[i as int] <= ranking_score,
            decreases self.bucket_mins@.len() - i,
        {
            i += 1;
        }
        i
    }

    /// The minimum of the bucket that holds `ranking_score`.
    pub fn get_bucket(&self, ranking_score: u64) -> (r: u64)
        requires
            self.wf(),
        ensures
            exists|i: int| is_bucket_of(self.bucket_mins(), ranking_score, i) && r == self.bucket_mins()[i],
    {
        let i = self.bucket_index(ranking_score);
        self.bucket_mins[i]
    }

    /// Reads every bucket from its own id, highest bucket first, sharing a
    /// budget of `count` entries; the result lists the buckets lowest first.
    pub fn read_timeline(&self, ids: &Vec<u64>, count: usize, before: Option<u64>) -> (r: Vec<Vec<(AccountAddress, ReplayProtector)>>)
        requires
            self.wf(),
            ids@.len() == self.bucket_mins().len(),
        ensures
            r@.len() == self.num_timelines(),
            forall|k: int|
                0 <= k < r@.len() ==> #[trigger] r@[k]@ == bucket_read(
                    self.all_entries(),
                    ids@,
                    count as nat,
                    before,
                    k,
                ).map_values(|e: TimelineEntry| entry_ref(e)),
    {
        let n = self.timelines.len();
        let ghost tls = self.all_entries();
        let mut result: Vec<Vec<(AccountAddress, ReplayProtector)>> = Vec::new();
        let mut i: usize = 0;
        while i < n
            invariant
                n == self.timelines@.len(),
                i <= n,
                result@.len() == i,
            decreases n - i,
        {
            result.push(Vec::new());
            i += 1;
        }
        let mut added: usize = 0;
        let mut j: usize = n;
        while j > 0
            invariant
                self.wf(),
                n == self.timelines@.len(),
                ids@.len() == n,
                tls == self.all_entries(),
                j <= n,
                result@.len() == n,
                added <= count,
                (count - added) as nat == budget_below(tls, ids@, count as nat, before, j as int - 1),
                forall|k: int|
                    j <= k < n ==> #[trigger] result@[k]@ == bucket_read(
                        tls,
                        ids@,
                        count as nat,
                        before,
                        k,
                    ).map_values(|e: TimelineEntry| entry_ref(e)),
            decreases j,
        {
            let k = j - 1;
            let txns = self.timelines[k].read_timeline(ids[k], count - added, before);
            proof {
                lemma_read_entries_len(tls[k as int], ids@[k as int], (count - added) as nat, before);
                assert(tls[k as int] == self.timeline(k as int).entries());
            }
            added = added + txns.len();
            result.set(k, txns);
            j = k;
        }
        result
    }

    /// The entries with `start < id <= end` of each listed bucket, the
    /// buckets in the order listed; a bucket index out of range yields
    /// nothing.
    pub fn timeline_range(&self, ranges: &Vec<(usize, u64, u64)>) -> (r: Vec<(AccountAddress, ReplayProtector)>)
        requires
            self.wf(),
            ranges@.len() == self.num_timelines(),
        ensures
            r@ == ranges_entries(self.all_entries(), ranges@).map_values(|e: TimelineEntry| entry_ref(e)),
    {
        let ghost tls = self.all_entries();
        let mut all: Vec<(AccountAddress, ReplayProtector)> = Vec::new();
        let mut i: usize = 0;
        while i < ranges.len()
            invariant
                tls == self.all_entries(),
                i <= ranges@.len(),
                all@ == ranges_entries(tls, ranges@.take(i as int)).map_values(|e: TimelineEntry| entry_ref(e)),
            decreases ranges@.len() - i,
        {
            let (bucket, start, end) = ranges[i];
            proof {
                assert(ranges@.take(i as int + 1).drop_last() =~= ranges@.take(i as int));
            }
            if bucket < self.timelines.len() {
                let mut txns = self.timelines[bucket].timeline_range(start, end);
                proof {
                    assert(tls[bucket as int] == self.timeline(bucket as int).entries());
                    let prev = ranges_entries(tls, ranges@.take(i as int));
                    let more = range_entries(tls[bucket as int], start, end);
                    assert((prev + more).map_values(|e: TimelineEntry| entry_ref(e)) =~= prev.map_values(
                        |e: TimelineEntry| entry_ref(e),
                    ) + more.map_values(|e: TimelineEntry| entry_ref(e)));
                }
                all.append(&mut txns);
            } else {
                proof {
                    let prev = ranges_entries(tls, ranges@.take(i as int));
                    assert(prev + Seq::<TimelineEntry>::empty() =~= prev);
                }
            }
            i += 1;
        }
        assert(ranges@.take(ranges@.len() as int) =~= ranges@);
        all
    }

    /// Total number of entries over all buckets.
    pub open spec fn total_size(&self) -> int {
        sum_lens(self.all_entries())
    }

    pub fn size(&self) -> (r: usize)
        requires
            self.wf(),
            self.total_size() <= usize::MAX,
        ensures
            r == self.total_size(),
    {
        let ghost tls = self.all_entries();
        let mut size: usize = 0;
        let mut i: usize = 0;
        proof {
            lemma_sum_lens_bounds(tls);
        }
        while i < self.timelines.len()
            invariant
                tls == self.all_entries(),
                sum_lens(tls) <= usize::MAX,
                i <= tls.len(),
                size == sum_lens(tls.take(i as int)),
                forall|k: int| 0 <= k <= tls.len() ==> sum_lens(#[trigger] tls.take(k)) <= sum_lens(tls),
            decreases tls.len() - i,
        {
            proof {
                assert(tls.take(i as int + 1).drop_last() =~= tls.take(i as int));
                assert(tls[i as int] == self.timeline(i as int).entries());
            }
            size = size + self.timelines[i].size();
            i += 1;
        }
        assert(tls.take(tls.len() as int) =~= tls);
        size
    }

    /// Each bucket's minimum with the number of entries it holds.
    pub fn get_sizes(&self) -> (r: Vec<(u64, usize)>)
        requires
            self.wf(),
        ensures
            r@.len() == self.num_timelines(),
            forall|k: int|
                0 <= k < r@.len() ==> #[trigger] r@[k] == (self.bucket_mins()[k], self.timeline(
                    k,
                ).entries().len() as usize),
    {
        let mut out: Vec<(u64, usize)> = Vec::new();
        let mut i: usize = 0;
        while i < self.timelines.len()
            invariant
                self.wf(),
                i <= self.timelines@.len(),
                out@.len() == i,
                forall|k: int|
                    0 <= k < i ==> #[trigger] out@[k] == (self.bucket_mins()[k], self.timeline(
                        k,
                    ).entries().len() as usize),
            decreases self.timelines@.len() - i,
        {
            out.push((self.bucket_mins[i], self.timelines[i].size()));
            i += 1;
        }
        out
    }

    /// Appends the transaction to the timeline of its ranking score.
    pub fn insert(&mut self, txn: &mut MempoolTransaction, now: u64)
        requires
            old(self).wf(),
            forall|i: int|
                is_bucket_of(old(self).bucket_mins(), old(txn).ranking_score, i) ==> old(self).timeline(
                    i,
                ).next_id() < u64::MAX,
        ensures
            final(self).wf(),
            final(self).bucket_mins() == old(self).bucket_mins(),
            exists|i: int|
                is_bucket_of(old(self).bucket_mins(), old(txn).ranking_score, i) && (forall|k: int|
                    0 <= k < old(self).num_timelines() && k != i ==> #[trigger] final(self).timeline(k)
                        == old(self).timeline(k)) && final(self).timeline(i).next_id() == old(
                    self,
                ).timeline(i).next_id() + 1 && final(self).timeline(i).entries() == old(self).timeline(
                    i,
                ).entries().push(
                    TimelineEntry {
                        id: old(self).timeline(i).next_id(),
                        sender: old(txn).sender,
                        replay_protector: old(txn).replay_protector,
                        inserted_at: now,
                    },
                ) && *final(txn) == (MempoolTransaction {
                    timeline_state: TimelineState::Ready(old(self).timeline(i).next_id()),
                    ..*old(txn)
                }),
    {
        let i = self.bucket_index(txn.ranking_score);
        assert(self.timeline(i as int).wf());
        self.timelines[i].insert(txn, now);
        assert forall|k: int| 0 <= k < self.num_timelines() implies #[trigger] self.timeline(k).wf() by {
            if k != i {
                assert(self.timeline(k) == old(self).timeline(k));
            }
        }
    }

    /// Drops the transaction from the timeline of its ranking score.
    pub fn remove(&mut self, txn: &MempoolTransaction)
        requires
            old(self).wf(),
        ensures
            final(self).wf(),
            final(self).bucket_mins() == old(self).bucket_mins(),
            exists|i: int|
                is_bucket_of(old(self).bucket_mins(), txn.ranking_score, i) && (forall|k: int|
                    0 <= k < old(self).num_timelines() && k != i ==> #[trigger] final(self).timeline(k)
                        == old(self).timeline(k)) && final(self).timeline(i).next_id() == old(
                    self,
                ).timeline(i).next_id() && (txn.timeline_state is Ready ==> final(self).timeline(
                    i,
                ).entries() == drop_id(old(self).timeline(i).entries(), txn.timeline_state->Ready_0)) && (!(
                txn.timeline_state is Ready) ==> final(self).timeline(i).entries() == old(
                    self,
                ).timeline(i).entries()),
    {
        let i = self.bucket_index(txn.ranking_score);
        assert(self.timeline(i as int).wf());
        self.timelines[i].remove(txn);
        assert forall|k: int| 0 <= k < self.num_timelines() implies #[trigger] self.timeline(k).wf() by {
            if k != i {
                assert(self.timeline(k) == old(self).timeline(k));
            }
        }
    }
}

/// The entries the listed `(bucket, start, end)` ranges select, in order.
pub open spec fn ranges_entries(tls: Seq<Seq<TimelineEntry>>, ranges: Seq<(usize, u64, u64)>) -> Seq<TimelineEntry>
    decreases ranges.len(),
{
    if ranges.len() == 0 {
        Seq::empty()
    } else {
        let (b, start, end) = ranges.last();
        ranges_entries(tls, ranges.drop_last()) + if b < tls.len() {
            range_entries(tls[b as int], start, end)
        } else {
            Seq::empty()
        }
    }
}

/// Sum of the lengths of the sequences.
pub open spec fn sum_lens(tls: Seq<Seq<TimelineEntry>>) -> int
    decreases tls.len(),
{
    if tls.len() == 0 {
        0
    } else {
        sum_lens(tls.drop_last()) + tls.last().len()
    }
}

proof fn lemma_sum_lens_bounds(tls: Seq<Seq<TimelineEntry>>)
    ensures
        forall|k: int| 0 <= k <= tls.len() ==> sum_lens(#[trigger] tls.take(k)) <= sum_lens(tls),
    decreases tls.len(),
{
    if tls.len() > 0 {
        lemma_sum_lens_bounds(tls.drop_last());
        assert forall|k: int| 0 <= k <= tls.len() implies sum_lens(#[trigger] tls.take(k)) <= sum_lens(tls) by {
            if k == tls.len() {
                assert(tls.take(k) =~= tls);
            } else {
                assert(tls.take(k) =~= tls.drop_last().take(k));
            }
        }
    } else {
        assert forall|k: int| 0 <= k <= tls.len() implies sum_lens(#[trigger] tls.take(k)) <= sum_lens(tls) by {
            assert(tls.take(k) =~= tls);
        }
    }
}

} // verus!
