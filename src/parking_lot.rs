//! The parking lot: transactions that are admitted but not yet executable
//! (a sequence-number gap), grouped by sender, with random eviction.

use vstd::prelude::*;
use core::cmp::Ordering;
use crate::priority::OrderedQueueKey;
use crate::transaction::MempoolTransaction;
use crate::types::{
    AccountAddress, HashValue, ReplayProtector, chain, cmp_int, compare_bytes, lex_cmp, reverse,
    lemma_lex_cmp_equal, lemma_lex_cmp_reverse, lemma_lex_cmp_transitive,
};

verus! {

/// A logical reference to a mempool transaction.
#[derive(Clone, Copy, Debug)]
pub struct TxnPointer {
    pub sender: AccountAddress,
    pub replay_protector: ReplayProtector,
    pub hash: HashValue,
}

impl TxnPointer {
    pub fn from_txn(txn: &MempoolTransaction) -> (r: Self)
        ensures
            r.sender == txn.sender,
            r.replay_protector == txn.replay_protector,
            r.hash == txn.committed_hash,
    {
        TxnPointer { sender: txn.sender, replay_protector: txn.replay_protector, hash: txn.committed_hash }
    }

    pub fn from_key(key: &OrderedQueueKey) -> (r: Self)
        ensures
            r.sender == key.address,
            r.replay_protector == key.replay_protector,
            r.hash == key.hash,
    {
        TxnPointer { sender: key.address, replay_protector: key.replay_protector, hash: key.hash }
    }
}

/// Relies on `rand::Rng::gen_range` over `0..len` with the thread-local
/// generator: a value in the range, which must not be empty.
#[verifier::external_body]
fn random_index(len: usize) -> (r: usize)
    requires
        len > 0,
    ensures
        r < len,
{
    rand::Rng::gen_range(&mut rand::thread_rng(), 0..len)
}

/// Order of parked entries: by sequence number, then digest.
pub open spec fn entry_cmp(a: (u64, HashValue), b: (u64, HashValue)) -> Ordering {
    chain(cmp_int(a.0 as int, b.0 as int), lex_cmp(a.1.bytes@, b.1.bytes@))
}

proof fn lemma_entry_cmp_laws(a: (u64, HashValue), b: (u64, HashValue), c: (u64, HashValue))
    ensures
        entry_cmp(b, a) == reverse(entry_cmp(a, b)),
        (entry_cmp(a, b) == Ordering::Equal) == (a.0 == b.0 && a.1.bytes@ == b.1.bytes@),
        entry_cmp(a, b) == Ordering::Less && entry_cmp(b, c) == Ordering::Less ==> entry_cmp(a, c)
            == Ordering::Less,
{
    lemma_lex_cmp_reverse(a.1.bytes@, b.1.bytes@);
    lemma_lex_cmp_equal(a.1.bytes@, b.1.bytes@);
    lemma_lex_cmp_equal(b.1.bytes@, c.1.bytes@);
    if lex_cmp(a.1.bytes@, b.1.bytes@) == Ordering::Less && lex_cmp(b.1.bytes@, c.1.bytes@) == Ordering::Less {
        lemma_lex_cmp_transitive(a.1.bytes@, b.1.bytes@, c.1.bytes@, Ordering::Less);
    }
}

fn compare_entry(a: &(u64, HashValue), b: &(u64, HashValue)) -> (r: Ordering)
    ensures
        r == entry_cmp(*a, *b),
{
    if a.0 < b.0 {
        Ordering::Less
    } else if a.0 > b.0 {
        Ordering::Greater
    } else {
        compare_bytes(&a.1.bytes, &b.1.bytes)
    }
}

pub open spec fn entries_sorted(s: Seq<(u64, HashValue)>) -> bool {
    forall|i: int, j: int| 0 <= i < j < s.len() ==> entry_cmp(s[i], s[j]) == Ordering::Less
}

/// `s` holds an entry equal to `e`.
pub open spec fn has_entry(s: Seq<(u64, HashValue)>, e: (u64, HashValue)) -> bool {
    exists|i: int| 0 <= i < s.len() && entry_cmp(s[i], e) == Ordering::Equal
}

/// Total number of parked entries.
pub open spec fn total_entries(d: Seq<(AccountAddress, Seq<(u64, HashValue)>)>) -> int
    decreases d.len(),
{
    if d.len() == 0 {
        0
    } else {
        total_entries(d.drop_last()) + d.last().1.len()
    }
}

/// Whether the parking lot view `d` holds `(seq, hash)` for `account`.
pub open spec fn is_parked(d: Seq<(AccountAddress, Seq<(u64, HashValue)>)>, account: Seq<u8>, e: (u64, HashValue)) -> bool {
    exists|i: int| 0 <= i < d.len() && d[i].0.bytes@ == account && has_entry(d[i].1, e)
}

proof fn lemma_total_update(d: Seq<(AccountAddress, Seq<(u64, HashValue)>)>, i: int, x: (AccountAddress, Seq<(u64, HashValue)>))
    requires
        0 <= i < d.len(),
    ensures
        total_entries(d.update(i, x)) == total_entries(d) - d[i].1.len() + x.1.len(),
    decreases d.len(),
{
    if i < d.len() - 1 {
        lemma_total_update(d.drop_last(), i, x);
        assert(d.update(i, x).drop_last() =~= d.drop_last().update(i, x));
    } else {
        assert(d.update(i, x).drop_last() =~= d.drop_last());
    }
}

proof fn lemma_total_covers(d: Seq<(AccountAddress, Seq<(u64, HashValue)>)>, i: int)
    requires
        0 <= i < d.len(),
    ensures
        total_entries(d) >= d[i].1.len(),
        total_entries(d) >= 0,
    decreases d.len(),
{
    lemma_total_nonneg(d.drop_last());
    if i < d.len() - 1 {
        lemma_total_covers(d.drop_last(), i);
    }
}

proof fn lemma_total_nonneg(d: Seq<(AccountAddress, Seq<(u64, HashValue)>)>)
    ensures
        total_entries(d) >= 0,
    decreases d.len(),
{
    if d.len() > 0 {
        lemma_total_nonneg(d.drop_last());
    }
}

/// Parked transactions per sender; each sender's entries are non-empty and
/// ordered, and no sender appears twice.
pub struct ParkingLotIndex {
    data: Vec<(AccountAddress, Vec<(u64, HashValue)>)>,
    size: usize,
}

impl View for ParkingLotIndex {
    type V = Seq<(AccountAddress, Seq<(u64, HashValue)>)>;

    closed spec fn view(&self) -> Seq<(AccountAddress, Seq<(u64, HashValue)>)> {
        self.data@.map_values(|e: (AccountAddress, Vec<(u64, HashValue)>)| (e.0, e.1@))
    }
}

impl ParkingLotIndex {
    pub closed spec fn spec_size(&self) -> usize {
        self.size
    }

    pub open spec fn wf(&self) -> bool {
        &&& forall|i: int| 0 <= i < self@.len() ==> (#[trigger] self@[i]).1.len() > 0 && entries_sorted(
            self@[i].1,
        )
        &&& forall|i: int, j: int|
            0 <= i < j < self@.len() ==> (#[trigger] self@[i]).0.bytes@ != (#[trigger] self@[j]).0.bytes@
        &&& self.spec_size() == total_entries(self@)
    }

    pub fn new() -> (r: Self)
        ensures
            r.wf(),
            r@ == Seq::<(AccountAddress, Seq<(u64, HashValue)>)>::empty(),
            r.spec_size() == 0,
    {
        let r = ParkingLotIndex { data: Vec::new(), size: 0 };
        assert(r@ =~= Seq::<(AccountAddress, Seq<(u64, HashValue)>)>::empty());
        r
    }

    fn find_account(&self, account: &AccountAddress) -> (r: Option<usize>)
        requires
            self.wf(),
        ensures
            r is Some ==> r->0 < self@.len() && self@[r->0 as int].0.bytes@ == account.bytes@,
            r is None ==> forall|i: int| 0 <= i < self@.len() ==> (#[trigger] self@[i]).0.bytes@ != account.bytes@,
    {
        let mut i: usize = 0;
        while i < self.data.len()
            invariant
                i <= self@.len(),
                self@.len() == self.data@.len(),
                forall|j: int| 0 <= j < i ==> (#[trigger] self@[j]).0.bytes@ != account.bytes@,
            decreases self@.len() - i,
        {
            let c = compare_bytes(&self.data[i].0.bytes, &account.bytes);
            proof {
                lemma_lex_cmp_equal(self.data@[i as int].0.bytes@, account.bytes@);
                assert(self@[i as int].0 == self.data@[i as int].0);
            }
            if matches!(c, Ordering::Equal) {
                return Some(i);
            }
            i += 1;
        }
        None
    }

    /// Whether the sequence-number transaction `(seq, hash)` of `account`
    /// is parked; orderless transactions never are.
    pub fn contains(&self, account: &AccountAddress, replay_protector: ReplayProtector, hash: HashValue) -> (r: bool)
        requires
            self.wf(),
        ensures
            match replay_protector {
                ReplayProtector::SequenceNumber(seq) => r == is_parked(self@, account.bytes@, (seq, hash)),
                ReplayProtector::Nonce(_) => !r,
            },
    {
        match replay_protector {
            ReplayProtector::SequenceNumber(seq) => {
                match self.find_account(account) {
                    Some(i) => {
                        let e = (seq, hash);
                        let set = &self.data[i].1;
                        assert(self@[i as int].1 == set@);
                        let mut k: usize = 0;
                        while k < set.len()
                            invariant
                                k <= set@.len(),
                                i < self@.len(),
                                self@[i as int].1 == set@,
                                self@[i as int].0.bytes@ == account.bytes@,
                                e == (seq, hash),
                                replay_protector == ReplayProtector::SequenceNumber(seq),
                                forall|j: int| 0 <= j < k ==> entry_cmp(set@[j], e) != Ordering::Equal,
                            decreases set@.len() - k,
                        {
                            if matches!(compare_entry(&set[k], &e), Ordering::Equal) {
                                assert(entry_cmp(set@[k as int], e) == Ordering::Equal);
                                assert(has_entry(self@[i as int].1, e));
                                assert(is_parked(self@, account.bytes@, e));
                                return true;
                            }
                            k += 1;
                        }
                        proof {
                            assert(self@[i as int].1 == set@);
                            assert forall|j: int| 0 <= j < self@.len() && self@[j].0.bytes@ == account.bytes@
                                implies !has_entry(self@[j].1, e) by {
                                if j != i {
                                    assert(self@[j].0.bytes@ != self@[i as int].0.bytes@);
                                }
                            }
                        }
                        false
                    },
                    None => false,
                }
            },
            ReplayProtector::Nonce(_) => false,
        }
    }

    pub fn size(&self) -> (r: usize)
        ensures
            r == self.spec_size(),
    {
        self.size
    }

    /// Each parked sender with its number of parked transactions.
    pub fn get_addresses(&self) -> (r: Vec<(AccountAddress, u64)>)
        ensures
            r@.len() == self@.len(),
            forall|i: int|
                0 <= i < r@.len() ==> (#[trigger] r@[i]).0 == self@[i].0 && r@[i].1 == self@[i].1.len(),
    {
        let mut out: Vec<(AccountAddress, u64)> = Vec::new();
        let mut i: usize = 0;
        while i < self.data.len()
            invariant
                i <= self.data@.len(),
                self@.len() == self.data@.len(),
                out@.len() == i,
                forall|j: int|
                    0 <= j < i ==> (#[trigger] out@[j]).0 == self@[j].0 && out@[j].1 == self@[j].1.len(),
            decreases self.data@.len() - i,
        {
            assert(self@[i as int].1 == self.data@[i as int].1@);
            out.push((self.data[i].0, self.data[i].1.len() as u64));
            i += 1;
        }
        out
    }

    /// The highest parked entry of the sender at position `i`.
    pub fn poppable_at(&self, i: usize) -> (r: Option<TxnPointer>)
        requires
            self.wf(),
        ensures
            r is None <==> i >= self@.len(),
            r is Some ==> r->0.sender == self@[i as int].0 && r->0.replay_protector
                == ReplayProtector::SequenceNumber(self@[i as int].1.last().0) && r->0.hash == self@[i as int].1.last().1,
    {
        if i >= self.data.len() {
            return None;
        }
        let set = &self.data[i].1;
        assert(self@[i as int].1 == set@);
        let last = set[set.len() - 1];
        Some(
            TxnPointer {
                sender: self.data[i].0,
                replay_protector: ReplayProtector::SequenceNumber(last.0),
                hash: last.1,
            },
        )
    }

    /// A parked transaction to evict: the highest entry of a sender drawn
    /// at random; none when nothing is parked.
    pub fn get_poppable(&self) -> (r: Option<TxnPointer>)
        requires
            self.wf(),
        ensures
            r is None <==> self@.len() == 0,
            r is Some ==> exists|i: int|
                0 <= i < self@.len() && r->0.sender == self@[i].0 && r->0.replay_protector
                    == ReplayProtector::SequenceNumber(self@[i].1.last().0) && r->0.hash == self@[i].1.last().1,
    {
        if self.data.len() == 0 {
            return None;
        }
        let i = random_index(self.data.len());
        self.poppable_at(i)
    }
}

} // verus!

verus! {

/// `new` is `old` with `e` added, unless an equal entry was there.
pub open spec fn entry_added(old: Seq<(u64, HashValue)>, e: (u64, HashValue), new: Seq<(u64, HashValue)>) -> bool {
    ||| has_entry(old, e) && new == old
    ||| !has_entry(old, e) && exists|p: int| 0 <= p <= old.len() && new == old.insert(p, e)
}

/// `new` is `old` without the entry equal to `e`, if there was one.
pub open spec fn entry_removed(old: Seq<(u64, HashValue)>, e: (u64, HashValue), new: Seq<(u64, HashValue)>) -> bool {
    ||| !has_entry(old, e) && new == old
    ||| exists|p: int| 0 <= p < old.len() && entry_cmp(old[p], e) == Ordering::Equal && new == old.remove(p)
}

fn insert_entry(set: &mut Vec<(u64, HashValue)>, e: (u64, HashValue)) -> (r: bool)
    requires
        entries_sorted(old(set)@),
    ensures
        entries_sorted(final(set)@),
        r == !has_entry(old(set)@, e),
        entry_added(old(set)@, e, final(set)@),
{
    let n = set.len();
    let mut i: usize = 0;
    while i < n
        invariant
            n == set@.len(),
            set@ == old(set)@,
            entries_sorted(set@),
            i <= n,
            forall|j: int| 0 <= j < i ==> entry_cmp(set@[j], e) == Ordering::Less,
        ensures
            i <= n,
            forall|j: int| 0 <= j < i ==> entry_cmp(set@[j], e) == Ordering::Less,
            i < n ==> entry_cmp(set@[i as int], e) != Ordering::Less,
        decreases n - i,
    {
        if !matches!(compare_entry(&set[i], &e), Ordering::Less) {
            break;
        }
        i += 1;
    }
    if i < n && matches!(compare_entry(&set[i], &e), Ordering::Equal) {
        assert(entry_cmp(set@[i as int], e) == Ordering::Equal);
        return false;
    }
    proof {
        let s = set@;
        assert forall|j: int| 0 <= j < s.len() implies entry_cmp(s[j], e) != Ordering::Equal by {
            if j >= i {
                lemma_entry_cmp_laws(s[i as int], e, e);
                if j > i {
                    lemma_entry_cmp_laws(s[j], e, e);
                    lemma_entry_cmp_laws(e, s[i as int], s[j]);
                }
            }
        }
        assert forall|j: int| i <= j < s.len() implies entry_cmp(e, s[j]) == Ordering::Less by {
            lemma_entry_cmp_laws(s[i as int], e, e);
            if j > i {
                lemma_entry_cmp_laws(e, s[i as int], s[j]);
            }
        }
    }
    set.insert(i, e);
    proof {
        let s = old(set)@;
        let t = set@;
        assert(t[i as int] == e);
        assert forall|a: int, b: int| 0 <= a < b < t.len() implies entry_cmp(t[a], t[b]) == Ordering::Less by {
            if a < i && b > i {
                lemma_entry_cmp_laws(t[a], e, t[b]);
            }
        }
        assert(t == s.insert(i as int, e));
    }
    true
}

fn remove_entry(set: &mut Vec<(u64, HashValue)>, e: (u64, HashValue)) -> (r: bool)
    requires
        entries_sorted(old(set)@),
    ensures
        entries_sorted(final(set)@),
        r == has_entry(old(set)@, e),
        entry_removed(old(set)@, e, final(set)@),
        final(set)@.len() == old(set)@.len() - (if r { 1int } else { 0int }),
{
    let n = set.len();
    let mut i: usize = 0;
    while i < n
        invariant
            n == set@.len(),
            set@ == old(set)@,
            entries_sorted(set@),
            i <= n,
            forall|j: int| 0 <= j < i ==> entry_cmp(set@[j], e) != Ordering::Equal,
        decreases n - i,
    {
        if matches!(compare_entry(&set[i], &e), Ordering::Equal) {
            let ghost s = set@;
            set.remove(i);
            proof {
                let t = set@;
                assert(entry_cmp(s[i as int], e) == Ordering::Equal);
                assert(has_entry(s, e));
                assert forall|a: int, b: int| 0 <= a < b < t.len() implies entry_cmp(t[a], t[b])
                    == Ordering::Less by {
                    if a >= i {
                        assert(t[a] == s[a + 1] && t[b] == s[b + 1]);
                    } else if b >= i {
                        assert(t[b] == s[b + 1]);
                    }
                }
            }
            return true;
        }
        i += 1;
    }
    false
}

impl ParkingLotIndex {
    /// Parks a sequence-number transaction under its sender, stamping its
    /// park time with `now` if it had none; orderless transactions are
    /// always ready and are left alone.
    pub fn insert(&mut self, txn: &mut MempoolTransaction, now: u64)
        requires
            old(self).wf(),
            old(self).spec_size() < usize::MAX,
        ensures
            final(self).wf(),
            match old(txn).replay_protector {
                ReplayProtector::SequenceNumber(seq) => {
                    let e = (seq, old(txn).committed_hash);
                    &&& *final(txn) == (MempoolTransaction {
                        park_time: if old(txn).park_time is None {
                            Some(now)
                        } else {
                            old(txn).park_time
                        },
                        was_parked: true,
                        ..*old(txn)
                    })
                    &&& (exists|i: int|
                        0 <= i < old(self)@.len() && old(self)@[i].0.bytes@ == old(txn).sender.bytes@
                            && final(self)@.len() == old(self)@.len() && final(self)@[i].0 == old(self)@[i].0
                            && entry_added(old(self)@[i].1, e, final(self)@[i].1) && forall|j: int|
                            0 <= j < old(self)@.len() && j != i ==> #[trigger] final(self)@[j] == old(
                                self,
                            )@[j]) || ((forall|i: int|
                        0 <= i < old(self)@.len() ==> (#[trigger] old(self)@[i]).0.bytes@ != old(
                            txn,
                        ).sender.bytes@) && final(self)@ == old(self)@.push((old(txn).sender, seq![e])))
                },
                ReplayProtector::Nonce(_) => final(self)@ == old(self)@ && *final(txn) == *old(txn),
            },
    {
        match txn.replay_protector {
            ReplayProtector::SequenceNumber(seq) => {
                if txn.park_time.is_none() {
                    txn.park_time = Some(now);
                }
                txn.was_parked = true;
                let e = (seq, txn.committed_hash);
                let ghost od = self@;
                match self.find_account(&txn.sender) {
                    Some(i) => {
                        let (addr, mut set) = self.data.remove(i);
                        proof {
                            assert(od[i as int].1 == set@);
                        }
                        let added = insert_entry(&mut set, e);
                        let ghost new_set = set@;
                        self.data.insert(i, (addr, set));
                        proof {
                            assert(self@ =~= od.update(i as int, (addr, new_set)));
                            lemma_total_update(od, i as int, (addr, new_set));
                            if !added {
                                assert(new_set == od[i as int].1);
                            }
                        }
                        if added {
                            self.size = self.size + 1;
                        }
                        proof {
                            assert(self@[i as int].1.len() > 0);
                            assert forall|a: int| 0 <= a < self@.len() implies (#[trigger] self@[a]).1.len() > 0
                                && entries_sorted(self@[a].1) by {
                                if a != i {
                                    assert(self@[a] == od[a]);
                                }
                            }
                            assert forall|a: int, b: int| 0 <= a < b < self@.len() implies (#[trigger] self@[a]).0.bytes@
                                != (#[trigger] self@[b]).0.bytes@ by {
                                assert(self@[a].0 == od[a].0 && self@[b].0 == od[b].0);
                            }
                        }
                    },
                    None => {
                        let mut set: Vec<(u64, HashValue)> = Vec::new();
                        set.push(e);
                        self.data.push((txn.sender, set));
                        self.size = self.size + 1;
                        proof {
                            assert(self@ =~= od.push((txn.sender, seq![e])));
                            assert(self@.drop_last() =~= od);
                            assert forall|a: int, b: int| 0 <= a < b < self@.len() implies (#[trigger] self@[a]).0.bytes@
                                != (#[trigger] self@[b]).0.bytes@ by {
                                if b == self@.len() - 1 {
                                    assert(self@[a] == od[a]);
                                } else {
                                    assert(self@[a] == od[a] && self@[b] == od[b]);
                                }
                            }
                        }
                    },
                }
            },
            ReplayProtector::Nonce(_) => {},
        }
    }

    /// Unparks a sequence-number transaction; a sender left with nothing
    /// parked is dropped, the last sender taking its place.
    pub fn remove(&mut self, txn: &MempoolTransaction)
        requires
            old(self).wf(),
        ensures
            final(self).wf(),
            match txn.replay_protector {
                ReplayProtector::SequenceNumber(seq) => {
                    let e = (seq, txn.committed_hash);
                    ||| (forall|i: int|
                        0 <= i < old(self)@.len() ==> (#[trigger] old(self)@[i]).0.bytes@ != txn.sender.bytes@)
                        && final(self)@ == old(self)@
                    ||| exists|i: int, rest: Seq<(u64, HashValue)>|
                        0 <= i < old(self)@.len() && old(self)@[i].0.bytes@ == txn.sender.bytes@
                            && entry_removed(old(self)@[i].1, e, rest) && (rest.len() > 0 ==> final(self)@
                            == old(self)@.update(i, (old(self)@[i].0, rest))) && (rest.len() == 0
                            ==> final(self)@ == old(self)@.update(i, old(self)@.last()).drop_last())
                },
                ReplayProtector::Nonce(_) => final(self)@ == old(self)@,
            },
    {
        match txn.replay_protector {
            ReplayProtector::SequenceNumber(seq) => {
                let e = (seq, txn.committed_hash);
                let ghost od = self@;
                match self.find_account(&txn.sender) {
                    Some(i) => {
                        let (addr, mut set) = self.data.remove(i);
                        proof {
                            assert(od[i as int].1 == set@);
                        }
                        let removed = remove_entry(&mut set, e);
                        let ghost rest = set@;
                        proof {
                            lemma_total_update(od, i as int, (addr, rest));
                            lemma_total_covers(od, i as int);
                        }
                        if set.len() == 0 {
                            self.data.insert(i, (addr, set));
                            self.data.swap_remove(i);
                            proof {
                                lemma_total_update(od, i as int, od.last());
                                assert(self@ =~= od.update(i as int, od.last()).drop_last());
                                let u = od.update(i as int, od.last());
                                assert(total_entries(u) == total_entries(u.drop_last()) + u.last().1.len());
                                if i as int == od.len() - 1 {
                                    assert(u.last() == od.last());
                                } else {
                                    assert(u.last() == od.last());
                                }
                                assert forall|a: int, b: int| 0 <= a < b < self@.len() implies (#[trigger] self@[a]).0.bytes@
                                    != (#[trigger] self@[b]).0.bytes@ by {
                                    if a == i {
                                        assert(self@[a] == od[od.len() - 1] && self@[b] == od[b]);
                                    } else if b == i {
                                        assert(self@[b] == od[od.len() - 1] && self@[a] == od[a]);
                                    } else {
                                        assert(self@[a] == od[a] && self@[b] == od[b]);
                                    }
                                }
                                assert forall|a: int| 0 <= a < self@.len() implies (#[trigger] self@[a]).1.len() > 0
                                    && entries_sorted(self@[a].1) by {
                                    if a == i {
                                        assert(self@[a] == od[od.len() - 1]);
                                    } else {
                                        assert(self@[a] == od[a]);
                                    }
                                }
                            }
                            if removed {
                                self.size = self.size - 1;
                            }
                        } else {
                            self.data.insert(i, (addr, set));
                            proof {
                                assert(self@ =~= od.update(i as int, (addr, rest)));
                                assert forall|a: int| 0 <= a < self@.len() implies (#[trigger] self@[a]).1.len() > 0
                                    && entries_sorted(self@[a].1) by {
                                    if a != i {
                                        assert(self@[a] == od[a]);
                                    }
                                }
                                assert forall|a: int, b: int| 0 <= a < b < self@.len() implies (#[trigger] self@[a]).0.bytes@
                                    != (#[trigger] self@[b]).0.bytes@ by {
                                    assert(self@[a].0 == od[a].0 && self@[b].0 == od[b].0);
                                }
                            }
                            if removed {
                                self.size = self.size - 1;
                            }
                        }
                    },
                    None => {},
                }
            },
            ReplayProtector::Nonce(_) => {},
        }
    }
}

} // verus!
