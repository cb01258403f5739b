//! One account's admitted transactions, keyed by nonce (orderless) and by
//! sequence number, each in increasing key order.

use vstd::prelude::*;
use crate::transaction::MempoolTransaction;
use crate::types::ReplayProtector;

verus! {

/// Keys strictly increase along `s`.
pub open spec fn keys_increasing(s: Seq<(u64, MempoolTransaction)>) -> bool {
    forall|i: int, j: int| 0 <= i < j < s.len() ==> s[i].0 < s[j].0
}

/// How many entries have a key below `k`; in a sorted sequence, where `k`
/// is or would go.
pub open spec fn key_position(s: Seq<(u64, MempoolTransaction)>, k: u64) -> int
    decreases s.len(),
{
    if s.len() == 0 {
        0
    } else if s.last().0 < k {
        s.len() as int
    } else {
        key_position(s.drop_last(), k)
    }
}

/// Whether `k` is a key of the sorted `s`.
pub open spec fn has_key(s: Seq<(u64, MempoolTransaction)>, k: u64) -> bool {
    key_position(s, k) < s.len() && s[key_position(s, k)].0 == k
}

/// `s` with `txn` stored under `k`, replacing what was there.
pub open spec fn spec_put(s: Seq<(u64, MempoolTransaction)>, k: u64, txn: MempoolTransaction) -> Seq<
    (u64, MempoolTransaction),
> {
    if has_key(s, k) {
        s.update(key_position(s, k), (k, txn))
    } else {
        s.insert(key_position(s, k), (k, txn))
    }
}

/// `s` without key `k`.
pub open spec fn spec_take_out(s: Seq<(u64, MempoolTransaction)>, k: u64) -> Seq<(u64, MempoolTransaction)> {
    if has_key(s, k) {
        s.remove(key_position(s, k))
    } else {
        s
    }
}

/// `s` after storing every entry of `more`, in order.
pub open spec fn spec_put_all(s: Seq<(u64, MempoolTransaction)>, more: Seq<(u64, MempoolTransaction)>) -> Seq<
    (u64, MempoolTransaction),
>
    decreases more.len(),
{
    if more.len() == 0 {
        s
    } else {
        spec_put(spec_put_all(s, more.drop_last()), more.last().0, more.last().1)
    }
}

proof fn lemma_key_position(s: Seq<(u64, MempoolTransaction)>, k: u64, q: int)
    requires
        keys_increasing(s),
        0 <= q <= s.len(),
        forall|i: int| 0 <= i < q ==> s[i].0 < k,
        q == s.len() || s[q].0 >= k,
    ensures
        key_position(s, k) == q,
    decreases s.len(),
{
    if s.len() > 0 {
        if s.last().0 < k {
            assert(q == s.len());
        } else {
            lemma_key_position(s.drop_last(), k, q);
        }
    }
}

proof fn lemma_put_sorted(s: Seq<(u64, MempoolTransaction)>, k: u64, txn: MempoolTransaction)
    requires
        keys_increasing(s),
    ensures
        keys_increasing(spec_put(s, k, txn)),
{
    let p = key_position(s, k);
    lemma_position_bounds(s, k);
    let t = spec_put(s, k, txn);
    if has_key(s, k) {
        assert forall|i: int, j: int| 0 <= i < j < t.len() implies t[i].0 < t[j].0 by {
            assert(t[i].0 == s[i].0 && t[j].0 == s[j].0);
        }
    } else {
        assert forall|i: int, j: int| 0 <= i < j < t.len() implies t[i].0 < t[j].0 by {
            if i < p && j > p {
                assert(t[j] == s[j - 1]);
            } else if i > p {
                assert(t[i] == s[i - 1] && t[j] == s[j - 1]);
            } else if i == p {
                assert(t[j] == s[j - 1]);
            }
        }
    }
}

proof fn lemma_position_bounds(s: Seq<(u64, MempoolTransaction)>, k: u64)
    requires
        keys_increasing(s),
    ensures
        0 <= key_position(s, k) <= s.len(),
        forall|i: int| 0 <= i < key_position(s, k) ==> s[i].0 < k,
        forall|i: int| key_position(s, k) <= i < s.len() ==> s[i].0 >= k,
    decreases s.len(),
{
    if s.len() > 0 {
        let d = s.drop_last();
        lemma_position_bounds(d, k);
        let kp = key_position(s, k);
        if s.last().0 < k {
            assert forall|i: int| 0 <= i < kp implies s[i].0 < k by {
                if i < s.len() - 1 {
                    assert(s[i].0 < s[s.len() - 1].0);
                }
            }
        } else {
            assert forall|i: int| kp <= i < s.len() implies s[i].0 >= k by {
                if i < s.len() - 1 {
                    assert(d[i] == s[i]);
                }
            }
            assert forall|i: int| 0 <= i < kp implies s[i].0 < k by {
                assert(d[i] == s[i]);
            }
        }
    }
}

/// Transactions keyed by one kind of replay protector, in increasing key
/// order.
pub struct KeyedTxns {
    entries: Vec<(u64, MempoolTransaction)>,
}

impl View for KeyedTxns {
    type V = Seq<(u64, MempoolTransaction)>;

    closed spec fn view(&self) -> Seq<(u64, MempoolTransaction)> {
        self.entries@
    }
}

impl KeyedTxns {
    pub open spec fn wf(&self) -> bool {
        keys_increasing(self@)
    }

    pub fn new() -> (r: Self)
        ensures
            r.wf(),
            r@ == Seq::<(u64, MempoolTransaction)>::empty(),
    {
        KeyedTxns { entries: Vec::new() }
    }

    fn position(&self, k: u64) -> (r: usize)
        requires
            self.wf(),
        ensures
            r == key_position(self@, k),
    {
        let mut p: usize = 0;
        while p < self.entries.len() && self.entries[p].0 < k
            invariant
                self.wf(),
                p <= self.entries@.len(),
                forall|i: int| 0 <= i < p ==> self.entries@[i].0 < k,
            decreases self.entries@.len() - p,
        {
            p += 1;
        }
        proof {
            lemma_key_position(self@, k, p as int);
        }
        p
    }

    pub fn get(&self, k: u64) -> (r: Option<&MempoolTransaction>)
        requires
            self.wf(),
        ensures
            r is Some <==> has_key(self@, k),
            r is Some ==> *r->0 == self@[key_position(self@, k)].1,
    {
        let p = self.position(k);
        if p < self.entries.len() && self.entries[p].0 == k {
            Some(&self.entries[p].1)
        } else {
            None
        }
    }

    pub fn put(&mut self, k: u64, txn: MempoolTransaction)
        requires
            old(self).wf(),
        ensures
            final(self).wf(),
            final(self)@ == spec_put(old(self)@, k, txn),
    {
        let p = self.position(k);
        proof {
            lemma_put_sorted(self@, k, txn);
            lemma_position_bounds(self@, k);
        }
        if p < self.entries.len() && self.entries[p].0 == k {
            self.entries.set(p, (k, txn));
        } else {
            self.entries.insert(p, (k, txn));
        }
    }

    pub fn take_out(&mut self, k: u64) -> (r: Option<MempoolTransaction>)
        requires
            old(self).wf(),
        ensures
            final(self).wf(),
            final(self)@ == spec_take_out(old(self)@, k),
            r is Some <==> has_key(old(self)@, k),
            r is Some ==> r->0 == old(self)@[key_position(old(self)@, k)].1,
    {
        let p = self.position(k);
        if p < self.entries.len() && self.entries[p].0 == k {
            let (_, t) = self.entries.remove(p);
            proof {
                let s = old(self)@;
                let t2 = self@;
                assert forall|i: int, j: int| 0 <= i < j < t2.len() implies t2[i].0 < t2[j].0 by {
                    if i >= p {
                        assert(t2[i] == s[i + 1] && t2[j] == s[j + 1]);
                    } else if j >= p {
                        assert(t2[j] == s[j + 1]);
                    }
                }
            }
            Some(t)
        } else {
            None
        }
    }

    /// Stores every entry of `other` (replacing equal keys) and empties it.
    pub fn append(&mut self, other: &mut KeyedTxns)
        requires
            old(self).wf(),
            old(other).wf(),
        ensures
            final(self).wf(),
            final(self)@ == spec_put_all(old(self)@, old(other)@),
            final(other)@ == Seq::<(u64, MempoolTransaction)>::empty(),
    {
        let mut i: usize = 0;
        while i < other.entries.len()
            invariant
                self.wf(),
                other@ == old(other)@,
                i <= other@.len(),
                self@ == spec_put_all(old(self)@, other@.take(i as int)),
            decreases other@.len() - i,
        {
            let (k, t) = other.entries[i];
            assert(other@.take(i as int + 1).drop_last() =~= other@.take(i as int));
            self.put(k, t);
            i += 1;
        }
        assert(other@.take(i as int) =~= other@);
        other.entries.clear();
    }

    pub fn clear(&mut self)
        ensures
            final(self).wf(),
            final(self)@ == Seq::<(u64, MempoolTransaction)>::empty(),
    {
        self.entries.clear();
    }

    /// Moves the entries with keys at or above `k` into a new map.
    pub fn split_off(&mut self, k: u64) -> (r: KeyedTxns)
        requires
            old(self).wf(),
        ensures
            final(self).wf(),
            r.wf(),
            final(self)@ == old(self)@.take(key_position(old(self)@, k)),
            r@ == old(self)@.skip(key_position(old(self)@, k)),
    {
        let p = self.position(k);
        proof {
            lemma_position_bounds(self@, k);
        }
        let rest = self.entries.split_off(p);
        let r = KeyedTxns { entries: rest };
        proof {
            let s = old(self)@;
            assert(self@ =~= s.take(p as int));
            assert(r@ =~= s.skip(p as int));
            assert forall|i: int, j: int| 0 <= i < j < r@.len() implies r@[i].0 < r@[j].0 by {
                assert(r@[i] == s[i + p] && r@[j] == s[j + p]);
            }
        }
        r
    }

    /// The stored transactions in key order.
    pub fn values(&self) -> (r: Vec<MempoolTransaction>)
        ensures
            r@ == self@.map_values(|e: (u64, MempoolTransaction)| e.1),
    {
        let mut out: Vec<MempoolTransaction> = Vec::new();
        let mut i: usize = 0;
        while i < self.entries.len()
            invariant
                i <= self@.len(),
                out@ == self@.take(i as int).map_values(|e: (u64, MempoolTransaction)| e.1),
            decreases self@.len() - i,
        {
            out.push(self.entries[i].1);
            assert(out@ =~= self@.take(i as int + 1).map_values(|e: (u64, MempoolTransaction)| e.1));
            i += 1;
        }
        assert(self@.take(i as int) =~= self@);
        out
    }

    pub fn len(&self) -> (r: usize)
        ensures
            r == self@.len(),
    {
        self.entries.len()
    }
}

/// The key a replay protector files a transaction under.
pub open spec fn protector_key(rp: ReplayProtector) -> u64 {
    match rp {
        ReplayProtector::Nonce(n) => n,
        ReplayProtector::SequenceNumber(n) => n,
    }
}

/// An account's transactions: orderless ones by nonce, the others by
/// sequence number.
pub struct AccountTransactions {
    nonce_transactions: KeyedTxns,
    sequence_number_transactions: KeyedTxns,
}

impl AccountTransactions {
    pub closed spec fn nonces(&self) -> Seq<(u64, MempoolTransaction)> {
        self.nonce_transactions@
    }

    pub closed spec fn seq_nums(&self) -> Seq<(u64, MempoolTransaction)> {
        self.sequence_number_transactions@
    }

    pub open spec fn wf(&self) -> bool {
        keys_increasing(self.nonces()) && keys_increasing(self.seq_nums())
    }

    pub fn new() -> (r: Self)
        ensures
            r.wf(),
            r.nonces() == Seq::<(u64, MempoolTransaction)>::empty(),
            r.seq_nums() == Seq::<(u64, MempoolTransaction)>::empty(),
    {
        AccountTransactions { nonce_transactions: KeyedTxns::new(), sequence_number_transactions: KeyedTxns::new() }
    }

    pub fn get(&self, replay_protector: &ReplayProtector) -> (r: Option<&MempoolTransaction>)
        requires
            self.wf(),
        ensures
            match *replay_protector {
                ReplayProtector::Nonce(n) => (r is Some <==> has_key(self.nonces(), n)) && (r is Some
                    ==> *r->0 == self.nonces()[key_position(self.nonces(), n)].1),
                ReplayProtector::SequenceNumber(n) => (r is Some <==> has_key(self.seq_nums(), n)) && (
                r is Some ==> *r->0 == self.seq_nums()[key_position(self.seq_nums(), n)].1),
            },
    {
        match replay_protector {
            ReplayProtector::Nonce(nonce) => self.nonce_transactions.get(*nonce),
            ReplayProtector::SequenceNumber(sequence_number) => self.sequence_number_transactions.get(
                *sequence_number,
            ),
        }
    }

    /// Files the transaction under its replay protector, replacing what was
    /// there.
    pub fn insert(&mut self, txn: MempoolTransaction)
        requires
            old(self).wf(),
        ensures
            final(self).wf(),
            match txn.replay_protector {
                ReplayProtector::Nonce(n) => final(self).nonces() == spec_put(old(self).nonces(), n, txn)
                    && final(self).seq_nums() == old(self).seq_nums(),
                ReplayProtector::SequenceNumber(n) => final(self).seq_nums() == spec_put(
                    old(self).seq_nums(),
                    n,
                    txn,
                ) && final(self).nonces() == old(self).nonces(),
            },
    {
        match txn.replay_protector {
            ReplayProtector::Nonce(nonce) => self.nonce_transactions.put(nonce, txn),
            ReplayProtector::SequenceNumber(sequence_number) => self.sequence_number_transactions.put(
                sequence_number,
                txn,
            ),
        }
    }

    pub fn remove(&mut self, replay_protector: &ReplayProtector) -> (r: Option<MempoolTransaction>)
        requires
            old(self).wf(),
        ensures
            final(self).wf(),
            match *replay_protector {
                ReplayProtector::Nonce(n) => final(self).nonces() == spec_take_out(old(self).nonces(), n)
                    && final(self).seq_nums() == old(self).seq_nums() && (r is Some <==> has_key(
                    old(self).nonces(),
                    n,
                )),
                ReplayProtector::SequenceNumber(n) => final(self).seq_nums() == spec_take_out(
                    old(self).seq_nums(),
                    n,
                ) && final(self).nonces() == old(self).nonces() && (r is Some <==> has_key(
                    old(self).seq_nums(),
                    n,
                )),
            },
    {
        match replay_protector {
            ReplayProtector::Nonce(nonce) => self.nonce_transactions.take_out(*nonce),
            ReplayProtector::SequenceNumber(sequence_number) => self.sequence_number_transactions.take_out(
                *sequence_number,
            ),
        }
    }

    /// Moves every transaction of `other` here (its entries win on equal
    /// keys) and leaves `other` empty.
    pub fn append(&mut self, other: &mut Self)
        requires
            old(self).wf(),
            old(other).wf(),
        ensures
            final(self).wf(),
            final(other).wf(),
            final(self).nonces() == spec_put_all(old(self).nonces(), old(other).nonces()),
            final(self).seq_nums() == spec_put_all(old(self).seq_nums(), old(other).seq_nums()),
            final(other).nonces().len() == 0,
            final(other).seq_nums().len() == 0,
    {
        self.nonce_transactions.append(&mut other.nonce_transactions);
        self.sequence_number_transactions.append(&mut other.sequence_number_transactions);
    }

    pub fn clear(&mut self)
        ensures
            final(self).wf(),
            final(self).nonces().len() == 0,
            final(self).seq_nums().len() == 0,
    {
        self.nonce_transactions.clear();
        self.sequence_number_transactions.clear();
    }

    /// Splits off the sequence-number transactions at or above
    /// `sequence_number`, together with all orderless ones.
    pub fn seq_num_split_off(&mut self, sequence_number: u64) -> (r: Self)
        requires
            old(self).wf(),
        ensures
            final(self).wf(),
            r.wf(),
            final(self).seq_nums() == old(self).seq_nums().take(
                key_position(old(self).seq_nums(), sequence_number),
            ),
            r.seq_nums() == old(self).seq_nums().skip(key_position(old(self).seq_nums(), sequence_number)),
            r.nonces() == old(self).nonces(),
            final(self).nonces().len() == 0,
    {
        let seqs = self.sequence_number_transactions.split_off(sequence_number);
        let mut nonces = KeyedTxns::new();
        std::mem::swap(&mut nonces, &mut self.nonce_transactions);
        AccountTransactions { sequence_number_transactions: seqs, nonce_transactions: nonces }
    }

    /// All transactions: orderless ones first, each kind in key order.
    pub fn values(&self) -> (r: Vec<MempoolTransaction>)
        ensures
            r@ == self.nonces().map_values(|e: (u64, MempoolTransaction)| e.1) + self.seq_nums().map_values(
                |e: (u64, MempoolTransaction)| e.1,
            ),
    {
        let mut out = self.nonce_transactions.values();
        let mut more = self.sequence_number_transactions.values();
        out.append(&mut more);
        out
    }

    pub fn orderless_txns_len(&self) -> (r: usize)
        ensures
            r == self.nonces().len(),
    {
        self.nonce_transactions.len()
    }

    pub fn seq_num_txns_len(&self) -> (r: usize)
        ensures
            r == self.seq_nums().len(),
    {
        self.sequence_number_transactions.len()
    }

    pub fn len(&self) -> (r: usize)
        requires
            self.nonces().len() + self.seq_nums().len() <= usize::MAX,
        ensures
            r == self.nonces().len() + self.seq_nums().len(),
    {
        self.nonce_transactions.len() + self.sequence_number_transactions.len()
    }
}

} // verus!
