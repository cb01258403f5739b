//! The expiration index: transactions ordered by expiration time, from
//! which garbage collection splits off the expired ones.

use vstd::prelude::*;
use core::cmp::Ordering;
use crate::transaction::MempoolTransaction;
use crate::types::{
    AccountAddress, ReplayProtector, chain, cmp_int, compare_bytes, lex_cmp, reverse, lemma_lex_cmp_equal,
    lemma_lex_cmp_reverse, lemma_lex_cmp_transitive,
};

verus! {

/// A transaction's place in the expiration order. Times are microseconds.
#[derive(Clone, Copy, Debug)]
pub struct TTLOrderingKey {
    pub expiration_time: u64,
    pub address: AccountAddress,
    pub replay_protector: ReplayProtector,
}

/// By expiration time, then sender, then replay protector.
pub open spec fn ttl_cmp(a: TTLOrderingKey, b: TTLOrderingKey) -> Ordering {
    chain(
        cmp_int(a.expiration_time as int, b.expiration_time as int),
        chain(lex_cmp(a.address.bytes@, b.address.bytes@), a.replay_protector.spec_cmp(b.replay_protector)),
    )
}

pub proof fn lemma_ttl_cmp_laws(a: TTLOrderingKey, b: TTLOrderingKey, c: TTLOrderingKey)
    ensures
        ttl_cmp(b, a) == reverse(ttl_cmp(a, b)),
        ttl_cmp(a, b) == Ordering::Less && ttl_cmp(b, c) == Ordering::Less ==> ttl_cmp(a, c)
            == Ordering::Less,
{
    lemma_lex_cmp_reverse(a.address.bytes@, b.address.bytes@);
    lemma_lex_cmp_equal(a.address.bytes@, b.address.bytes@);
    lemma_lex_cmp_equal(b.address.bytes@, c.address.bytes@);
    if lex_cmp(a.address.bytes@, b.address.bytes@) == Ordering::Less && lex_cmp(b.address.bytes@, c.address.bytes@)
        == Ordering::Less {
        lemma_lex_cmp_transitive(a.address.bytes@, b.address.bytes@, c.address.bytes@, Ordering::Less);
    }
}

impl TTLOrderingKey {
    pub fn compare(&self, other: &Self) -> (r: Ordering)
        ensures
            r == ttl_cmp(*self, *other),
    {
        if self.expiration_time < other.expiration_time {
            return Ordering::Less;
        }
        if self.expiration_time > other.expiration_time {
            return Ordering::Greater;
        }
        let by_address = compare_bytes(&self.address.bytes, &other.address.bytes);
        if !matches!(by_address, Ordering::Equal) {
            return by_address;
        }
        self.replay_protector.compare(&other.replay_protector)
    }
}

pub open spec fn ttl_sorted(s: Seq<TTLOrderingKey>) -> bool {
    forall|i: int, j: int| 0 <= i < j < s.len() ==> ttl_cmp(s[i], s[j]) == Ordering::Less
}

/// The expiration key of a transaction.
pub open spec fn ttl_key_of(txn: MempoolTransaction) -> TTLOrderingKey {
    TTLOrderingKey {
        expiration_time: txn.expiration_time,
        address: txn.sender,
        replay_protector: txn.replay_protector,
    }
}

/// Some key of `s` ties with `k`.
pub open spec fn holds_ttl_key(s: Seq<TTLOrderingKey>, k: TTLOrderingKey) -> bool {
    exists|i: int| 0 <= i < s.len() && ttl_cmp(s[i], k) == Ordering::Equal
}

/// The keys of admitted transactions in expiration order.
pub struct TTLIndex {
    data: Vec<TTLOrderingKey>,
}

impl View for TTLIndex {
    type V = Seq<TTLOrderingKey>;

    closed spec fn view(&self) -> Seq<TTLOrderingKey> {
        self.data@
    }
}

/// The expiration bound below which `gc(now)` collects: one microsecond
/// before `now`.
pub open spec fn gc_bound(now: u64) -> u64 {
    if now == 0 {
        0
    } else {
        (now - 1) as u64
    }
}

impl TTLIndex {
    pub open spec fn wf(&self) -> bool {
        ttl_sorted(self@)
    }

    pub fn new() -> (r: Self)
        ensures
            r.wf(),
            r@ == Seq::<TTLOrderingKey>::empty(),
    {
        TTLIndex { data: Vec::new() }
    }

    /// Adds the transaction's key unless it is held already.
    pub fn insert(&mut self, txn: &MempoolTransaction)
        requires
            old(self).wf(),
        ensures
            final(self).wf(),
            holds_ttl_key(old(self)@, ttl_key_of(*txn)) ==> final(self)@ == old(self)@,
            !holds_ttl_key(old(self)@, ttl_key_of(*txn)) ==> exists|p: int|
                0 <= p <= old(self)@.len() && final(self)@ == old(self)@.insert(p, ttl_key_of(*txn)),
    {
        let key = TTLOrderingKey {
            expiration_time: txn.expiration_time,
            address: txn.sender,
            replay_protector: txn.replay_protector,
        };
        let n = self.data.len();
        let mut i: usize = 0;
        while i < n
            invariant
                n == self.data@.len(),
                self.data@ == old(self).data@,
                ttl_sorted(self.data@),
                i <= n,
                key == ttl_key_of(*txn),
                forall|j: int| 0 <= j < i ==> ttl_cmp(self.data@[j], key) == Ordering::Less,
            ensures
                i <= n,
                forall|j: int| 0 <= j < i ==> ttl_cmp(self.data@[j], key) == Ordering::Less,
                i < n ==> ttl_cmp(self.data@[i as int], key) != Ordering::Less,
            decreases n - i,
        {
            if !matches!(self.data[i].compare(&key), Ordering::Less) {
                break;
            }
            i += 1;
        }
        if i < n && matches!(self.data[i].compare(&key), Ordering::Equal) {
            assert(ttl_cmp(self@[i as int], ttl_key_of(*txn)) == Ordering::Equal);
            return;
        }
        proof {
            assert forall|j: int| 0 <= j < self@.len() implies ttl_cmp(self@[j], key) != Ordering::Equal by {
                if j >= i {
                    lemma_ttl_cmp_laws(self@[i as int], key, key);
                    if j > i {
                        lemma_ttl_cmp_laws(self@[j], key, key);
                        lemma_ttl_cmp_laws(key, self@[i as int], self@[j]);
                    }
                }
            }
        }
        proof {
            let s = self.data@;
            assert forall|j: int| i <= j < s.len() implies ttl_cmp(key, s[j]) == Ordering::Less by {
                lemma_ttl_cmp_laws(s[i as int], key, key);
                if j > i {
                    lemma_ttl_cmp_laws(key, s[i as int], s[j]);
                }
            }
        }
        self.data.insert(i, key);
        proof {
            let s = old(self).data@;
            let t = self.data@;
            assert(t[i as int] == key);
            assert forall|a: int, b: int| 0 <= a < b < t.len() implies ttl_cmp(t[a], t[b]) == Ordering::Less by {
                if a < i && b > i {
                    lemma_ttl_cmp_laws(t[a], key, t[b]);
                }
            }
            assert(t == s.insert(i as int, key));
        }
    }

    /// Removes the transaction's key, if held.
    pub fn remove(&mut self, txn: &MempoolTransaction)
        requires
            old(self).wf(),
        ensures
            final(self).wf(),
            !holds_ttl_key(old(self)@, ttl_key_of(*txn)) ==> final(self)@ == old(self)@,
            holds_ttl_key(old(self)@, ttl_key_of(*txn)) ==> exists|p: int|
                0 <= p < old(self)@.len() && ttl_cmp(old(self)@[p], ttl_key_of(*txn)) == Ordering::Equal
                    && final(self)@ == old(self)@.remove(p),
    {
        let key = TTLOrderingKey {
            expiration_time: txn.expiration_time,
            address: txn.sender,
            replay_protector: txn.replay_protector,
        };
        let n = self.data.len();
        let mut i: usize = 0;
        while i < n
            invariant
                n == self.data@.len(),
                self.data@ == old(self).data@,
                ttl_sorted(self.data@),
                i <= n,
                key == ttl_key_of(*txn),
                forall|j: int| 0 <= j < i ==> ttl_cmp(self.data@[j], key) != Ordering::Equal,
            decreases n - i,
        {
            if matches!(self.data[i].compare(&key), Ordering::Equal) {
                let ghost s = self.data@;
                self.data.remove(i);
                proof {
                    let t = self.data@;
                    assert(ttl_cmp(s[i as int], key) == Ordering::Equal);
                    assert(holds_ttl_key(s, key));
                    assert forall|a: int, b: int| 0 <= a < b < t.len() implies ttl_cmp(t[a], t[b])
                        == Ordering::Less by {
                        if a >= i {
                            assert(t[a] == s[a + 1] && t[b] == s[b + 1]);
                        } else if b >= i {
                            assert(t[b] == s[b + 1]);
                        }
                    }
                }
                return;
            }
            i += 1;
        }
    }

    /// Collects every key whose expiration time is below one microsecond
    /// before `now`; they leave the index and come back in order.
    pub fn gc(&mut self, now: u64) -> (r: Vec<TTLOrderingKey>)
        requires
            old(self).wf(),
        ensures
            final(self).wf(),
            r@ + final(self)@ == old(self)@,
            forall|i: int| 0 <= i < r@.len() ==> #[trigger] r@[i].expiration_time < gc_bound(now),
            forall|i: int|
                0 <= i < final(self)@.len() ==> #[trigger] final(self)@[i].expiration_time >= gc_bound(now),
    {
        let bound = if now == 0 {
            0
        } else {
            now - 1
        };
        let mut p: usize = 0;
        while p < self.data.len() && self.data[p].expiration_time < bound
            invariant
                self.data@ == old(self).data@,
                ttl_sorted(self.data@),
                bound == gc_bound(now),
                p <= self.data@.len(),
                forall|j: int| 0 <= j < p ==> (#[trigger] self.data@[j]).expiration_time < bound,
            decreases self.data@.len() - p,
        {
            p += 1;
        }
        let ghost s = self.data@;
        let mut expired = self.data.split_off(p);
        std::mem::swap(&mut self.data, &mut expired);
        proof {
            assert(expired@ =~= s.take(p as int));
            assert(self.data@ =~= s.skip(p as int));
            assert(expired@ + self.data@ =~= s);
            assert forall|i: int| 0 <= i < self.data@.len() implies #[trigger] self.data@[i].expiration_time
                >= bound by {
                assert(self.data@[i] == s[i + p]);
                if p < s.len() && i > 0 {
                    assert(ttl_cmp(s[p as int], s[i + p]) == Ordering::Less);
                }
            }
            assert forall|a: int, b: int| 0 <= a < b < self.data@.len() implies ttl_cmp(
                self.data@[a],
                self.data@[b],
            ) == Ordering::Less by {
                assert(self.data@[a] == s[a + p] && self.data@[b] == s[b + p]);
            }
        }
        expired
    }

    pub fn size(&self) -> (r: usize)
        ensures
            r == self@.len(),
    {
        self.data.len()
    }

    /// The held keys in expiration order.
    pub fn iter(&self) -> (r: Vec<TTLOrderingKey>)
        ensures
            r@ == self@,
    {
        self.data.clone()
    }
}

} // verus!
