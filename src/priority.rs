//! The mempool's priority order and the index that keeps admitted
//! transactions sorted by it.

use vstd::prelude::*;
use core::cmp::Ordering;
use crate::cex::CEXOrder;
use crate::transaction::MempoolTransaction;
use crate::types::{
    AccountAddress, HashValue, ReplayProtector, chain, cmp_int, compare_bytes, lex_cmp, reverse,
    lemma_lex_cmp_equal, lemma_lex_cmp_reverse, lemma_lex_cmp_transitive,
};

verus! {

/// Type class of a transaction; earlier variants have higher priority.
#[derive(Clone, Copy, Debug, Eq, PartialEq, Hash, PartialOrd, Ord)]
pub enum TransactionTypePriority {
    CEX,
    Platform,
    Contract,
    Script,
    Others,
}

impl TransactionTypePriority {
    /// Position in the order of type classes (lower is more urgent).
    pub open spec fn rank(self) -> int {
        match self {
            TransactionTypePriority::CEX => 0,
            TransactionTypePriority::Platform => 1,
            TransactionTypePriority::Contract => 2,
            TransactionTypePriority::Script => 3,
            TransactionTypePriority::Others => 4,
        }
    }

    pub fn rank_of(&self) -> (r: u8)
        ensures
            r as int == self.rank(),
    {
        match self {
            TransactionTypePriority::CEX => 0,
            TransactionTypePriority::Platform => 1,
            TransactionTypePriority::Contract => 2,
            TransactionTypePriority::Script => 3,
            TransactionTypePriority::Others => 4,
        }
    }

    /// The class of a payload: exchange orders, entry functions of a special
    /// (framework) address, other entry functions, scripts, and the rest.
    pub open spec fn spec_from_payload(payload: TransactionPayload) -> Self {
        match payload {
            TransactionPayload::CEX(_) => TransactionTypePriority::CEX,
            TransactionPayload::EntryFunction { module_address } => {
                if is_special_address(module_address.bytes@) {
                    TransactionTypePriority::Platform
                } else {
                    TransactionTypePriority::Contract
                }
            },
            TransactionPayload::Script => TransactionTypePriority::Script,
            TransactionPayload::V1 { executable } => match executable {
                TransactionExecutable::EntryFunction { module_address } => {
                    if is_special_address(module_address.bytes@) {
                        TransactionTypePriority::Platform
                    } else {
                        TransactionTypePriority::Contract
                    }
                },
                TransactionExecutable::Script => TransactionTypePriority::Script,
                TransactionExecutable::Empty => TransactionTypePriority::Others,
            },
            TransactionPayload::Multisig => TransactionTypePriority::Others,
        }
    }

    pub fn from_payload(payload: &TransactionPayload) -> (r: Self)
        ensures
            r == Self::spec_from_payload(*payload),
    {
        match payload {
            TransactionPayload::CEX(_) => TransactionTypePriority::CEX,
            TransactionPayload::EntryFunction { module_address } => {
                if is_special(module_address) {
                    TransactionTypePriority::Platform
                } else {
                    TransactionTypePriority::Contract
                }
            },
            TransactionPayload::Script => TransactionTypePriority::Script,
            TransactionPayload::V1 { executable } => match executable {
                TransactionExecutable::EntryFunction { module_address } => {
                    if is_special(module_address) {
                        TransactionTypePriority::Platform
                    } else {
                        TransactionTypePriority::Contract
                    }
                },
                TransactionExecutable::Script => TransactionTypePriority::Script,
                TransactionExecutable::Empty => TransactionTypePriority::Others,
            },
            TransactionPayload::Multisig => TransactionTypePriority::Others,
        }
    }
}

/// A special (framework) address is one of `0x0` to `0xf`.
pub open spec fn is_special_address(b: Seq<u8>) -> bool {
    &&& forall|i: int| 0 <= i < b.len() - 1 ==> b[i] == 0
    &&& b[b.len() - 1] < 16
}

pub fn is_special(address: &AccountAddress) -> (r: bool)
    ensures
        r == is_special_address(address.bytes@),
{
    let mut i: usize = 0;
    while i < 31
        invariant
            i <= 31,
            address.bytes@.len() == 32,
            forall|j: int| 0 <= j < i ==> address.bytes@[j] == 0,
        decreases 31 - i,
    {
        if address.bytes[i] != 0 {
            return false;
        }
        i += 1;
    }
    address.bytes[31] < 16
}

/// What a multi-payload transaction runs.
#[derive(Clone, Copy, Debug, Eq, PartialEq)]
pub enum TransactionExecutable {
    Script,
    EntryFunction { module_address: AccountAddress },
    Empty,
}

/// The parts of a transaction payload that decide its type class.
#[derive(Clone, Copy, Debug, Eq, PartialEq)]
pub enum TransactionPayload {
    Script,
    EntryFunction { module_address: AccountAddress },
    Multisig,
    CEX(CEXOrder),
    V1 { executable: TransactionExecutable },
}

/// The position of a transaction in the mempool's priority order. Times
/// are microseconds since the Unix epoch.
#[derive(Clone, Copy, Debug, Hash)]
pub struct OrderedQueueKey {
    pub transaction_type_priority: TransactionTypePriority,
    /// Exchange timestamp; present only for exchange orders.
    pub cex_timestamp: Option<u64>,
    pub gas_ranking_score: u64,
    pub expiration_time: u64,
    pub insertion_time: u64,
    pub address: AccountAddress,
    pub replay_protector: ReplayProtector,
    pub hash: HashValue,
}

/// Among exchange orders: an earlier timestamp is greater, and a present
/// timestamp beats an absent one.
pub open spec fn cex_timestamp_cmp(a: Option<u64>, b: Option<u64>) -> Ordering {
    match (a, b) {
        (Some(x), Some(y)) => cmp_int(y as int, x as int),
        (Some(_), None) => Ordering::Greater,
        (None, Some(_)) => Ordering::Less,
        (None, None) => Ordering::Equal,
    }
}

/// The priority order; `Greater` means higher priority. It compares, in
/// turn: the type class (lower class is greater); for exchange orders the
/// exchange timestamp; the gas ranking score (higher is greater); the
/// insertion time (earlier is greater); the sender address (lower is
/// greater); the replay protector (higher is greater); the digest (lower is
/// greater). The expiration time takes no part.
pub open spec fn priority_cmp(a: OrderedQueueKey, b: OrderedQueueKey) -> Ordering {
    chain(
        cmp_int(b.transaction_type_priority.rank(), a.transaction_type_priority.rank()),
        chain(
            if a.transaction_type_priority == TransactionTypePriority::CEX {
                cex_timestamp_cmp(a.cex_timestamp, b.cex_timestamp)
            } else {
                Ordering::Equal
            },
            chain(
                cmp_int(a.gas_ranking_score as int, b.gas_ranking_score as int),
                chain(
                    cmp_int(b.insertion_time as int, a.insertion_time as int),
                    chain(
                        lex_cmp(b.address.bytes@, a.address.bytes@),
                        chain(
                            a.replay_protector.spec_cmp(b.replay_protector),
                            lex_cmp(b.hash.bytes@, a.hash.bytes@),
                        ),
                    ),
                ),
            ),
        ),
    )
}

/// The two keys agree on every field that the priority order reads.
pub open spec fn same_priority_fields(a: OrderedQueueKey, b: OrderedQueueKey) -> bool {
    &&& a.transaction_type_priority == b.transaction_type_priority
    &&& a.transaction_type_priority == TransactionTypePriority::CEX ==> a.cex_timestamp
        == b.cex_timestamp
    &&& a.gas_ranking_score == b.gas_ranking_score
    &&& a.insertion_time == b.insertion_time
    &&& a.address.bytes@ == b.address.bytes@
    &&& a.replay_protector == b.replay_protector
    &&& a.hash.bytes@ == b.hash.bytes@
}

impl OrderedQueueKey {
    /// Compares by priority; `Greater` means `self` comes first.
    pub fn compare(&self, other: &Self) -> (r: Ordering)
        ensures
            r == priority_cmp(*self, *other),
    {
        let ra = self.transaction_type_priority.rank_of();
        let rb = other.transaction_type_priority.rank_of();
        if ra < rb {
            return Ordering::Greater;
        }
        if ra > rb {
            return Ordering::Less;
        }
        if ra == 0 {
            match (self.cex_timestamp, other.cex_timestamp) {
                (Some(x), Some(y)) => {
                    if x < y {
                        return Ordering::Greater;
                    }
                    if x > y {
                        return Ordering::Less;
                    }
                },
                (Some(_), None) => {
                    return Ordering::Greater;
                },
                (None, Some(_)) => {
                    return Ordering::Less;
                },
                (None, None) => {},
            }
        }
        if self.gas_ranking_score > other.gas_ranking_score {
            return Ordering::Greater;
        }
        if self.gas_ranking_score < other.gas_ranking_score {
            return Ordering::Less;
        }
        if self.insertion_time < other.insertion_time {
            return Ordering::Greater;
        }
        if self.insertion_time > other.insertion_time {
            return Ordering::Less;
        }
        let by_address = compare_bytes(&other.address.bytes, &self.address.bytes);
        if !matches!(by_address, Ordering::Equal) {
            return by_address;
        }
        let by_replay = self.replay_protector.compare(&other.replay_protector);
        if !matches!(by_replay, Ordering::Equal) {
            return by_replay;
        }
        compare_bytes(&other.hash.bytes, &self.hash.bytes)
    }
}

impl PartialEq for OrderedQueueKey {
    fn eq(&self, other: &Self) -> (r: bool) {
        matches!(self.compare(other), Ordering::Equal)
    }
}

impl vstd::std_specs::cmp::PartialEqSpecImpl for OrderedQueueKey {
    open spec fn obeys_eq_spec() -> bool {
        true
    }

    open spec fn eq_spec(&self, other: &Self) -> bool {
        priority_cmp(*self, *other) == Ordering::Equal
    }
}

impl PartialOrd for OrderedQueueKey {
    fn partial_cmp(&self, other: &Self) -> (r: Option<Ordering>) {
        Some(self.compare(other))
    }
}

impl vstd::std_specs::cmp::PartialOrdSpecImpl for OrderedQueueKey {
    open spec fn obeys_partial_cmp_spec() -> bool {
        true
    }

    open spec fn partial_cmp_spec(&self, other: &Self) -> Option<Ordering> {
        Some(priority_cmp(*self, *other))
    }
}

/// Swapping two keys reverses their comparison, and two keys compare
/// `Equal` exactly when they agree on every field the order reads.
pub proof fn lemma_priority_cmp_basics(a: OrderedQueueKey, b: OrderedQueueKey)
    ensures
        priority_cmp(b, a) == reverse(priority_cmp(a, b)),
        (priority_cmp(a, b) == Ordering::Equal) == same_priority_fields(a, b),
{
    lemma_lex_cmp_reverse(a.address.bytes@, b.address.bytes@);
    lemma_lex_cmp_reverse(a.hash.bytes@, b.hash.bytes@);
    lemma_lex_cmp_equal(a.address.bytes@, b.address.bytes@);
    lemma_lex_cmp_equal(a.hash.bytes@, b.hash.bytes@);
}

/// The priority order is total: two keys that differ in a field the order
/// reads compare one way or the other, never both, and the order is
/// transitive.
pub proof fn lemma_priority_total_order(a: OrderedQueueKey, b: OrderedQueueKey, c: OrderedQueueKey)
    ensures
        !same_priority_fields(a, b) ==> (priority_cmp(a, b) == Ordering::Less) != (priority_cmp(
            b,
            a,
        ) == Ordering::Less),
        !same_priority_fields(a, b) ==> priority_cmp(a, b) != Ordering::Equal,
        priority_cmp(a, b) == Ordering::Less && priority_cmp(b, c) == Ordering::Less
            ==> priority_cmp(a, c) == Ordering::Less,
        priority_cmp(a, b) == Ordering::Greater && priority_cmp(b, c) == Ordering::Greater
            ==> priority_cmp(a, c) == Ordering::Greater,
{
    lemma_priority_cmp_basics(a, b);
    lemma_priority_cmp_basics(b, c);
    lemma_priority_cmp_basics(a, c);
    lemma_priority_transitive(a, b, c, Ordering::Less);
    lemma_priority_transitive(a, b, c, Ordering::Greater);
}

proof fn lemma_priority_transitive(a: OrderedQueueKey, b: OrderedQueueKey, c: OrderedQueueKey, o: Ordering)
    requires
        o != Ordering::Equal,
    ensures
        priority_cmp(a, b) == o && priority_cmp(b, c) == o ==> priority_cmp(a, c) == o,
{
    lemma_lex_cmp_equal(a.address.bytes@, b.address.bytes@);
    lemma_lex_cmp_equal(b.address.bytes@, c.address.bytes@);
    lemma_lex_cmp_equal(a.hash.bytes@, b.hash.bytes@);
    lemma_lex_cmp_equal(b.hash.bytes@, c.hash.bytes@);
    lemma_lex_cmp_equal(b.address.bytes@, a.address.bytes@);
    lemma_lex_cmp_equal(c.address.bytes@, b.address.bytes@);
    lemma_lex_cmp_equal(c.address.bytes@, a.address.bytes@);
    lemma_lex_cmp_equal(b.hash.bytes@, a.hash.bytes@);
    lemma_lex_cmp_equal(c.hash.bytes@, b.hash.bytes@);
    lemma_lex_cmp_equal(c.hash.bytes@, a.hash.bytes@);
    if lex_cmp(b.address.bytes@, a.address.bytes@) == o && lex_cmp(c.address.bytes@, b.address.bytes@) == o {
        lemma_lex_cmp_transitive(c.address.bytes@, b.address.bytes@, a.address.bytes@, o);
    }
    if lex_cmp(b.hash.bytes@, a.hash.bytes@) == o && lex_cmp(c.hash.bytes@, b.hash.bytes@) == o {
        lemma_lex_cmp_transitive(c.hash.bytes@, b.hash.bytes@, a.hash.bytes@, o);
    }
}

/// An exchange order outranks every other transaction, whatever its gas or
/// insertion time.
pub proof fn lemma_cex_precedence(a: OrderedQueueKey, b: OrderedQueueKey)
    requires
        a.transaction_type_priority == TransactionTypePriority::CEX,
        b.transaction_type_priority != TransactionTypePriority::CEX,
    ensures
        priority_cmp(a, b) == Ordering::Greater,
        priority_cmp(b, a) == Ordering::Less,
{
}

/// Among exchange orders with timestamps, the earlier timestamp outranks the
/// later one, whatever the gas.
pub proof fn lemma_cex_timestamp_order(a: OrderedQueueKey, b: OrderedQueueKey, ta: u64, tb: u64)
    requires
        a.transaction_type_priority == TransactionTypePriority::CEX,
        b.transaction_type_priority == TransactionTypePriority::CEX,
        a.cex_timestamp == Some(ta),
        b.cex_timestamp == Some(tb),
        ta < tb,
    ensures
        priority_cmp(a, b) == Ordering::Greater,
{
}

} // verus!

verus! {

/// The exchange timestamp a payload carries, if it is an exchange order.
pub open spec fn payload_cex_timestamp(p: TransactionPayload) -> Option<u64> {
    match p {
        TransactionPayload::CEX(o) => Some(o.order.timestamp),
        _ => None,
    }
}

/// The priority key of a transaction.
pub open spec fn key_of(txn: MempoolTransaction) -> OrderedQueueKey {
    OrderedQueueKey {
        transaction_type_priority: TransactionTypePriority::spec_from_payload(txn.payload),
        cex_timestamp: payload_cex_timestamp(txn.payload),
        gas_ranking_score: txn.ranking_score,
        expiration_time: txn.expiration_time,
        insertion_time: txn.insertion_time,
        address: txn.sender,
        replay_protector: txn.replay_protector,
        hash: txn.committed_hash,
    }
}

pub fn make_key(txn: &MempoolTransaction) -> (r: OrderedQueueKey)
    ensures
        r == key_of(*txn),
{
    let cex_timestamp = match &txn.payload {
        TransactionPayload::CEX(cex_order) => Some(cex_order.order.timestamp),
        _ => None,
    };
    OrderedQueueKey {
        transaction_type_priority: TransactionTypePriority::from_payload(&txn.payload),
        cex_timestamp,
        gas_ranking_score: txn.ranking_score,
        expiration_time: txn.expiration_time,
        insertion_time: txn.insertion_time,
        address: txn.sender,
        replay_protector: txn.replay_protector,
        hash: txn.committed_hash,
    }
}

/// Keys in strictly decreasing priority.
pub open spec fn sorted_by_priority(s: Seq<OrderedQueueKey>) -> bool {
    forall|i: int, j: int| 0 <= i < j < s.len() ==> priority_cmp(s[i], s[j]) == Ordering::Greater
}

/// Some key of `s` ties with `k` in the priority order.
pub open spec fn holds_key(s: Seq<OrderedQueueKey>, k: OrderedQueueKey) -> bool {
    exists|i: int| 0 <= i < s.len() && priority_cmp(s[i], k) == Ordering::Equal
}

/// The mempool's main queue: admitted transactions' keys, highest priority
/// first. Two keys that tie in the priority order are never both held.
pub struct PriorityIndex {
    data: Vec<OrderedQueueKey>,
}

impl View for PriorityIndex {
    type V = Seq<OrderedQueueKey>;

    closed spec fn view(&self) -> Seq<OrderedQueueKey> {
        self.data@
    }
}

impl PriorityIndex {
    pub open spec fn wf(&self) -> bool {
        sorted_by_priority(self@)
    }

    pub fn new() -> (r: Self)
        ensures
            r.wf(),
            r@ == Seq::<OrderedQueueKey>::empty(),
    {
        PriorityIndex { data: Vec::new() }
    }

    /// Adds a key unless one that ties with it is held; says whether it
    /// added.
    pub fn insert_key(&mut self, key: OrderedQueueKey) -> (r: bool)
        requires
            old(self).wf(),
        ensures
            final(self).wf(),
            r == !holds_key(old(self)@, key),
            r ==> exists|p: int| 0 <= p <= old(self)@.len() && final(self)@ == old(self)@.insert(p, key),
            !r ==> final(self)@ == old(self)@,
    {
        let n = self.data.len();
        let mut i: usize = 0;
        while i < n
            invariant
                n == self.data@.len(),
                self.data@ == old(self).data@,
                sorted_by_priority(self.data@),
                i <= n,
                forall|j: int| 0 <= j < i ==> priority_cmp(self.data@[j], key) == Ordering::Greater,
            ensures
                i <= n,
                forall|j: int| 0 <= j < i ==> priority_cmp(self.data@[j], key) == Ordering::Greater,
                i == n || priority_cmp(self.data@[i as int], key) == Ordering::Less,
            decreases n - i,
        {
            let c = self.data[i].compare(&key);
            if matches!(c, Ordering::Equal) {
                return false;
            }
            if matches!(c, Ordering::Less) {
                break;
            }
            i += 1;
        }
        proof {
            let s = self.data@;
            assert forall|j: int| i <= j < s.len() implies priority_cmp(key, s[j]) == Ordering::Greater by {
                lemma_priority_cmp_basics(s[i as int], key);
                lemma_priority_cmp_basics(key, s[j]);
                if j > i {
                    lemma_priority_total_order(s[j], s[i as int], key);
                    lemma_priority_cmp_basics(s[j], s[i as int]);
                    lemma_priority_cmp_basics(s[j], key);
                }
            }
            assert forall|j: int| 0 <= j < s.len() implies priority_cmp(s[j], key) != Ordering::Equal by {
                if j >= i {
                    lemma_priority_cmp_basics(key, s[j]);
                }
            }
        }
        self.data.insert(i, key);
        proof {
            let s = old(self).data@;
            let t = self.data@;
            assert(t == s.insert(i as int, key));
            assert forall|a: int, b: int| 0 <= a < b < t.len() implies priority_cmp(t[a], t[b])
                == Ordering::Greater by {
                if a < i && b > i {
                    lemma_priority_total_order(t[a], key, t[b]);
                }
            }
        }
        true
    }

    /// Adds a transaction's key unless a tying key is held.
    pub fn insert(&mut self, txn: &MempoolTransaction) -> (r: bool)
        requires
            old(self).wf(),
        ensures
            final(self).wf(),
            r == !holds_key(old(self)@, key_of(*txn)),
            r ==> exists|p: int|
                0 <= p <= old(self)@.len() && final(self)@ == old(self)@.insert(p, key_of(*txn)),
            !r ==> final(self)@ == old(self)@,
    {
        let key = make_key(txn);
        self.insert_key(key)
    }

    /// Removes the key that ties with the transaction's key, if any.
    pub fn remove(&mut self, txn: &MempoolTransaction) -> (r: bool)
        requires
            old(self).wf(),
        ensures
            final(self).wf(),
            r == holds_key(old(self)@, key_of(*txn)),
            r ==> exists|p: int|
                0 <= p < old(self)@.len() && priority_cmp(old(self)@[p], key_of(*txn)) == Ordering::Equal
                    && final(self)@ == old(self)@.remove(p),
            !r ==> final(self)@ == old(self)@,
    {
        let key = make_key(txn);
        let n = self.data.len();
        let mut i: usize = 0;
        while i < n
            invariant
                n == self.data@.len(),
                self.data@ == old(self).data@,
                sorted_by_priority(self.data@),
                i <= n,
                forall|j: int| 0 <= j < i ==> priority_cmp(self.data@[j], key) != Ordering::Equal,
                key == key_of(*txn),
            decreases n - i,
        {
            if matches!(self.data[i].compare(&key), Ordering::Equal) {
                self.data.remove(i);
                proof {
                    let s = old(self).data@;
                    assert(0 <= i < s.len() && priority_cmp(s[i as int], key) == Ordering::Equal);
                    assert(holds_key(old(self)@, key));
                    assert(self@ == old(self)@.remove(i as int));
                    let t = self.data@;
                    assert(t == s.remove(i as int));
                    assert forall|a: int, b: int| 0 <= a < b < t.len() implies priority_cmp(t[a], t[b])
                        == Ordering::Greater by {
                        if a >= i {
                            assert(t[a] == s[a + 1] && t[b] == s[b + 1]);
                        } else if b >= i {
                            assert(t[b] == s[b + 1]);
                        }
                    }
                }
                return true;
            }
            i += 1;
        }
        false
    }

    /// Whether a key tying with the transaction's key is held.
    pub fn contains(&self, txn: &MempoolTransaction) -> (r: bool)
        ensures
            r == holds_key(self@, key_of(*txn)),
    {
        let key = make_key(txn);
        let mut i: usize = 0;
        while i < self.data.len()
            invariant
                i <= self.data@.len(),
                forall|j: int| 0 <= j < i ==> priority_cmp(self.data@[j], key) != Ordering::Equal,
                key == key_of(*txn),
            decreases self.data@.len() - i,
        {
            if matches!(self.data[i].compare(&key), Ordering::Equal) {
                assert(priority_cmp(self.data@[i as int], key) == Ordering::Equal);
                assert(holds_key(self@, key));
                return true;
            }
            i += 1;
        }
        false
    }

    /// The held keys, highest priority first.
    pub fn iter(&self) -> (r: Vec<OrderedQueueKey>)
        ensures
            r@ == self@,
    {
        self.data.clone()
    }

    pub fn size(&self) -> (r: usize)
        ensures
            r == self@.len(),
    {
        self.data.len()
    }
}

} // verus!
