//! Identifiers shared by the mempool and the consensus DAG: account
//! addresses, content digests and replay protectors, with their orders.

use vstd::prelude::*;
use core::cmp::Ordering;

verus! {

/// A 32-byte account address.
#[derive(Clone, Copy, Debug, Hash, Eq, PartialEq)]
pub struct AccountAddress {
    pub bytes: [u8; 32],
}

/// A 32-byte content digest.
#[derive(Clone, Copy, Debug, Hash, Eq, PartialEq)]
pub struct HashValue {
    pub bytes: [u8; 32],
}

/// Either a per-sender sequence number or an orderless nonce. Nonces sort
/// before sequence numbers; within a kind, by value.
#[derive(Clone, Copy, Debug, Hash, Eq, PartialEq)]
pub enum ReplayProtector {
    Nonce(u64),
    SequenceNumber(u64),
}

/// Three-way comparison of two integers.
pub open spec fn cmp_int(x: int, y: int) -> Ordering {
    if x < y {
        Ordering::Less
    } else if x > y {
        Ordering::Greater
    } else {
        Ordering::Equal
    }
}

/// The opposite ordering.
pub open spec fn reverse(o: Ordering) -> Ordering {
    match o {
        Ordering::Less => Ordering::Greater,
        Ordering::Greater => Ordering::Less,
        Ordering::Equal => Ordering::Equal,
    }
}

/// `first`, unless it is `Equal`, in which case `next` decides.
pub open spec fn chain(first: Ordering, next: Ordering) -> Ordering {
    if first == Ordering::Equal {
        next
    } else {
        first
    }
}

/// Lexicographic order of two byte strings of the same length.
pub open spec fn lex_cmp(a: Seq<u8>, b: Seq<u8>) -> Ordering
    decreases a.len(),
{
    if a.len() == 0 || b.len() == 0 {
        Ordering::Equal
    } else if a[0] < b[0] {
        Ordering::Less
    } else if a[0] > b[0] {
        Ordering::Greater
    } else {
        lex_cmp(a.drop_first(), b.drop_first())
    }
}

/// Swapping the arguments of `lex_cmp` reverses the result.
pub proof fn lemma_lex_cmp_reverse(a: Seq<u8>, b: Seq<u8>)
    ensures
        lex_cmp(b, a) == reverse(lex_cmp(a, b)),
    decreases a.len(),
{
    if a.len() != 0 && b.len() != 0 && a[0] == b[0] {
        lemma_lex_cmp_reverse(a.drop_first(), b.drop_first());
    }
}

/// On strings of equal length, `lex_cmp` is `Equal` exactly on equal strings.
pub proof fn lemma_lex_cmp_equal(a: Seq<u8>, b: Seq<u8>)
    requires
        a.len() == b.len(),
    ensures
        (lex_cmp(a, b) == Ordering::Equal) == (a == b),
    decreases a.len(),
{
    if a.len() != 0 {
        lemma_lex_cmp_equal(a.drop_first(), b.drop_first());
        if a[0] == b[0] && a.drop_first() == b.drop_first() {
            assert(a =~= seq![a[0]] + a.drop_first());
            assert(b =~= seq![b[0]] + b.drop_first());
        }
    } else {
        assert(a =~= b);
    }
}

/// `lex_cmp` is transitive on strings of equal length.
pub proof fn lemma_lex_cmp_transitive(a: Seq<u8>, b: Seq<u8>, c: Seq<u8>, o: Ordering)
    requires
        a.len() == b.len(),
        b.len() == c.len(),
        o != Ordering::Equal,
        lex_cmp(a, b) == o,
        lex_cmp(b, c) == o,
    ensures
        lex_cmp(a, c) == o,
    decreases a.len(),
{
    if a[0] == b[0] && b[0] == c[0] {
        lemma_lex_cmp_transitive(a.drop_first(), b.drop_first(), c.drop_first(), o);
    }
}

/// Compares two 32-byte strings lexicographically.
pub fn compare_bytes(a: &[u8; 32], b: &[u8; 32]) -> (r: Ordering)
    ensures
        r == lex_cmp(a@, b@),
{
    let mut i: usize = 0;
    assert(a@.skip(0) =~= a@);
    assert(b@.skip(0) =~= b@);
    while i < 32
        invariant
            i <= 32,
            a@.len() == 32,
            b@.len() == 32,
            lex_cmp(a@, b@) == lex_cmp(a@.skip(i as int), b@.skip(i as int)),
        decreases 32 - i,
    {
        assert(a@.skip(i as int).drop_first() =~= a@.skip(i as int + 1));
        assert(b@.skip(i as int).drop_first() =~= b@.skip(i as int + 1));
        if a[i] < b[i] {
            return Ordering::Less;
        }
        if a[i] > b[i] {
            return Ordering::Greater;
        }
        i += 1;
    }
    Ordering::Equal
}

impl ReplayProtector {
    /// The kind's position in the order: nonces first.
    pub open spec fn kind_rank(self) -> int {
        match self {
            ReplayProtector::Nonce(_) => 0,
            ReplayProtector::SequenceNumber(_) => 1,
        }
    }

    pub open spec fn value(self) -> int {
        match self {
            ReplayProtector::Nonce(n) => n as int,
            ReplayProtector::SequenceNumber(n) => n as int,
        }
    }

    /// The order on replay protectors: by kind, then by value.
    pub open spec fn spec_cmp(self, other: Self) -> Ordering {
        chain(cmp_int(self.kind_rank(), other.kind_rank()), cmp_int(self.value(), other.value()))
    }

    pub fn compare(&self, other: &Self) -> (r: Ordering)
        ensures
            r == self.spec_cmp(*other),
    {
        match (self, other) {
            (ReplayProtector::Nonce(_), ReplayProtector::SequenceNumber(_)) => Ordering::Less,
            (ReplayProtector::SequenceNumber(_), ReplayProtector::Nonce(_)) => Ordering::Greater,
            (ReplayProtector::Nonce(x), ReplayProtector::Nonce(y))
            | (ReplayProtector::SequenceNumber(x), ReplayProtector::SequenceNumber(y)) => {
                if *x < *y {
                    Ordering::Less
                } else if *x > *y {
                    Ordering::Greater
                } else {
                    Ordering::Equal
                }
            },
        }
    }
}

} // verus!

verus! {

/// The `n` little-endian bytes of `v` (the low `n` bytes when `v` is larger).
pub open spec fn le_bytes(v: nat, n: nat) -> Seq<u8>
    decreases n,
{
    if n == 0 {
        Seq::empty()
    } else {
        seq![(v % 256) as u8] + le_bytes(v / 256, (n - 1) as nat)
    }
}

/// The number whose little-endian bytes are `s`.
pub open spec fn le_value(s: Seq<u8>) -> nat
    decreases s.len(),
{
    if s.len() == 0 {
        0
    } else {
        s[0] as nat + 256 * le_value(s.drop_first())
    }
}

pub proof fn lemma_le_bytes_len(v: nat, n: nat)
    ensures
        le_bytes(v, n).len() == n,
    decreases n,
{
    if n > 0 {
        lemma_le_bytes_len(v / 256, (n - 1) as nat);
    }
}

/// Reading back the bytes of a value that fits gives the value.
pub proof fn lemma_le_value_of_bytes(v: nat, n: nat)
    requires
        v < pow256(n),
    ensures
        le_value(le_bytes(v, n)) == v,
    decreases n,
{
    if n > 0 {
        lemma_le_bytes_len(v / 256, (n - 1) as nat);
        assert(v / 256 < pow256((n - 1) as nat)) by (nonlinear_arith)
            requires
                v < pow256(n),
                pow256(n) == 256 * pow256((n - 1) as nat),
        ;
        lemma_le_value_of_bytes(v / 256, (n - 1) as nat);
        let s = le_bytes(v, n);
        assert(s.drop_first() =~= le_bytes(v / 256, (n - 1) as nat));
    } else {
        assert(v == 0);
    }
}

/// `256` to the power `n`.
pub open spec fn pow256(n: nat) -> nat
    decreases n,
{
    if n == 0 {
        1
    } else {
        256 * pow256((n - 1) as nat)
    }
}

/// The eight little-endian bytes of `v`.
pub fn u64_le_bytes(v: u64) -> (r: Vec<u8>)
    ensures
        r@ == le_bytes(v as nat, 8),
{
    let mut out: Vec<u8> = Vec::new();
    let mut x: u64 = v;
    let mut k: usize = 0;
    while k < 8
        invariant
            k <= 8,
            out@ + le_bytes(x as nat, (8 - k) as nat) == le_bytes(v as nat, 8),
        decreases 8 - k,
    {
        let ghost before = out@;
        out.push((x % 256) as u8);
        assert(le_bytes(x as nat, (8 - k) as nat) == seq![(x as nat % 256) as u8] + le_bytes(
            x as nat / 256,
            (8 - k - 1) as nat,
        ));
        assert(out@ + le_bytes(x as nat / 256, (8 - k - 1) as nat) =~= before + le_bytes(
            x as nat,
            (8 - k) as nat,
        ));
        x = x / 256;
        k += 1;
    }
    assert(out@ + le_bytes(x as nat, 0) =~= out@);
    out
}

} // verus!
