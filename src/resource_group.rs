//! Resource groups: maps from tag to bytes kept under one storage key, with
//! their serialized size maintained as tags are added and removed.

use vstd::prelude::*;
use crate::delayed_field::RESERVED_TAG;
use crate::types::{le_bytes, lex_cmp};

verus! {

/// The largest length BCS writes for a sequence or a map.
pub const MAX_SEQUENCE_LENGTH: u64 = 2147483647;

/// Number of bytes of the ULEB128 encoding of `v`.
pub open spec fn uleb_len(v: nat) -> nat
    decreases v,
{
    if v < 128 {
        1
    } else {
        1 + uleb_len(v / 128)
    }
}

pub fn uleb128_len(v: u64) -> (r: u64)
    ensures
        r == uleb_len(v as nat),
        1 <= r <= 10,
{
    let mut n: u64 = 1;
    let mut x: u64 = v;
    assert(pow128((n - 1) as nat) == 1) by {
        reveal_with_fuel(pow128, 1);
    }
    assert(x as int * pow128((n - 1) as nat) <= v) by (nonlinear_arith)
        requires
            pow128((n - 1) as nat) == 1,
            x == v,
    ;
    while x >= 128
        invariant
            n + uleb_len(x as nat) == 1 + uleb_len(v as nat),
            1 <= n <= 10,
            x as int * pow128((n - 1) as nat) <= v,
        decreases x,
    {
        proof {
            lemma_uleb_step(v, x, (n - 1) as nat);
        }
        x = x / 128;
        n = n + 1;
    }
    n
}

/// `128` to the power `n`.
pub open spec fn pow128(n: nat) -> nat
    decreases n,
{
    if n == 0 {
        1
    } else {
        128 * pow128((n - 1) as nat)
    }
}

proof fn lemma_uleb_step(v: u64, x: u64, k: nat)
    requires
        x >= 128,
        x as int * pow128(k) <= v,
    ensures
        k + 1 <= 9,
        (x / 128) as int * pow128(k + 1) <= v,
{
    lemma_pow128_positive(k);
    assert(pow128(k + 1) == 128 * pow128(k));
    assert(pow128(k + 1) <= x as int * pow128(k)) by (nonlinear_arith)
        requires pow128(k + 1) == 128 * pow128(k), x >= 128;
    if k + 1 >= 10 {
        lemma_pow128_mono(10, k + 1);
        assert(pow128(10) == 0x40_0000_0000_0000_0000) by {
            reveal_with_fuel(pow128, 11);
        }
    }
    assert((x / 128) as int * pow128(k + 1) <= x as int * pow128(k)) by (nonlinear_arith)
        requires pow128(k + 1) == 128 * pow128(k), pow128(k) >= 1;
}

proof fn lemma_pow128_positive(a: nat)
    ensures
        pow128(a) >= 1,
    decreases a,
{
    if a > 0 {
        lemma_pow128_positive((a - 1) as nat);
    }
}

proof fn lemma_pow128_mono(a: nat, b: nat)
    requires
        a <= b,
    ensures
        pow128(a) <= pow128(b),
    decreases b,
{
    if b > a {
        lemma_pow128_mono(a, (b - 1) as nat);
        lemma_pow128_positive((b - 1) as nat);
    }
}

/// Bytes an entry adds to a group: four for the tag, the value's length
/// prefix, and the value.
pub open spec fn entry_size(value_len: nat) -> nat {
    4 + uleb_len(value_len) + value_len
}

/// A group's entries as tags and bytes.
pub open spec fn entries_view(es: Seq<(u32, Vec<u8>)>) -> Seq<(u32, Seq<u8>)> {
    es.map_values(|e: (u32, Vec<u8>)| (e.0, e.1@))
}

/// Sum of the entries' sizes.
pub open spec fn entries_size(s: Seq<(u32, Seq<u8>)>) -> nat
    decreases s.len(),
{
    if s.len() == 0 {
        0
    } else {
        entries_size(s.drop_last()) + entry_size(s.last().1.len())
    }
}

/// The serialized size of a group: its entry count's length prefix and its
/// entries.
pub open spec fn group_size(s: Seq<(u32, Seq<u8>)>) -> nat {
    uleb_len(s.len()) + entries_size(s)
}

pub open spec fn tags_increasing(s: Seq<(u32, Seq<u8>)>) -> bool {
    forall|i: int, j: int| 0 <= i < j < s.len() ==> s[i].0 < s[j].0
}

/// How many entries have a tag below `tag`; in a sorted group, where `tag`
/// is or would go.
pub open spec fn lower_bound(s: Seq<(u32, Seq<u8>)>, tag: u32) -> int
    decreases s.len(),
{
    if s.len() == 0 {
        0
    } else if s.last().0 < tag {
        s.len() as int
    } else {
        lower_bound(s.drop_last(), tag)
    }
}

/// A group after writing `value` at `tag` (`None` deletes; the reserved tag
/// is never deleted).
pub open spec fn spec_write(s: Seq<(u32, Seq<u8>)>, tag: u32, value: Option<Seq<u8>>) -> Seq<(u32, Seq<u8>)> {
    let p = lower_bound(s, tag);
    let present = p < s.len() && s[p].0 == tag;
    match value {
        Some(b) => if present {
            s.update(p, (tag, b))
        } else {
            s.insert(p, (tag, b))
        },
        None => if tag == RESERVED_TAG || !present {
            s
        } else {
            s.remove(p)
        },
    }
}

/// Why a group's size cannot be updated.
#[derive(Clone, Copy, Debug, Eq, PartialEq)]
pub enum GroupSizeError {
    /// It would exceed what a `u64` or BCS can hold.
    Overflow,
    /// It would fall below zero.
    Underflow,
}

/// A group's size kept as its entry count and the total size of its
/// entries.
#[derive(Clone, Copy, Debug, Eq, PartialEq)]
pub struct ResourceGroupSize {
    pub num_tagged_resources: u64,
    pub all_tagged_resources_size: u64,
}

impl ResourceGroupSize {
    /// The group's serialized size.
    pub open spec fn spec_get(self) -> int {
        uleb_len(self.num_tagged_resources as nat) + self.all_tagged_resources_size
    }

    pub fn get(&self) -> (r: Option<u64>)
        ensures
            r is Some <==> self.spec_get() <= u64::MAX,
            r is Some ==> r->0 == self.spec_get(),
    {
        let prefix = uleb128_len(self.num_tagged_resources);
        if self.all_tagged_resources_size > u64::MAX - prefix {
            None
        } else {
            Some(prefix + self.all_tagged_resources_size)
        }
    }

    /// Accounts for a tag added with a value of `value_len` bytes.
    pub fn increment_size_for_add_tag(&mut self, value_len: u64) -> (r: Result<(), GroupSizeError>)
        ensures
            r is Ok <==> old(self).num_tagged_resources < MAX_SEQUENCE_LENGTH && old(
                self,
            ).all_tagged_resources_size + entry_size(value_len as nat) <= u64::MAX,
            r is Ok ==> final(self).num_tagged_resources == old(self).num_tagged_resources + 1
                && final(self).all_tagged_resources_size == old(self).all_tagged_resources_size
                + entry_size(value_len as nat),
            r is Err ==> *final(self) == *old(self) && r == Err::<(), GroupSizeError>(
                GroupSizeError::Overflow,
            ),
    {
        let prefix = uleb128_len(value_len);
        if self.num_tagged_resources >= MAX_SEQUENCE_LENGTH || value_len > u64::MAX - 4 - prefix
            || self.all_tagged_resources_size > u64::MAX - 4 - prefix - value_len {
            return Err(GroupSizeError::Overflow);
        }
        self.num_tagged_resources = self.num_tagged_resources + 1;
        self.all_tagged_resources_size = self.all_tagged_resources_size + 4 + prefix + value_len;
        Ok(())
    }

    /// Accounts for a tag removed whose value had `value_len` bytes.
    pub fn decrement_size_for_remove_tag(&mut self, value_len: u64) -> (r: Result<(), GroupSizeError>)
        ensures
            r is Ok <==> old(self).num_tagged_resources >= 1 && old(self).all_tagged_resources_size
                >= entry_size(value_len as nat),
            r is Ok ==> final(self).num_tagged_resources == old(self).num_tagged_resources - 1
                && final(self).all_tagged_resources_size == old(self).all_tagged_resources_size
                - entry_size(value_len as nat),
            r is Err ==> *final(self) == *old(self) && r == Err::<(), GroupSizeError>(
                GroupSizeError::Underflow,
            ),
    {
        let prefix = uleb128_len(value_len);
        if self.num_tagged_resources == 0 || self.all_tagged_resources_size < 4
            || self.all_tagged_resources_size - 4 < prefix || self.all_tagged_resources_size - 4
            - prefix < value_len {
            return Err(GroupSizeError::Underflow);
        }
        self.num_tagged_resources = self.num_tagged_resources - 1;
        self.all_tagged_resources_size = self.all_tagged_resources_size - 4 - prefix - value_len;
        Ok(())
    }
}

} // verus!

verus! {

/// The bytes of an optional value.
pub open spec fn opt_bytes(o: Option<Vec<u8>>) -> Option<Seq<u8>> {
    match o {
        Some(v) => Some(v@),
        None => None,
    }
}

/// Whether writing `value` at `tag` keeps the group within a `u64` size,
/// BCS's sequence limit, and the length limit of one value.
pub open spec fn write_fits(s: Seq<(u32, Seq<u8>)>, tag: u32, value: Option<Seq<u8>>) -> bool {
    let p = lower_bound(s, tag);
    let present = p < s.len() && s[p].0 == tag;
    match value {
        Some(b) => b.len() <= MAX_SEQUENCE_LENGTH && if present {
            entries_size(s) - entry_size(s[p].1.len()) + entry_size(b.len()) <= u64::MAX
        } else {
            s.len() < MAX_SEQUENCE_LENGTH && entries_size(s) + entry_size(b.len()) <= u64::MAX
        },
        None => true,
    }
}

proof fn lemma_size_insert(s: Seq<(u32, Seq<u8>)>, p: int, e: (u32, Seq<u8>))
    requires
        0 <= p <= s.len(),
    ensures
        entries_size(s.insert(p, e)) == entries_size(s) + entry_size(e.1.len()),
    decreases s.len(),
{
    if p == s.len() {
        assert(s.insert(p, e).drop_last() =~= s);
    } else {
        lemma_size_insert(s.drop_last(), p, e);
        assert(s.insert(p, e).drop_last() =~= s.drop_last().insert(p, e));
    }
}

proof fn lemma_size_remove(s: Seq<(u32, Seq<u8>)>, p: int)
    requires
        0 <= p < s.len(),
    ensures
        entries_size(s.remove(p)) + entry_size(s[p].1.len()) == entries_size(s),
    decreases s.len(),
{
    if p == s.len() - 1 {
        assert(s.remove(p) =~= s.drop_last());
    } else {
        lemma_size_remove(s.drop_last(), p);
        assert(s.remove(p).drop_last() =~= s.drop_last().remove(p));
    }
}

proof fn lemma_lower_bound(s: Seq<(u32, Seq<u8>)>, tag: u32, q: int)
    requires
        tags_increasing(s),
        0 <= q <= s.len(),
        forall|i: int| 0 <= i < q ==> s[i].0 < tag,
        q == s.len() || s[q].0 >= tag,
    ensures
        lower_bound(s, tag) == q,
    decreases s.len(),
{
    if s.len() > 0 {
        if s.last().0 < tag {
            assert(q == s.len());
        } else {
            lemma_lower_bound(s.drop_last(), tag, q);
        }
    }
}

/// A resource group: entries in increasing tag order, with their size
/// kept alongside.
pub struct ResourceGroup {
    entries: Vec<(u32, Vec<u8>)>,
    size: ResourceGroupSize,
}

impl View for ResourceGroup {
    type V = Seq<(u32, Seq<u8>)>;

    closed spec fn view(&self) -> Seq<(u32, Seq<u8>)> {
        entries_view(self.entries@)
    }
}

impl ResourceGroup {
    pub closed spec fn tracked_size(&self) -> ResourceGroupSize {
        self.size
    }

    pub open spec fn wf(&self) -> bool {
        &&& tags_increasing(self@)
        &&& self.tracked_size().num_tagged_resources == self@.len()
        &&& self.tracked_size().all_tagged_resources_size == entries_size(self@)
        &&& self@.len() <= MAX_SEQUENCE_LENGTH
        &&& forall|i: int| 0 <= i < self@.len() ==> (#[trigger] self@[i]).1.len() <= MAX_SEQUENCE_LENGTH
    }

    pub fn new() -> (r: Self)
        ensures
            r.wf(),
            r@ == Seq::<(u32, Seq<u8>)>::empty(),
    {
        let r = ResourceGroup {
            entries: Vec::new(),
            size: ResourceGroupSize { num_tagged_resources: 0, all_tagged_resources_size: 0 },
        };
        assert(r@ =~= Seq::<(u32, Seq<u8>)>::empty());
        r
    }

    pub fn size(&self) -> (r: ResourceGroupSize)
        ensures
            r == self.tracked_size(),
    {
        self.size
    }

    /// Writes `value` at `tag`, or deletes the tag when `value` is `None`
    /// (the reserved tag stays). Refused, leaving the group as it was, when
    /// the size would not fit.
    pub fn write(&mut self, tag: u32, value: Option<Vec<u8>>) -> (r: Result<(), GroupSizeError>)
        requires
            old(self).wf(),
        ensures
            final(self).wf(),
            r is Ok <==> write_fits(old(self)@, tag, opt_bytes(value)),
            r is Ok ==> final(self)@ == spec_write(old(self)@, tag, opt_bytes(value)),
            r is Err ==> final(self)@ == old(self)@ && r == Err::<(), GroupSizeError>(
                GroupSizeError::Overflow,
            ),
    {
        let ghost s = self@;
        let n = self.entries.len();
        let mut p: usize = 0;
        while p < n && self.entries[p].0 < tag
            invariant
                n == self.entries@.len(),
                s == self@,
                self.wf(),
                p <= n,
                forall|i: int| 0 <= i < p ==> s[i].0 < tag,
            decreases n - p,
        {
            p += 1;
        }
        proof {
            assert(forall|i: int| 0 <= i < n ==> s[i].0 == self.entries@[i].0);
            lemma_lower_bound(s, tag, p as int);
        }
        let present = p < n && self.entries[p].0 == tag;
        match value {
            Some(v) => {
                let vlen = v.len() as u64;
                if vlen > MAX_SEQUENCE_LENGTH {
                    return Err(GroupSizeError::Overflow);
                }
                let mut new_size = self.size;
                if present {
                    let old_len = self.entries[p].1.len() as u64;
                    proof {
                        lemma_size_remove(s, p as int);
                        assert(s[p as int].1.len() == old_len);
                    }
                    let removed = new_size.decrement_size_for_remove_tag(old_len);
                    assert(removed is Ok);
                    if new_size.increment_size_for_add_tag(vlen).is_err() {
                        return Err(GroupSizeError::Overflow);
                    }
                    let ghost v_view = v@;
                    self.entries.set(p, (tag, v));
                    self.size = new_size;
                    proof {
                        assert(self@ =~= s.update(p as int, (tag, v_view)));
                        assert(s.update(p as int, (tag, v_view)) =~= s.remove(p as int).insert(p as int, (tag, v_view)));
                        lemma_size_insert(s.remove(p as int), p as int, (tag, v_view));
                        assert forall|i: int, j: int| 0 <= i < j < self@.len() implies self@[i].0 < self@[j].0 by {
                            assert(s[i].0 <= self@[i].0 && self@[i].0 <= s[i].0 || i == p);
                        }
                    }
                } else {
                    if new_size.increment_size_for_add_tag(vlen).is_err() {
                        return Err(GroupSizeError::Overflow);
                    }
                    let ghost v_view = v@;
                    self.entries.insert(p, (tag, v));
                    self.size = new_size;
                    proof {
                        assert(self@ =~= s.insert(p as int, (tag, v_view)));
                        lemma_size_insert(s, p as int, (tag, v_view));
                        assert forall|i: int, j: int| 0 <= i < j < self@.len() implies self@[i].0 < self@[j].0 by {
                            if i < p && j > p {
                                assert(self@[j] == s[j - 1]);
                            } else if i > p {
                                assert(self@[i] == s[i - 1] && self@[j] == s[j - 1]);
                            } else if i == p {
                                assert(self@[j] == s[j - 1]);
                            }
                        }
                        assert forall|i: int| 0 <= i < self@.len() implies (#[trigger] self@[i]).1.len()
                            <= MAX_SEQUENCE_LENGTH by {
                            if i > p {
                                assert(self@[i] == s[i - 1]);
                            }
                        }
                    }
                }
                Ok(())
            },
            None => {
                if tag == RESERVED_TAG || !present {
                    return Ok(());
                }
                let old_len = self.entries[p].1.len() as u64;
                proof {
                    lemma_size_remove(s, p as int);
                }
                let mut new_size = self.size;
                let removed = new_size.decrement_size_for_remove_tag(old_len);
                assert(removed is Ok);
                self.entries.remove(p);
                self.size = new_size;
                proof {
                    assert(self@ =~= s.remove(p as int));
                    assert forall|i: int, j: int| 0 <= i < j < self@.len() implies self@[i].0 < self@[j].0 by {
                        if i >= p {
                            assert(self@[i] == s[i + 1] && self@[j] == s[j + 1]);
                        } else if j >= p {
                            assert(self@[j] == s[j + 1]);
                        }
                    }
                    assert forall|i: int| 0 <= i < self@.len() implies (#[trigger] self@[i]).1.len()
                        <= MAX_SEQUENCE_LENGTH by {
                        if i >= p {
                            assert(self@[i] == s[i + 1]);
                        }
                    }
                }
                Ok(())
            },
        }
    }

    /// The group's BCS encoding.
    pub fn serialize(&self) -> (r: Vec<u8>)
        requires
            self.wf(),
        ensures
            r@.len() == group_size(self@),
            bcs_map_bytes(self@, r@),
    {
        assert forall|i: int| 0 <= i < self.entries@.len() implies (#[trigger] self.entries@[i]).1@.len()
            <= MAX_SEQUENCE_LENGTH by {
            assert(self@[i].1 == self.entries@[i].1@);
        }
        bcs_group_bytes(&self.entries)
    }
}

/// The ULEB128 encoding of `v`: seven bits per byte, low bits first, the
/// high bit set on every byte but the last.
pub open spec fn uleb128_bytes(v: nat) -> Seq<u8>
    decreases v,
{
    if v < 128 {
        seq![v as u8]
    } else {
        seq![(v % 128 + 128) as u8] + uleb128_bytes(v / 128)
    }
}

/// One map entry as BCS writes it: the tag's four little-endian bytes, the
/// value's length in ULEB128, the value.
pub open spec fn entry_bytes(tag: u32, value: Seq<u8>) -> Seq<u8> {
    le_bytes(tag as nat, 4) + uleb128_bytes(value.len()) + value
}

/// The entries of `es` at the positions `order`, one after the other.
pub open spec fn entries_bytes_in(es: Seq<(u32, Seq<u8>)>, order: Seq<int>) -> Seq<u8>
    decreases order.len(),
{
    if order.len() == 0 {
        Seq::empty()
    } else {
        entries_bytes_in(es, order.drop_last()) + entry_bytes(es[order.last()].0, es[order.last()].1)
    }
}

/// `order` lists every position of `es` once, ordered by the tags'
/// serialized bytes, the order in which BCS writes map entries.
pub open spec fn bcs_key_order(es: Seq<(u32, Seq<u8>)>, order: Seq<int>) -> bool {
    &&& order.len() == es.len()
    &&& forall|i: int| 0 <= i < order.len() ==> 0 <= #[trigger] order[i] < es.len()
    &&& forall|i: int, j: int| 0 <= i < j < order.len() ==> lex_cmp(
        le_bytes(es[order[i]].0 as nat, 4),
        le_bytes(es[order[j]].0 as nat, 4),
    ) == core::cmp::Ordering::Less
}

/// `b` is the BCS encoding of the map `es`: its entry count in ULEB128,
/// then its entries in serialized-key order.
pub open spec fn bcs_map_bytes(es: Seq<(u32, Seq<u8>)>, b: Seq<u8>) -> bool {
    exists|order: Seq<int>| bcs_key_order(es, order) && b == uleb128_bytes(es.len()) + entries_bytes_in(es, order)
}

/// Relies on `bcs::to_bytes` for a `BTreeMap<u32, Vec<u8>>`: BCS writes the
/// entry count in ULEB128, then the entries ordered by their serialized
/// keys, each as the tag's four little-endian bytes, the value's length in
/// ULEB128 and the value; it fails only on a sequence longer than
/// `MAX_SEQUENCE_LENGTH`. Distinct tags make the map hold every entry.
#[verifier::external_body]
fn bcs_group_bytes(entries: &Vec<(u32, Vec<u8>)>) -> (r: Vec<u8>)
    requires
        tags_increasing(entries_view(entries@)),
        entries@.len() <= MAX_SEQUENCE_LENGTH,
        forall|i: int| 0 <= i < entries@.len() ==> (#[trigger] entries@[i]).1@.len() <= MAX_SEQUENCE_LENGTH,
    ensures
        r@.len() == group_size(entries_view(entries@)),
        bcs_map_bytes(entries_view(entries@), r@),
{
    let map: std::collections::BTreeMap<u32, &Vec<u8>> = entries.iter().map(|e| (e.0, &e.1)).collect();
    match bcs::to_bytes(&map) {
        Ok(bytes) => bytes,
        Err(_) => Vec::new(),
    }
}

/// The size kept for a group always equals the length of its serialized
/// bytes.
pub proof fn lemma_group_size_invariance(g: &ResourceGroup)
    requires
        g.wf(),
    ensures
        g.tracked_size().spec_get() == group_size(g@),
{
}

} // verus!
