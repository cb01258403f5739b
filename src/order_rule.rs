//! The order rule's linearization: the part of an anchor's causal history
//! that no earlier anchor committed, in a deterministic order that ends
//! with the anchor.

use vstd::prelude::*;
use crate::dag_store::{DagStore, NodeMetadata, is_causal_history};

verus! {

/// Some of the first `n` entries of `h` is `y`.
pub open spec fn among_first(h: Seq<usize>, n: int, y: usize) -> bool {
    exists|w: int| 0 <= w < n && h[w] == y
}

/// Node `a` of the store comes before node `b`: an earlier round, or the
/// same round and a lower author.
pub open spec fn node_before(store: DagStore, a: int, b: int) -> bool {
    let x = store.nodes()[a];
    let y = store.nodes()[b];
    x.round < y.round || (x.round == y.round && x.author < y.author)
}

pub open spec fn linear(store: DagStore, s: Seq<usize>) -> bool {
    forall|i: int, j: int| 0 <= i < j < s.len() ==> node_before(store, s[i] as int, s[j] as int)
}

fn is_before(a: &NodeMetadata, b: &NodeMetadata) -> (r: bool)
    ensures
        r == (a.round < b.round || (a.round == b.round && a.author < b.author)),
{
    a.round < b.round || (a.round == b.round && a.author < b.author)
}

/// Orders the nodes of the anchor's causal history (down to the store's
/// lowest round) that `ordered` does not mark, by round and then author.
pub fn linearize(store: &DagStore, anchor: &NodeMetadata, ordered: &Vec<bool>) -> (r: Vec<usize>)
    requires
        store.wf(),
        ordered@.len() == store.nodes().len(),
    ensures
        exists|h: Seq<usize>|
            is_causal_history(*store, seq![*anchor], store.lowest(), h) && (forall|x: usize|
                r@.contains(x) <==> (h.contains(x) && !ordered@[x as int])),
        linear(*store, r@),
{
    let mut from: Vec<NodeMetadata> = Vec::new();
    from.push(*anchor);
    assert(from@ =~= seq![*anchor]);
    let history = store.reachable(&from, store.lowest_round());
    let ghost h = history@;
    let mut out: Vec<usize> = Vec::new();
    let mut i: usize = 0;
    while i < history.len()
        invariant
            store.wf(),
            ordered@.len() == store.nodes().len(),
            h == history@,
            is_causal_history(*store, seq![*anchor], store.lowest(), h),
            i <= h.len(),
            linear(*store, out@),
            forall|q: int| 0 <= q < out@.len() ==> (#[trigger] out@[q]) < store.nodes().len(),
            forall|x: usize| out@.contains(x) <==> (among_first(h, i as int, x) && !ordered@[x as int]),
        decreases h.len() - i,
    {
        let x = history[i];
        proof {
            assert(x < store.nodes().len());
        }
        if !ordered[x] {
            let nx = store.node_at(x);
            let mut p: usize = 0;
            while p < out.len() && is_before(&store.node_at(out[p]), &nx)
                invariant
                    store.wf(),
                    x < store.nodes().len(),
                    nx == store.nodes()[x as int],
                    p <= out@.len(),
                    forall|q: int| 0 <= q < out@.len() ==> (#[trigger] out@[q]) < store.nodes().len(),
                    forall|q: int| 0 <= q < p ==> node_before(*store, out@[q] as int, x as int),
                    linear(*store, out@),
                decreases out@.len() - p,
            {
                p += 1;
            }
            let ghost before = out@;
            proof {
                assert(!before.contains(x)) by {
                    if before.contains(x) {
                        assert(among_first(h, i as int, x));
                        let w = choose|w: int| 0 <= w < i && h[w] == x;
                        assert(h[w] == h[i as int]);
                    }
                }
                assert forall|q: int| p <= q < before.len() implies node_before(*store, x as int, before[q] as int) by {
                    assert(before[p as int] != x);
                    if q > p {
                        assert(node_before(*store, before[p as int] as int, before[q] as int));
                    }
                    assert(!node_before(*store, before[p as int] as int, x as int));
                    assert(store.nodes()[before[p as int] as int].round != store.nodes()[x as int].round
                        || store.nodes()[before[p as int] as int].author != store.nodes()[x as int].author);
                }
            }
            out.insert(p, x);
            proof {
                let t = out@;
                assert forall|a: int, b: int| 0 <= a < b < t.len() implies node_before(*store, t[a] as int, t[b] as int) by {
                    if a < p && b > p {
                        assert(t[b] == before[b - 1]);
                    } else if a == p {
                        assert(t[b] == before[b - 1]);
                    } else if a > p {
                        assert(t[a] == before[a - 1] && t[b] == before[b - 1]);
                    }
                }
                assert forall|y: usize| t.contains(y) <==> (among_first(h, i as int + 1, y) && !ordered@[y as int]) by {
                    if t.contains(y) {
                        let w = choose|w: int| 0 <= w < t.len() && t[w] == y;
                        if w < p {
                            assert(before[w] == y);
                        } else if w > p {
                            assert(before[w - 1] == y);
                        }
                    }
                    if before.contains(y) {
                        let w = choose|w: int| 0 <= w < before.len() && before[w] == y;
                        if w < p {
                            assert(t[w] == y);
                        } else {
                            assert(t[w + 1] == y);
                        }
                    }
                    if among_first(h, i as int + 1, y) {
                        let w = choose|w: int| 0 <= w < i + 1 && h[w] == y;
                        if w < i {
                            assert(among_first(h, i as int, y));
                        }
                    }
                    if among_first(h, i as int, y) {
                        let w = choose|w: int| 0 <= w < i && h[w] == y;
                        assert(among_first(h, i as int + 1, y));
                    }
                    assert(t[p as int] == x);
                }
            }
        } else {
            proof {
                assert forall|y: usize| out@.contains(y) <==> (among_first(h, i as int + 1, y) && !ordered@[y as int]) by {
                    if among_first(h, i as int + 1, y) {
                        let w = choose|w: int| 0 <= w < i + 1 && h[w] == y;
                        if w < i {
                            assert(among_first(h, i as int, y));
                        }
                    }
                    if among_first(h, i as int, y) {
                        let w = choose|w: int| 0 <= w < i && h[w] == y;
                        assert(among_first(h, i as int + 1, y));
                    }
                }
            }
        }
        i += 1;
    }
    assert forall|x: usize| among_first(h, h.len() as int, x) <==> h.contains(x) by {
        if h.contains(x) {
            let w = choose|w: int| 0 <= w < h.len() && h[w] == x;
            assert(among_first(h, h.len() as int, x));
        }
    }
    out
}

} // verus!
