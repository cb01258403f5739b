//! Which DAG instances may pull payloads and broadcast together. With three
//! instances, instances 0 and 1 start alone, then pairs `(i, (i + 1) % 3)`
//! are served with `i` rotating from 2, so two instances are broadcasting
//! at any time, staggered.

use vstd::prelude::*;

verus! {

/// Number of DAG instances the staggered schedule interleaves.
pub const NUM_INSTANCES: usize = 3;

/// The instances served together at step `step` of the staggered schedule.
pub open spec fn bolt_step(step: u64) -> Seq<usize> {
    if step < 2 {
        seq![step as usize]
    } else {
        seq![(step % 3) as usize, ((step + 1) % 3) as usize]
    }
}

pub fn bolt_receivers(step: u64) -> (r: Vec<usize>)
    ensures
        r@ == bolt_step(step),
        forall|k: int| 0 <= k < r@.len() ==> #[trigger] r@[k] < NUM_INSTANCES,
{
    let mut out: Vec<usize> = Vec::new();
    if step < 2 {
        out.push(step as usize);
    } else {
        out.push((step % 3) as usize);
        out.push(((step % 3 + 1) % 3) as usize);
        assert((step % 3 + 1) % 3 == (step + 1) % 3) by (nonlinear_arith);
    }
    assert(out@ =~= bolt_step(step));
    out
}

/// Without synchronization there is one instance, served at every step.
pub fn no_sync_receivers() -> (r: Vec<usize>)
    ensures
        r@ == seq![0usize],
{
    let mut out: Vec<usize> = Vec::new();
    out.push(0);
    assert(out@ =~= seq![0usize]);
    out
}

} // verus!
