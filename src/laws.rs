use vstd::prelude::*;

use crate::growth::{BASE_BATCH, BLOOM_BATCH, TRAIL_CAP};
use crate::trail::frame_follows;

verus! {

/// `states` are the trails seen at the start of each frame of a run without
/// reset, and `rels[k]` is the step relation in force during frame `k`.
pub open spec fn run_follows<P>(rels: Seq<spec_fn(P, P) -> bool>, states: Seq<Seq<P>>) -> bool {
    &&& states.len() == rels.len() + 1
    &&& forall|k: int|
        0 <= k < rels.len() ==> #[trigger] frame_follows(rels[k], states[k], states[k + 1])
}

/// Each point has at most one successor under `rel`.
pub open spec fn single_valued<P>(rel: spec_fn(P, P) -> bool) -> bool {
    forall|p: P, q1: P, q2: P|
        #![trigger rel(p, q1), rel(p, q2)]
        rel(p, q1) && rel(p, q2) ==> q1 == q2
}

/// A frame on a trail whose extra batch still fits under the cap appends
/// `BASE_BATCH + BLOOM_BATCH` points; a frame on a trail at or past the cap
/// appends `BASE_BATCH`, and the trail keeps growing.
pub proof fn lemma_growth_per_frame<P>(rel: spec_fn(P, P) -> bool, prev: Seq<P>, next: Seq<P>)
    requires
        frame_follows(rel, prev, next),
    ensures
        prev.len() + BASE_BATCH < TRAIL_CAP ==> next.len() == prev.len() + BASE_BATCH
            + BLOOM_BATCH,
        prev.len() >= TRAIL_CAP ==> next.len() == prev.len() + BASE_BATCH,
        next.len() > prev.len(),
{
}

proof fn lemma_frames_agree_up_to<P>(rel: spec_fn(P, P) -> bool, prev: Seq<P>, a: Seq<P>, b: Seq<P>, n: int)
    requires
        single_valued(rel),
        frame_follows(rel, prev, a),
        frame_follows(rel, prev, b),
        0 <= n <= a.len(),
    ensures
        forall|i: int| 0 <= i < n ==> a[i] == b[i],
    decreases n,
{
    if n > 0 {
        lemma_frames_agree_up_to(rel, prev, a, b, n - 1);
        let i = n - 1;
        if i < prev.len() {
            assert(a.subrange(0, prev.len() as int)[i] == a[i]);
            assert(b.subrange(0, prev.len() as int)[i] == b[i]);
        } else {
            assert(rel(a[i - 1], a[i]));
            assert(rel(b[i - 1], b[i]));
        }
    }
}

/// Where each step has one possible result, a frame has one possible result:
/// the new trail is a function of the old trail and the step.
pub proof fn lemma_frame_is_determined<P>(rel: spec_fn(P, P) -> bool, prev: Seq<P>, a: Seq<P>, b: Seq<P>)
    requires
        single_valued(rel),
        frame_follows(rel, prev, a),
        frame_follows(rel, prev, b),
    ensures
        a == b,
{
    lemma_frames_agree_up_to(rel, prev, a, b, a.len() as int);
    assert(a =~= b);
}

/// Between resets a trail only grows at its end: a point seen at the start of
/// frame `k1` is still the same point at the start of any later frame `k2`.
pub proof fn lemma_history_kept<P>(
    rels: Seq<spec_fn(P, P) -> bool>,
    states: Seq<Seq<P>>,
    k1: int,
    k2: int,
    i: int,
)
    requires
        run_follows(rels, states),
        0 <= k1 <= k2 < states.len(),
        0 <= i < states[k1].len(),
    ensures
        i < states[k2].len(),
        states[k2][i] == states[k1][i],
    decreases k2 - k1,
{
    if k1 < k2 {
        lemma_history_kept(rels, states, k1, k2 - 1, i);
        let j = k2 - 1;
        let prev = states[j];
        let next = states[k2];
        assert(frame_follows(rels[j], states[j], states[j + 1]));
        assert(next.subrange(0, prev.len() as int)[i] == next[i]);
    }
}

/// A step changed before frame `k` (a new dissipation, say) reaches only the
/// points that frame `k` and later frames append: at every later frame `m` the
/// points that existed before frame `k` are as they were, and each point that
/// frame `k` appended is a step of the relation in force during frame `k`.
pub proof fn lemma_step_change_reaches_new_points_only<P>(
    rels: Seq<spec_fn(P, P) -> bool>,
    states: Seq<Seq<P>>,
    k: int,
    m: int,
)
    requires
        run_follows(rels, states),
        0 <= k < m < states.len(),
    ensures
        forall|i: int| 0 <= i < states[k].len() ==> #[trigger] states[m][i] == states[k][i],
        forall|i: int|
            #![trigger states[m][i]]
            states[k].len() <= i < states[k + 1].len() ==> rels[k](states[m][i - 1], states[m][i]),
{
    assert(frame_follows(rels[k], states[k], states[k + 1]));
    assert forall|i: int| 0 <= i < states[k].len() implies #[trigger] states[m][i] == states[k][i] by {
        lemma_history_kept(rels, states, k, m, i);
    }
    assert forall|i: int|
        #![trigger states[m][i]]
        states[k].len() <= i < states[k + 1].len() implies rels[k](states[m][i - 1], states[m][i]) by {
        lemma_history_kept(rels, states, k + 1, m, i);
        lemma_history_kept(rels, states, k + 1, m, i - 1);
        assert(rels[k](states[k + 1][i - 1], states[k + 1][i]));
    }
}

} // verus!
