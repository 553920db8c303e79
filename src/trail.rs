use vstd::prelude::*;

use crate::growth::{growth_of, BASE_BATCH, BLOOM_BATCH, TRAIL_CAP};

verus! {

/// The relation "`q` is a possible result of `step(p)`" of an executable step.
pub open spec fn made_by<P, F: Fn(P) -> P>(step: F) -> spec_fn(P, P) -> bool {
    |p: P, q: P| call_ensures(step, (p,), q)
}

/// `next` keeps `prev` as its prefix, and each point after that prefix is a
/// step of `rel` from the point before it.
pub open spec fn extends_by<P>(rel: spec_fn(P, P) -> bool, prev: Seq<P>, next: Seq<P>) -> bool {
    &&& 1 <= prev.len() <= next.len()
    &&& next.subrange(0, prev.len() as int) == prev
    &&& forall|i: int| prev.len() <= i < next.len() ==> rel(next[i - 1], #[trigger] next[i])
}

/// `next` is what one frame makes of `prev` with the step relation `rel`.
pub open spec fn frame_follows<P>(rel: spec_fn(P, P) -> bool, prev: Seq<P>, next: Seq<P>) -> bool {
    &&& extends_by(rel, prev, next)
    &&& next.len() == prev.len() + growth_of(prev.len())
}

/// Extending twice is extending: the first prefix is kept, and every point
/// after it is a step of one of the two relations.
proof fn lemma_extends_trans<P>(
    r1: spec_fn(P, P) -> bool,
    r2: spec_fn(P, P) -> bool,
    a: Seq<P>,
    b: Seq<P>,
    c: Seq<P>,
)
    requires
        extends_by(r1, a, b),
        extends_by(r2, b, c),
    ensures
        1 <= a.len() <= c.len(),
        c.subrange(0, a.len() as int) == a,
        forall|i: int| 0 <= i < b.len() ==> c[i] == b[i],
        forall|i: int| a.len() <= i < b.len() ==> r1(c[i - 1], #[trigger] c[i]),
        forall|i: int| b.len() <= i < c.len() ==> r2(c[i - 1], #[trigger] c[i]),
        r1 == r2 ==> extends_by(r1, a, c),
{
    assert forall|i: int| 0 <= i < b.len() implies c[i] == b[i] by {
        assert(c.subrange(0, b.len() as int)[i] == c[i]);
    }
    assert(c.subrange(0, a.len() as int) =~= a) by {
        assert forall|i: int| 0 <= i < a.len() implies c.subrange(0, a.len() as int)[i] == a[i] by {
            assert(b.subrange(0, a.len() as int)[i] == b[i]);
        }
    }
    assert forall|i: int| a.len() <= i < b.len() implies r1(c[i - 1], #[trigger] c[i]) by {
        assert(r1(b[i - 1], b[i]));
    }
}

/// A trail of points that starts at a seed and grows by integration steps.
pub struct Trail<P> {
    points: Vec<P>,
    seed: P,
}

impl<P> View for Trail<P> {
    type V = Seq<P>;

    closed spec fn view(&self) -> Seq<P> {
        self.points@
    }
}

impl<P: Copy> Trail<P> {
    /// The point that the trail starts from, and returns to on reset.
    pub closed spec fn seed_point(&self) -> P {
        self.seed
    }

    /// The trail is never empty and always starts at its seed.
    pub open spec fn wf(&self) -> bool {
        &&& self@.len() >= 1
        &&& self@[0] == self.seed_point()
    }

    /// A trail that holds the seed alone.
    pub fn new(seed: P) -> (r: Self)
        ensures
            r.wf(),
            r@ == seq![seed],
            r.seed_point() == seed,
    {
        Trail { points: vec![seed], seed }
    }

    /// The points of the trail, oldest first.
    pub fn points(&self) -> (r: &[P])
        ensures
            r@ == self@,
    {
        self.points.as_slice()
    }

    /// The number of points in the trail.
    pub fn len(&self) -> (r: usize)
        ensures
            r == self@.len(),
    {
        self.points.len()
    }

    /// The newest point, from which the next step starts.
    pub fn last(&self) -> (r: P)
        requires
            self.wf(),
        ensures
            r == self@.last(),
    {
        self.points[self.points.len() - 1]
    }

    /// Drops every point but the seed.
    pub fn reset(&mut self)
        requires
            old(self).wf(),
        ensures
            final(self).wf(),
            final(self)@ == seq![old(self).seed_point()],
            final(self).seed_point() == old(self).seed_point(),
    {
        self.points = vec![self.seed];
    }

    /// Appends `count` points, each one `step` applied to the point before it.
    fn extend_steps<F: Fn(P) -> P>(&mut self, step: &F, count: usize)
        requires
            old(self).wf(),
            forall|p: P| call_requires(*step, (p,)),
        ensures
            final(self).wf(),
            final(self).seed_point() == old(self).seed_point(),
            final(self)@.len() == old(self)@.len() + count,
            extends_by(made_by(*step), old(self)@, final(self)@),
    {
        let ghost prev = self@;
        let mut last: P = self.last();
        let mut i: usize = 0;
        proof {
            assert(prev.subrange(0, prev.len() as int) =~= prev);
        }
        while i < count
            invariant
                self.wf(),
                self.seed_point() == old(self).seed_point(),
                prev == old(self)@,
                forall|p: P| call_requires(*step, (p,)),
                i <= count,
                self@.len() == prev.len() + i,
                last == self@.last(),
                extends_by(made_by(*step), prev, self@),
            decreases count - i,
        {
            let next = step(last);
            self.points.push(next);
            last = next;
            i = i + 1;
            proof {
                assert(self@.subrange(0, prev.len() as int) =~= prev);
            }
        }
    }

    /// Runs one frame: `BASE_BATCH` steps, then `BLOOM_BATCH` more if the trail
    /// is still shorter than `TRAIL_CAP`.
    pub fn advance_frame<F: Fn(P) -> P>(&mut self, step: &F)
        requires
            old(self).wf(),
            forall|p: P| call_requires(*step, (p,)),
        ensures
            final(self).wf(),
            final(self).seed_point() == old(self).seed_point(),
            frame_follows(made_by(*step), old(self)@, final(self)@),
    {
        let ghost prev = self@;
        self.extend_steps(step, BASE_BATCH);
        let ghost mid = self@;
        if self.points.len() < TRAIL_CAP {
            self.extend_steps(step, BLOOM_BATCH);
            proof {
                lemma_extends_trans(made_by(*step), made_by(*step), prev, mid, self@);
            }
        }
    }
}

} // verus!
