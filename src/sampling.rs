//! Precomputed low-discrepancy point sets, drawn from by one uniform index per call.
use vstd::prelude::*;
use rand::distributions::{Distribution, Uniform};
use rand::rngs::ThreadRng;

verus! {

#[verifier::external_type_specification]
#[verifier::external_body]
pub struct ExThreadRng(ThreadRng);

/// Relies on rand's `Uniform::from(0..n)`, sampled with the thread's generator: the draw
/// lies in `0..n`. `Uniform::new` panics on an empty range, hence `0 < n`.
#[verifier::external_body]
fn draw_index(rng: &mut ThreadRng, n: usize) -> (r: usize)
    requires
        0 < n,
    ensures
        r < n,
{
    Uniform::from(0..n).sample(rng)
}

/// A fixed, non-empty set of sample points, built once and only read afterwards.
pub struct SampleSet<T> {
    points: Vec<T>,
}

impl<T> SampleSet<T> {
    #[verifier::type_invariant]
    spec fn nonempty(&self) -> bool {
        self.points@.len() > 0
    }

    /// The points, in the order given.
    pub closed spec fn points(&self) -> Seq<T> {
        self.points@
    }

    /// The set of the given points, or `None` when there are none.
    pub fn new(points: Vec<T>) -> (r: Option<SampleSet<T>>)
        ensures
            r is Some <==> points@.len() > 0,
            r matches Some(s) ==> s.points() == points@,
    {
        if points.len() == 0 {
            None
        } else {
            Some(SampleSet { points })
        }
    }

    pub fn len(&self) -> (r: usize)
        ensures
            r == self.points().len(),
            r > 0,
    {
        proof { use_type_invariant(self); }
        self.points.len()
    }

    /// The point at position `i`.
    pub fn get(&self, i: usize) -> (r: &T)
        requires
            i < self.points().len(),
        ensures
            *r == self.points()[i as int],
    {
        &self.points[i]
    }

    /// One of the points, chosen by a uniform draw of its position.
    pub fn pick(&self, rng: &mut ThreadRng) -> (r: &T)
        ensures
            exists|i: int| 0 <= i < self.points().len() && *r == #[trigger] self.points()[i],
    {
        proof { use_type_invariant(self); }
        let i = draw_index(rng, self.points.len());
        let r = &self.points[i];
        assert(*r == self.points()[i as int]);
        r
    }
}

} // verus!
