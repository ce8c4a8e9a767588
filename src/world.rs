//! The scene container: shapes with their optional bounding boxes, and the nearest-hit
//! search over them.
//!
//! The container is generic over the shape type `S`, the box type `B` and the hit record
//! type `H`; the geometric tests come in as functions: whether a ray passes a box, where
//! a ray hits a shape, and whether one hit is strictly nearer than another.
use vstd::prelude::*;
use crate::octree::{box_test, decides};

verus! {

/// The shape test `f` may be called on every shape.
pub open spec fn shape_test<S, H, F: Fn(&S) -> Option<H>>(f: F) -> bool {
    forall|s: &S| #[trigger] f.requires((s,))
}

/// `p` tells where the shape test puts the hit on every shape.
pub open spec fn decides_hit<S, H, F: Fn(&S) -> Option<H>>(f: F, p: spec_fn(S) -> Option<H>) -> bool {
    forall|s: S, r: Option<H>| #[trigger] f.ensures((&s,), r) ==> r == p(s)
}

/// The order test `f` may be called on every pair of hits.
pub open spec fn order_test<H, F: Fn(&H, &H) -> bool>(f: F) -> bool {
    forall|a: &H, b: &H| #[trigger] f.requires((a, b))
}

/// `p` tells the order test's answer on every pair of hits.
pub open spec fn decides_order<H, F: Fn(&H, &H) -> bool>(f: F, p: spec_fn(H, H) -> bool) -> bool {
    forall|a: H, b: H, r: bool| #[trigger] f.ensures((&a, &b), r) ==> r == p(a, b)
}

/// Whether shape `i` gets its exact test: it has no box, or the ray passes its box.
pub open spec fn tested<B>(boxes: Seq<Option<B>>, i: int, box_hit: spec_fn(B) -> bool) -> bool {
    match boxes[i] {
        Some(b) => box_hit(b),
        None => true,
    }
}

/// The nearest hit among the first `n` shapes: scanning them in order, a shape that is
/// tested and hit replaces the hit kept so far when there is none yet or when it is
/// strictly nearer (`nearer(new, kept)`), so that of equally near hits the first one
/// found stays.
pub open spec fn nearest<S, B, H>(
    shapes: Seq<S>,
    boxes: Seq<Option<B>>,
    n: nat,
    box_hit: spec_fn(B) -> bool,
    shape_hit: spec_fn(S) -> Option<H>,
    nearer: spec_fn(H, H) -> bool,
) -> Option<H>
    decreases n,
{
    if n == 0 {
        None
    } else {
        let prev = nearest(shapes, boxes, (n - 1) as nat, box_hit, shape_hit, nearer);
        let i = n - 1;
        if !tested(boxes, i, box_hit) {
            prev
        } else {
            match shape_hit(shapes[i]) {
                None => prev,
                Some(h) => match prev {
                    None => Some(h),
                    Some(p) => if nearer(h, p) {
                        Some(h)
                    } else {
                        prev
                    },
                },
            }
        }
    }
}

/// Shapes and, at the same positions, their optional bounding boxes. A shape without a box
/// is always tested directly.
pub struct World<'a, S, B> {
    shapes: &'a [S],
    bounding_boxes: Vec<Option<B>>,
}

impl<'a, S, B> World<'a, S, B> {
    #[verifier::type_invariant]
    spec fn aligned(&self) -> bool {
        self.bounding_boxes@.len() == self.shapes@.len()
    }

    pub closed spec fn shapes(&self) -> Seq<S> {
        self.shapes@
    }

    /// The box of each shape, at the shape's position.
    pub closed spec fn boxes(&self) -> Seq<Option<B>> {
        self.bounding_boxes@
    }

    /// The world of `shapes`, each paired with the box that `bound` gives for it.
    pub fn construct<F: Fn(&S) -> Option<B>>(shapes: &'a [S], bound: &F) -> (r: Self)
        requires
            forall|s: &S| #[trigger] bound.requires((s,)),
        ensures
            r.shapes() == shapes@,
            r.boxes().len() == shapes@.len(),
            forall|i: int| 0 <= i < shapes@.len() ==> bound.ensures((&shapes@[i],), #[trigger] r.boxes()[i]),
    {
        let mut boxes: Vec<Option<B>> = Vec::with_capacity(shapes.len());
        let mut i: usize = 0;
        while i < shapes.len()
            invariant
                forall|s: &S| #[trigger] bound.requires((s,)),
                i <= shapes@.len(),
                boxes@.len() == i,
                forall|k: int| 0 <= k < i ==> bound.ensures((&shapes@[k],), #[trigger] boxes@[k]),
            decreases shapes@.len() - i,
        {
            boxes.push(bound(&shapes[i]));
            i = i + 1;
        }
        World { shapes, bounding_boxes: boxes }
    }

    pub fn len(&self) -> (r: usize)
        ensures
            r == self.shapes().len(),
            r == self.boxes().len(),
    {
        proof { use_type_invariant(self); }
        self.shapes.len()
    }

    /// The nearest hit of a ray (see `nearest`), or `None` when no shape is hit.
    pub fn hit_test<H, FB: Fn(&B) -> bool, FS: Fn(&S) -> Option<H>, FC: Fn(&H, &H) -> bool>(
        &self,
        box_hit: &FB,
        shape_hit: &FS,
        closer: &FC,
    ) -> (r: Option<H>)
        requires
            box_test(*box_hit),
            shape_test(*shape_hit),
            order_test(*closer),
        ensures
            forall|pb: spec_fn(B) -> bool, ps: spec_fn(S) -> Option<H>, pc: spec_fn(H, H) -> bool|
                #![trigger decides(*box_hit, pb), decides_hit(*shape_hit, ps), decides_order(*closer, pc)]
                decides(*box_hit, pb) && decides_hit(*shape_hit, ps) && decides_order(*closer, pc)
                    ==> r == nearest(self.shapes(), self.boxes(), self.shapes().len(), pb, ps, pc),
    {
        proof { use_type_invariant(self); }
        let mut nearest_hit: Option<H> = None;
        let mut i: usize = 0;
        while i < self.shapes.len()
            invariant
                box_test(*box_hit),
                shape_test(*shape_hit),
                order_test(*closer),
                self.bounding_boxes@.len() == self.shapes@.len(),
                i <= self.shapes@.len(),
                forall|pb: spec_fn(B) -> bool, ps: spec_fn(S) -> Option<H>, pc: spec_fn(H, H) -> bool|
                    #![trigger decides(*box_hit, pb), decides_hit(*shape_hit, ps), decides_order(*closer, pc)]
                    decides(*box_hit, pb) && decides_hit(*shape_hit, ps) && decides_order(*closer, pc)
                        ==> nearest_hit == nearest(self.shapes@, self.bounding_boxes@, i as nat, pb, ps, pc),
            decreases self.shapes@.len() - i,
        {
            let box_passed = match &self.bounding_boxes[i] {
                Some(b) => box_hit(b),
                None => true,
            };
            if box_passed {
                let hit = shape_hit(&self.shapes[i]);
                match hit {
                    Some(h) => {
                        let replace = match &nearest_hit {
                            None => true,
                            Some(p) => closer(&h, p),
                        };
                        if replace {
                            nearest_hit = Some(h);
                        }
                    },
                    None => {},
                }
            }
            i = i + 1;
        }
        nearest_hit
    }
}

} // verus!
