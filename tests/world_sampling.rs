use rust_tracer::integrator::{after_hit_test, after_scatter, PathStep};
use rust_tracer::sampling::SampleSet;
use rust_tracer::world::World;

// A shape here is a distance along the ray (None: the ray misses it) and a name; a box is
// whether the ray passes it.
type Shape = (Option<f32>, &'static str);

fn nearest(world: &World<Shape, bool>) -> Option<(f32, &'static str)> {
    world.hit_test(
        &|passed: &bool| *passed,
        &|s: &Shape| s.0.map(|t| (t, s.1)),
        &|a: &(f32, &'static str), b: &(f32, &'static str)| b.0 > a.0,
    )
}

#[test]
fn world_keeps_the_nearest_hit() {
    let shapes: [Shape; 3] = [(Some(5.0), "far"), (Some(2.0), "near"), (Some(3.0), "middle")];
    let world = World::construct(&shapes, &|_: &Shape| None::<bool>);
    assert_eq!(world.len(), 3);
    assert_eq!(nearest(&world), Some((2.0, "near")));
}

#[test]
fn world_keeps_the_first_of_equally_near_hits() {
    let shapes: [Shape; 3] = [(Some(4.0), "first"), (Some(4.0), "second"), (None, "miss")];
    let world = World::construct(&shapes, &|_: &Shape| None::<bool>);
    assert_eq!(nearest(&world), Some((4.0, "first")));
}

#[test]
fn world_skips_shapes_whose_box_the_ray_misses() {
    let shapes: [Shape; 2] = [(Some(1.0), "boxed"), (Some(6.0), "open")];
    // The boxed shape's box is missed: its exact test is not made.
    let world = World::construct(&shapes, &|s: &Shape| if s.1 == "boxed" { Some(false) } else { None });
    assert_eq!(nearest(&world), Some((6.0, "open")));
    let passed = World::construct(&shapes, &|s: &Shape| if s.1 == "boxed" { Some(true) } else { None });
    assert_eq!(nearest(&passed), Some((1.0, "boxed")));
}

#[test]
fn world_without_a_hit_is_none() {
    let shapes: [Shape; 2] = [(None, "a"), (None, "b")];
    let world = World::construct(&shapes, &|_: &Shape| None::<bool>);
    assert_eq!(nearest(&world), None);
    let empty: [Shape; 0] = [];
    assert_eq!(nearest(&World::construct(&empty, &|_: &Shape| None::<bool>)), None);
}

#[test]
fn sample_set_needs_a_point() {
    assert!(SampleSet::<u32>::new(vec![]).is_none());
    let s = SampleSet::new(vec![7u32, 8, 9]).unwrap();
    assert_eq!(s.len(), 3);
    assert_eq!(*s.get(1), 8);
}

#[test]
fn pick_draws_a_point_of_the_set() {
    let points: Vec<u32> = (0..16).collect();
    let s = SampleSet::new(points).unwrap();
    let mut rng = rand::thread_rng();
    let mut seen = vec![false; 16];
    for _ in 0..2000 {
        let p = *s.pick(&mut rng);
        assert!(p < 16);
        seen[p as usize] = true;
    }
    // A uniform draw over sixteen positions reaches more than one of them.
    assert!(seen.iter().filter(|x| **x).count() > 1);
    let single = SampleSet::new(vec![42u32]).unwrap();
    assert_eq!(*single.pick(&mut rng), 42);
}

#[test]
fn spent_budget_gives_black_before_anything_else() {
    assert_eq!(after_hit_test(0, true), PathStep::Black);
    assert_eq!(after_hit_test(0, false), PathStep::Black);
}

#[test]
fn miss_gives_sky_and_hit_scatters() {
    assert_eq!(after_hit_test(3, false), PathStep::Sky);
    assert_eq!(after_hit_test(3, true), PathStep::Scatter);
}

#[test]
fn scatter_outcomes() {
    assert_eq!(after_scatter(10, false, false), PathStep::Black);
    assert_eq!(after_scatter(10, false, true), PathStep::Black);
    assert_eq!(after_scatter(10, true, true), PathStep::Sky);
    assert_eq!(after_scatter(10, true, false), PathStep::Bounce { depth: 9 });
    assert_eq!(after_scatter(1, true, false), PathStep::Bounce { depth: 0 });
}
