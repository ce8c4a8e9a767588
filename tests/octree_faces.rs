use rust_tracer::mesh::{nearest_face_hit, MeshDescription};
use rust_tracer::octree::FaceOctTree;

#[derive(Clone, Copy, Debug, PartialEq)]
struct IBox {
    min: [i32; 3],
    max: [i32; 3],
}

fn octants(b: &IBox) -> [IBox; 8] {
    let mid = [
        (b.min[0] + b.max[0]) / 2,
        (b.min[1] + b.max[1]) / 2,
        (b.min[2] + b.max[2]) / 2,
    ];
    let mut out = [*b; 8];
    for (k, o) in out.iter_mut().enumerate() {
        for a in 0..3 {
            if (k >> a) & 1 == 0 {
                o.min[a] = b.min[a];
                o.max[a] = mid[a];
            } else {
                o.min[a] = mid[a];
                o.max[a] = b.max[a];
            }
        }
    }
    out
}

fn inside(b: &IBox, p: [i32; 3]) -> bool {
    (0..3).all(|a| b.min[a] <= p[a] && p[a] <= b.max[a])
}

fn cube() -> IBox {
    IBox { min: [0, 0, 0], max: [8, 8, 8] }
}

fn leaves(t: &FaceOctTree<IBox>) -> Vec<(IBox, Vec<usize>)> {
    match t {
        FaceOctTree::Leaf { aabb, face_indices } => vec![(*aabb, face_indices.clone())],
        FaceOctTree::Node { children, .. } => children.iter().flat_map(leaves).collect(),
    }
}

#[test]
fn make_splits_into_empty_octant_leaves() {
    let t = FaceOctTree::make(cube(), 2, &octants);
    let ls = leaves(&t);
    assert_eq!(ls.len(), 64);
    assert!(ls.iter().all(|(_, f)| f.is_empty()));
    match &t {
        FaceOctTree::Node { aabb, children } => {
            assert_eq!(*aabb, cube());
            assert_eq!(children.len(), 8);
        }
        FaceOctTree::Leaf { .. } => panic!("a tree of two levels has a node at its root"),
    }
}

#[test]
fn make_with_no_levels_is_one_leaf() {
    let t = FaceOctTree::make(cube(), 0, &octants);
    assert_eq!(leaves(&t), vec![(cube(), vec![])]);
}

#[test]
fn fill_files_a_face_in_every_leaf_holding_a_vertex() {
    let mut t = FaceOctTree::make(cube(), 1, &octants);
    let tri = [[1, 1, 1], [7, 1, 1], [1, 1, 2]];
    t.fill(&|b: &IBox| tri.iter().any(|p| inside(b, *p)), 5);
    let with_face: Vec<IBox> = leaves(&t)
        .into_iter()
        .filter(|(_, f)| f == &vec![5])
        .map(|(b, _)| b)
        .collect();
    assert_eq!(with_face.len(), 2);
    assert!(with_face.contains(&IBox { min: [0, 0, 0], max: [4, 4, 4] }));
    assert!(with_face.contains(&IBox { min: [4, 0, 0], max: [8, 4, 4] }));
}

#[test]
fn fill_outside_the_root_files_nothing() {
    let mut t = FaceOctTree::make(cube(), 1, &octants);
    let tri = [[20, 20, 20], [21, 20, 20], [20, 21, 20]];
    t.fill(&|b: &IBox| tri.iter().any(|p| inside(b, *p)), 0);
    assert!(leaves(&t).iter().all(|(_, f)| f.is_empty()));
}

#[test]
fn hit_test_collects_faces_of_reached_leaves_in_order() {
    let mut t = FaceOctTree::make(cube(), 1, &octants);
    let a = [[1, 1, 1], [2, 1, 1], [1, 2, 1]];
    let b = [[6, 6, 6], [7, 6, 6], [6, 7, 6]];
    t.fill(&|bx: &IBox| a.iter().any(|p| inside(bx, *p)), 0);
    t.fill(&|bx: &IBox| b.iter().any(|p| inside(bx, *p)), 1);
    assert_eq!(t.hit_test(&|_: &IBox| true), vec![0, 1]);
    // A ray that only passes the lower corner octant.
    assert_eq!(t.hit_test(&|bx: &IBox| bx.min == [0, 0, 0]), vec![0]);
    // A ray that misses the root box reaches nothing.
    assert_eq!(t.hit_test(&|_: &IBox| false), Vec::<usize>::new());
}

#[test]
fn a_face_in_several_leaves_is_a_candidate_once_per_leaf() {
    let mut t = FaceOctTree::make(cube(), 1, &octants);
    let wide = [[1, 1, 1], [7, 7, 7], [1, 7, 1]];
    t.fill(&|bx: &IBox| wide.iter().any(|p| inside(bx, *p)), 3);
    let all = t.hit_test(&|_: &IBox| true);
    assert_eq!(all, vec![3, 3, 3]);
}

#[test]
fn every_face_filed_under_a_reached_leaf_is_a_candidate() {
    // Face k has the vertices (k, k, k), (k, k, 0) and (0, k, k). A ray whose box test
    // passes exactly the boxes that hold the point (5, 5, 5) reaches the one leaf
    // [4, 6]^3, which holds a vertex of faces 4, 5 and 6 only.
    let faces: Vec<[[i32; 3]; 3]> = (0..8).map(|k| [[k, k, k], [k, k, 0], [0, k, k]]).collect();
    let mut t = FaceOctTree::make(cube(), 2, &octants);
    for (id, f) in faces.iter().enumerate() {
        t.fill(&|bx: &IBox| f.iter().any(|p| inside(bx, *p)), id);
    }
    let probe = [5, 5, 5];
    assert_eq!(t.hit_test(&|bx: &IBox| inside(bx, probe)), vec![4, 5, 6]);
    // With every box passed, each face comes once for each leaf holding one of its vertices.
    let all = t.hit_test(&|_: &IBox| true);
    for id in 0..8 {
        let expected = leaves(&t).iter().filter(|(_, ids)| ids.contains(&id)).count();
        assert_eq!(all.iter().filter(|x| **x == id).count(), expected);
        assert!(expected >= 1);
    }
}

#[test]
fn fill_mesh_files_each_whole_face_where_its_vertices_are() {
    let vertices = [[1, 1, 1], [2, 1, 1], [1, 2, 1], [7, 7, 7], [6, 7, 7], [7, 6, 7]];
    // Face 0 lies in the lower corner octant, face 1 in the upper one, face 2 names a
    // vertex that does not exist, and the last index is a tail shorter than a face.
    let indices = [0, 1, 2, 3, 4, 5, 0, 1, 9, 3];
    let mesh = MeshDescription { vertices: &vertices, indices: &indices, triangle_count: 4 };
    let mut t = FaceOctTree::make(cube(), 1, &octants);
    t.fill_mesh(&mesh, &|v: &[i32; 3], b: &IBox| inside(b, *v));
    let filed: Vec<(IBox, Vec<usize>)> = leaves(&t).into_iter().filter(|(_, f)| !f.is_empty()).collect();
    assert_eq!(
        filed,
        vec![
            (IBox { min: [0, 0, 0], max: [4, 4, 4] }, vec![0]),
            (IBox { min: [4, 4, 4], max: [8, 8, 8] }, vec![1]),
        ]
    );
    assert_eq!(t.hit_test(&|_: &IBox| true), vec![0, 1]);
}

#[test]
fn fill_mesh_uses_no_more_than_triangle_count_faces() {
    let vertices = [[1, 1, 1], [2, 1, 1], [1, 2, 1], [7, 7, 7], [6, 7, 7], [7, 6, 7]];
    let indices = [0, 1, 2, 3, 4, 5];
    let mesh = MeshDescription { vertices: &vertices, indices: &indices, triangle_count: 1 };
    let mut t = FaceOctTree::make(cube(), 1, &octants);
    t.fill_mesh(&mesh, &|v: &[i32; 3], b: &IBox| inside(b, *v));
    assert_eq!(t.hit_test(&|_: &IBox| true), vec![0]);
}

#[test]
fn candidates_find_the_same_nearest_hit_as_every_face() {
    // A "ray" along the line x = y = 5 passes the boxes holding points with x and y near 5;
    // face k is hit at distance 10 - k when it has a vertex on the line, else missed.
    let vertices: Vec<[i32; 3]> = (0..8).flat_map(|k| vec![[k, k, k], [k, 0, 0], [0, k, 0]]).collect();
    let indices: Vec<usize> = (0..vertices.len()).collect();
    let mesh = MeshDescription { vertices: &vertices, indices: &indices, triangle_count: 8 };
    let mut t = FaceOctTree::make(cube(), 2, &octants);
    t.fill_mesh(&mesh, &|v: &[i32; 3], b: &IBox| inside(b, *v));
    let on_line = |b: &IBox| b.min[0] <= 5 && 5 <= b.max[0] && b.min[1] <= 5 && 5 <= b.max[1];
    let face_hit = |f: usize| {
        let hit = mesh.face(f).map_or(false, |(a, _, _)| a[0] == 5 || a[0] == 4 || a[0] == 6);
        if hit { Some((10 - f as i32, f)) } else { None }
    };
    let not_farther = |a: &(i32, usize), b: &(i32, usize)| a.0 <= b.0;
    let cands = t.hit_test(&on_line);
    let every: Vec<usize> = (0..mesh.face_count()).collect();
    let fast = nearest_face_hit(&cands, &face_hit, &not_farther);
    let slow = nearest_face_hit(&every, &face_hit, &not_farther);
    assert_eq!(fast, Some((4, 6)));
    assert_eq!(fast, slow);
}
