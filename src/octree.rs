//! An eight-way spatial tree over the faces of a triangle mesh.
//!
//! The tree is generic over its box type `B`. Each operation takes the geometric test it
//! needs as a function of a box: `make` splits a box into its eight octants, `fill` asks
//! whether a box holds a vertex of the face being filed, `hit_test` asks whether a ray
//! passes through a box. A face is filed in every leaf whose box, and every enclosing box,
//! holds one of its vertices; a ray's candidates are the faces of every leaf whose box,
//! and every enclosing box, the ray passes through. `fill_mesh` files every face of a
//! mesh in turn.
use vstd::prelude::*;
use crate::mesh::{
    MeshDescription, lemma_nearest_face_same_faces, nearest_face, total_preorder, used_faces,
};

verus! {

/// A node splits its box among its children; a leaf holds the ids of the faces filed in it.
#[verifier::reject_recursive_types(B)]
pub enum FaceOctTree<B> {
    Node { aabb: B, children: Vec<FaceOctTree<B>> },
    Leaf { aabb: B, face_indices: Vec<usize> },
}

/// The box test `f` may be called on every box.
pub open spec fn box_test<B, F: Fn(&B) -> bool>(f: F) -> bool {
    forall|b: &B| #[trigger] f.requires((b,))
}

/// `p` tells the box test's answer for every box: whatever `f` returns for a box `b` is
/// `p(b)`.
pub open spec fn decides<B, F: Fn(&B) -> bool>(f: F, p: spec_fn(B) -> bool) -> bool {
    forall|b: B, r: bool| #[trigger] f.ensures((&b,), r) ==> r == p(b)
}

/// The face ids of the leaves reached from `t` through boxes that `accept` holds of,
/// leaf after leaf in the order of the children, each leaf's ids in the order filed.
pub open spec fn faces_where<B>(t: FaceOctTree<B>, accept: spec_fn(B) -> bool) -> Seq<usize>
    decreases t,
{
    match t {
        FaceOctTree::Leaf { aabb, face_indices } => {
            if accept(aabb) {
                face_indices@
            } else {
                Seq::empty()
            }
        },
        FaceOctTree::Node { aabb, children } => {
            if accept(aabb) {
                faces_of_children(children@, accept, children@.len())
            } else {
                Seq::empty()
            }
        },
    }
}

/// `faces_where` of the first `n` of `kids`, one after the other.
pub open spec fn faces_of_children<B>(
    kids: Seq<FaceOctTree<B>>,
    accept: spec_fn(B) -> bool,
    n: nat,
) -> Seq<usize>
    decreases kids, n,
{
    if n == 0 || n > kids.len() {
        Seq::empty()
    } else {
        faces_of_children(kids, accept, (n - 1) as nat) + faces_where(kids[n - 1], accept)
    }
}

/// `after` is `before` with `face` filed under `accept`: appended to the ids of every leaf
/// whose box, and every enclosing box, `accept` holds of; everything else unchanged.
pub open spec fn filed<B>(
    before: FaceOctTree<B>,
    after: FaceOctTree<B>,
    face: usize,
    accept: spec_fn(B) -> bool,
) -> bool
    decreases before,
{
    match before {
        FaceOctTree::Leaf { aabb, face_indices } => match after {
            FaceOctTree::Leaf { aabb: a, face_indices: f } => {
                &&& a == aabb
                &&& f@ == if accept(aabb) {
                    face_indices@.push(face)
                } else {
                    face_indices@
                }
            },
            _ => false,
        },
        FaceOctTree::Node { aabb, children } => match after {
            FaceOctTree::Node { aabb: a, children: c } => {
                &&& a == aabb
                &&& c@.len() == children@.len()
                &&& if accept(aabb) {
                    forall|i: int|
                        0 <= i < children@.len() ==> filed(children@[i], #[trigger] c@[i], face, accept)
                } else {
                    c@ == children@
                }
            },
            _ => false,
        },
    }
}

/// `t` has `depth` levels below its root, whose box is `b`: each node's children are, in
/// order, boxed by the eight boxes that `split` gave for the node's box, and every leaf is
/// empty.
pub open spec fn built<B, F: Fn(&B) -> [B; 8]>(t: FaceOctTree<B>, b: B, depth: nat, split: F) -> bool
    decreases depth,
{
    match t {
        FaceOctTree::Leaf { aabb, face_indices } => {
            &&& depth == 0
            &&& aabb == b
            &&& face_indices@.len() == 0
        },
        FaceOctTree::Node { aabb, children } => {
            &&& depth > 0
            &&& aabb == b
            &&& children@.len() == 8
            &&& exists|parts: [B; 8]|
                #[trigger] split.ensures((&b,), parts) && forall|i: int|
                    0 <= i < 8 ==> built(#[trigger] children@[i], parts[i], (depth - 1) as nat, split)
        },
    }
}

/// Some leaf of `t` is reached through boxes that `accept` holds of: its own box and every
/// enclosing box.
pub open spec fn reaches_leaf<B>(t: FaceOctTree<B>, accept: spec_fn(B) -> bool) -> bool
    decreases t,
{
    match t {
        FaceOctTree::Leaf { aabb, .. } => accept(aabb),
        FaceOctTree::Node { aabb, children } => {
            &&& accept(aabb)
            &&& exists|i: int| 0 <= i < children@.len() && reaches_leaf(#[trigger] children@[i], accept)
        },
    }
}

/// An id is among the faces of the first `n` children exactly when it is among the faces
/// of one of them.
proof fn lemma_faces_of_children_contains<B>(
    kids: Seq<FaceOctTree<B>>,
    accept: spec_fn(B) -> bool,
    n: nat,
    id: usize,
)
    requires
        n <= kids.len(),
    ensures
        faces_of_children(kids, accept, n).contains(id) <==> exists|i: int|
            0 <= i < n && #[trigger] faces_where(kids[i], accept).contains(id),
    decreases n,
{
    if n > 0 {
        lemma_faces_of_children_contains(kids, accept, (n - 1) as nat, id);
        let head = faces_of_children(kids, accept, (n - 1) as nat);
        let last = faces_where(kids[n - 1], accept);
        assert(faces_of_children(kids, accept, n) == head + last);
        if (head + last).contains(id) {
            let k = choose|k: int| 0 <= k < (head + last).len() && (head + last)[k] == id;
            if k < head.len() {
                assert(head[k] == id);
                assert(head.contains(id));
                let i = choose|i: int| 0 <= i < n - 1 && #[trigger] faces_where(kids[i], accept).contains(id);
                assert(0 <= i < n && faces_where(kids[i], accept).contains(id));
            } else {
                assert(last[k - head.len()] == id);
                assert(last.contains(id));
                assert(faces_where(kids[n - 1], accept).contains(id));
            }
        }
        if exists|i: int| 0 <= i < n && #[trigger] faces_where(kids[i], accept).contains(id) {
            let i = choose|i: int| 0 <= i < n && #[trigger] faces_where(kids[i], accept).contains(id);
            if i < n - 1 {
                assert(head.contains(id));
                let k = choose|k: int| 0 <= k < head.len() && head[k] == id;
                assert((head + last)[k] == id);
            } else {
                let k = choose|k: int| 0 <= k < last.len() && last[k] == id;
                assert((head + last)[head.len() + k] == id);
            }
            assert((head + last).contains(id));
        }
    }
}

/// Filing a face changes the candidates of no other face id, and makes the face a candidate
/// for a ray exactly when some leaf is reached through boxes that both hold a vertex of the
/// face and are passed by the ray. So every face whose leaves a ray's box tests reach is
/// tested against the ray, however many leaves it was filed in.
pub proof fn lemma_filed_candidates<B>(
    before: FaceOctTree<B>,
    after: FaceOctTree<B>,
    face: usize,
    contains: spec_fn(B) -> bool,
    is_hit: spec_fn(B) -> bool,
    id: usize,
)
    requires
        filed(before, after, face, contains),
    ensures
        faces_where(after, is_hit).contains(id) <==> (faces_where(before, is_hit).contains(id) || (
        id == face && reaches_leaf(before, |b: B| contains(b) && is_hit(b)))),
    decreases before,
{
    let both = |b: B| contains(b) && is_hit(b);
    match before {
        FaceOctTree::Leaf { aabb, face_indices } => {
            if is_hit(aabb) && contains(aabb) {
                let f = face_indices@;
                assert(f.push(face)[f.len() as int] == face);
                if f.push(face).contains(id) {
                    let k = choose|k: int| 0 <= k < f.push(face).len() && f.push(face)[k] == id;
                    if k < f.len() {
                        assert(f[k] == id);
                    }
                }
                if f.contains(id) {
                    let k = choose|k: int| 0 <= k < f.len() && f[k] == id;
                    assert(f.push(face)[k] == id);
                }
            }
        },
        FaceOctTree::Node { aabb, children } => {
            let c = after->children;
            if is_hit(aabb) {
                lemma_faces_of_children_contains(children@, is_hit, children@.len(), id);
                lemma_faces_of_children_contains(c@, is_hit, c@.len(), id);
                if contains(aabb) {
                    assert forall|i: int| 0 <= i < children@.len() implies (#[trigger] faces_where(
                        c@[i],
                        is_hit,
                    ).contains(id) <==> (faces_where(children@[i], is_hit).contains(id) || (id == face
                        && reaches_leaf(children@[i], both)))) by {
                        assert(decreases_to!(before => before->children));
                        assert(decreases_to!(children => children[i]));
                        lemma_filed_candidates(children@[i], c@[i], face, contains, is_hit, id);
                    }
                    if id == face && reaches_leaf(before, both) {
                        let i = choose|i: int| 0 <= i < children@.len() && reaches_leaf(#[trigger] children@[i], both);
                        assert(faces_where(c@[i], is_hit).contains(id));
                    }
                    if faces_where(after, is_hit).contains(id) {
                        let i = choose|i: int| 0 <= i < c@.len() && #[trigger] faces_where(c@[i], is_hit).contains(id);
                        if !faces_where(children@[i], is_hit).contains(id) {
                            assert(reaches_leaf(children@[i], both));
                        }
                    }
                    if faces_where(before, is_hit).contains(id) {
                        let i = choose|i: int| 0 <= i < children@.len() && #[trigger] faces_where(children@[i], is_hit).contains(id);
                        assert(faces_where(c@[i], is_hit).contains(id));
                    }
                }
            }
        },
    }
}

/// The vertex test `f` may be called on every vertex and box.
pub open spec fn vertex_test<V, B, F: Fn(&V, &B) -> bool>(f: F) -> bool {
    forall|v: &V, b: &B| #[trigger] f.requires((v, b))
}

/// `q` tells the vertex test's answer for every vertex and box.
pub open spec fn decides_vertex<V, B, F: Fn(&V, &B) -> bool>(f: F, q: spec_fn(V, B) -> bool) -> bool {
    forall|v: V, b: B, r: bool| #[trigger] f.ensures((&v, &b), r) ==> r == q(v, b)
}

/// The box test of face `f` of `mesh`: the box holds one of the face's three vertices.
pub open spec fn face_in_box<V, B>(
    mesh: MeshDescription<V>,
    f: nat,
    inside: spec_fn(V, B) -> bool,
) -> spec_fn(B) -> bool {
    |b: B|
        inside(mesh.vertices@[mesh.indices@[3 * f as int] as int], b) || inside(
            mesh.vertices@[mesh.indices@[3 * f as int + 1] as int],
            b,
        ) || inside(mesh.vertices@[mesh.indices@[3 * f as int + 2] as int], b)
}

/// `after` is `before` with the faces `0..n` of `mesh` filed one after the other, each in
/// the leaves whose boxes hold one of its vertices; a face that is not whole is skipped.
pub open spec fn mesh_filed<V, B>(
    before: FaceOctTree<B>,
    after: FaceOctTree<B>,
    mesh: MeshDescription<V>,
    inside: spec_fn(V, B) -> bool,
    n: nat,
) -> bool
    decreases n,
{
    if n == 0 {
        after == before
    } else {
        exists|mid: FaceOctTree<B>|
            mesh_filed(before, mid, mesh, inside, (n - 1) as nat) && #[trigger] face_filed(
                mid,
                after,
                mesh,
                inside,
                (n - 1) as nat,
            )
    }
}

/// `after` is `before` with face `f` of `mesh` filed, or unchanged when the face is not whole.
pub open spec fn face_filed<V, B>(
    before: FaceOctTree<B>,
    after: FaceOctTree<B>,
    mesh: MeshDescription<V>,
    inside: spec_fn(V, B) -> bool,
    f: nat,
) -> bool {
    if mesh.face_is_whole(f) {
        filed(before, after, f as usize, face_in_box(mesh, f, inside))
    } else {
        after == before
    }
}

/// Filing face `k - 1` after faces `0..k - 1` gives faces `0..k` filed.
proof fn lemma_mesh_filed_step<V, B>(
    before: FaceOctTree<B>,
    mid: FaceOctTree<B>,
    after: FaceOctTree<B>,
    mesh: MeshDescription<V>,
    inside: spec_fn(V, B) -> bool,
    k: nat,
)
    requires
        k > 0,
        mesh_filed(before, mid, mesh, inside, (k - 1) as nat),
        face_filed(mid, after, mesh, inside, (k - 1) as nat),
    ensures
        mesh_filed(before, after, mesh, inside, k),
{
}

/// Filing a face changes no box: the same leaves are reached through the same boxes.
proof fn lemma_filed_keeps_leaves<B>(
    before: FaceOctTree<B>,
    after: FaceOctTree<B>,
    face: usize,
    accept: spec_fn(B) -> bool,
    p: spec_fn(B) -> bool,
)
    requires
        filed(before, after, face, accept),
    ensures
        reaches_leaf(after, p) == reaches_leaf(before, p),
    decreases before,
{
    match before {
        FaceOctTree::Leaf { .. } => {},
        FaceOctTree::Node { aabb, children } => {
            let c = after->children;
            if accept(aabb) {
                assert forall|i: int| 0 <= i < children@.len() implies reaches_leaf(#[trigger] c@[i], p)
                    == reaches_leaf(children@[i], p) by {
                    assert(decreases_to!(before => before->children));
                    assert(decreases_to!(children => children[i]));
                    lemma_filed_keeps_leaves(children@[i], c@[i], face, accept, p);
                }
                if reaches_leaf(before, p) {
                    let i = choose|i: int| 0 <= i < children@.len() && reaches_leaf(#[trigger] children@[i], p);
                    assert(reaches_leaf(c@[i], p));
                }
                if reaches_leaf(after, p) {
                    let i = choose|i: int| 0 <= i < c@.len() && reaches_leaf(#[trigger] c@[i], p);
                    assert(reaches_leaf(children@[i], p));
                }
            }
        },
    }
}

/// Filing the faces of a mesh changes no box.
proof fn lemma_mesh_filed_keeps_leaves<V, B>(
    before: FaceOctTree<B>,
    after: FaceOctTree<B>,
    mesh: MeshDescription<V>,
    inside: spec_fn(V, B) -> bool,
    n: nat,
    p: spec_fn(B) -> bool,
)
    requires
        mesh_filed(before, after, mesh, inside, n),
    ensures
        reaches_leaf(after, p) == reaches_leaf(before, p),
    decreases n,
{
    if n > 0 {
        let mid = choose|mid: FaceOctTree<B>|
            mesh_filed(before, mid, mesh, inside, (n - 1) as nat) && #[trigger] face_filed(
                mid,
                after,
                mesh,
                inside,
                (n - 1) as nat,
            );
        lemma_mesh_filed_keeps_leaves(before, mid, mesh, inside, (n - 1) as nat, p);
        if mesh.face_is_whole((n - 1) as nat) {
            lemma_filed_keeps_leaves(
                mid,
                after,
                (n - 1) as usize,
                face_in_box(mesh, (n - 1) as nat, inside),
                p,
            );
        }
    }
}

/// Once faces `0..n` of a mesh are filed in a tree where face `id` was no candidate for a
/// ray, `id` is a candidate exactly when it is one of those faces, whole, and some leaf is
/// reached through boxes that both hold one of its vertices and are passed by the ray.
/// No face that could meet the ray inside such a leaf is left out of the candidates.
pub proof fn lemma_mesh_candidates<V, B>(
    before: FaceOctTree<B>,
    after: FaceOctTree<B>,
    mesh: MeshDescription<V>,
    inside: spec_fn(V, B) -> bool,
    n: nat,
    is_hit: spec_fn(B) -> bool,
    id: usize,
)
    requires
        mesh_filed(before, after, mesh, inside, n),
        !faces_where(before, is_hit).contains(id),
    ensures
        faces_where(after, is_hit).contains(id) <==> (id < n && mesh.face_is_whole(id as nat)
            && reaches_leaf(before, |b: B| face_in_box(mesh, id as nat, inside)(b) && is_hit(b))),
    decreases n,
{
    if n > 0 {
        let k = (n - 1) as nat;
        let mid = choose|mid: FaceOctTree<B>|
            mesh_filed(before, mid, mesh, inside, k) && #[trigger] face_filed(mid, after, mesh, inside, k);
        lemma_mesh_candidates(before, mid, mesh, inside, k, is_hit, id);
        let both = |b: B| face_in_box(mesh, id as nat, inside)(b) && is_hit(b);
        lemma_mesh_filed_keeps_leaves(before, mid, mesh, inside, k, both);
        if mesh.face_is_whole(k) {
            assert(mesh.indices.len() == mesh.indices@.len());
            assert(k as usize == k);
            let acc = face_in_box(mesh, k, inside);
            lemma_filed_candidates(mid, after, k as usize, acc, is_hit, id);
            if id == k {
                assert((|b: B| acc(b) && is_hit(b)) =~= both);
            }
        }
    }
}

/// A mesh's faces `0..n` filed in a tree that held no face: where every face that a ray
/// hits lies in some leaf reached through boxes that hold one of its vertices and are
/// passed by the ray, testing the ray's candidates finds a hit exactly when testing each
/// of the faces does, and the two hits are equally near (`not_farther` both ways).
pub proof fn lemma_candidates_find_nearest<V, B, H>(
    empty: FaceOctTree<B>,
    tree: FaceOctTree<B>,
    mesh: MeshDescription<V>,
    inside: spec_fn(V, B) -> bool,
    n: nat,
    is_hit: spec_fn(B) -> bool,
    face_hit: spec_fn(usize) -> Option<H>,
    not_farther: spec_fn(H, H) -> bool,
)
    requires
        mesh_filed(empty, tree, mesh, inside, n),
        faces_where(empty, is_hit) == Seq::<usize>::empty(),
        n <= usize::MAX,
        total_preorder(not_farther),
        forall|f: usize| #[trigger] face_hit(f) is Some ==> mesh.face_is_whole(f as nat),
        forall|f: usize|
            f < n && #[trigger] face_hit(f) is Some ==> reaches_leaf(
                empty,
                |b: B| face_in_box(mesh, f as nat, inside)(b) && is_hit(b),
            ),
    ensures
        ({
            let cands = faces_where(tree, is_hit);
            let every = Seq::new(n, |i: int| i as usize);
            &&& (nearest_face(cands, cands.len(), face_hit, not_farther) is Some) == (nearest_face(
                every,
                every.len(),
                face_hit,
                not_farther,
            ) is Some)
            &&& nearest_face(cands, cands.len(), face_hit, not_farther) matches Some(kc) ==> nearest_face(
                every,
                every.len(),
                face_hit,
                not_farther,
            ) matches Some(ke) && not_farther(kc, ke) && not_farther(ke, kc)
        }),
{
    let cands = faces_where(tree, is_hit);
    let every = Seq::new(n, |i: int| i as usize);
    assert forall|j: int| 0 <= j < cands.len() && face_hit(cands[j]) is Some implies every.contains(
        #[trigger] cands[j],
    ) by {
        let id = cands[j];
        assert(cands.contains(id));
        lemma_mesh_candidates(empty, tree, mesh, inside, n, is_hit, id);
        assert(every[id as int] == id);
    }
    assert forall|j: int| 0 <= j < every.len() && face_hit(every[j]) is Some implies cands.contains(
        #[trigger] every[j],
    ) by {
        let id = every[j];
        assert(id == j);
        lemma_mesh_candidates(empty, tree, mesh, inside, n, is_hit, id);
    }
    lemma_nearest_face_same_faces(cands, every, face_hit, not_farther);
}

fn copy_ids(v: &Vec<usize>) -> (r: Vec<usize>)
    ensures
        r@ == v@,
{
    let mut r: Vec<usize> = Vec::new();
    let mut i: usize = 0;
    while i < v.len()
        invariant
            i <= v@.len(),
            r@ == v@.subrange(0, i as int),
        decreases v@.len() - i,
    {
        r.push(v[i]);
        i = i + 1;
        assert(r@ =~= v@.subrange(0, i as int));
    }
    assert(r@ =~= v@);
    r
}

impl<B> FaceOctTree<B> {
    /// Files every used face of `mesh`, in order, in the leaves whose boxes hold one of its
    /// vertices, as `contains` tells for each vertex and box.
    pub fn fill_mesh<V, F: Fn(&V, &B) -> bool>(&mut self, mesh: &MeshDescription<V>, contains: &F)
        requires
            vertex_test(*contains),
        ensures
            forall|q: spec_fn(V, B) -> bool|
                #[trigger] decides_vertex(*contains, q) ==> mesh_filed(
                    *old(self),
                    *final(self),
                    *mesh,
                    q,
                    used_faces(mesh.indices@.len(), mesh.triangle_count as nat),
                ),
    {
        let n = mesh.face_count();
        let mut face_id: usize = 0;
        while face_id < n
            invariant
                vertex_test(*contains),
                n == used_faces(mesh.indices@.len(), mesh.triangle_count as nat),
                face_id <= n,
                forall|q: spec_fn(V, B) -> bool|
                    #[trigger] decides_vertex(*contains, q) ==> mesh_filed(*old(self), *self, *mesh, q, face_id as nat),
            decreases n - face_id,
        {
            let ghost mid = *self;
            match mesh.face(face_id) {
                Some((a, b, c)) => {
                    let holds = |bx: &B| -> (r: bool)
                        ensures
                            exists|x: bool, y: bool, z: bool|
                                contains.ensures((a, bx), x) && contains.ensures((b, bx), y)
                                    && contains.ensures((c, bx), z) && r == (x || y || z),
                        {
                            let x = contains(a, bx);
                            let y = contains(b, bx);
                            let z = contains(c, bx);
                            x || y || z
                        };
                    self.fill(&holds, face_id);
                    assert forall|q: spec_fn(V, B) -> bool| #[trigger] decides_vertex(*contains, q) implies mesh_filed(
                        *old(self),
                        *self,
                        *mesh,
                        q,
                        (face_id + 1) as nat,
                    ) by {
                        let accept = face_in_box(*mesh, face_id as nat, q);
                        assert(decides(holds, accept));
                        assert(filed(mid, *self, face_id, accept));
                        assert(mesh_filed(*old(self), mid, *mesh, q, face_id as nat));
                        lemma_mesh_filed_step(*old(self), mid, *self, *mesh, q, (face_id + 1) as nat);
                    }
                },
                None => {
                    assert forall|q: spec_fn(V, B) -> bool| #[trigger] decides_vertex(*contains, q) implies mesh_filed(
                        *old(self),
                        *self,
                        *mesh,
                        q,
                        (face_id + 1) as nat,
                    ) by {
                        assert(mesh_filed(*old(self), mid, *mesh, q, face_id as nat));
                        lemma_mesh_filed_step(*old(self), mid, *self, *mesh, q, (face_id + 1) as nat);
                    }
                },
            }
            face_id = face_id + 1;
        }
    }

    /// Files `face_id` in every leaf whose box, and every enclosing box, holds a vertex of
    /// the face, as `contains` tells; a face may so land in several leaves.
    pub fn fill<F: Fn(&B) -> bool>(&mut self, contains: &F, face_id: usize)
        requires
            box_test(*contains),
        ensures
            forall|p: spec_fn(B) -> bool|
                #[trigger] decides(*contains, p) ==> filed(*old(self), *final(self), face_id, p),
        decreases *old(self),
    {
        match self {
            FaceOctTree::Leaf { aabb, face_indices } => {
                if contains(aabb) {
                    face_indices.push(face_id);
                }
            },
            FaceOctTree::Node { aabb, children } => {
                if contains(aabb) {
                    let ghost kids0 = *children;
                    let mut i: usize = 0;
                    while i < children.len()
                        invariant
                            box_test(*contains),
                            *old(self) == (FaceOctTree::Node { aabb: *aabb, children: kids0 }),
                            forall|p: spec_fn(B) -> bool| #[trigger] decides(*contains, p) ==> p(*aabb),
                            children@.len() == kids0@.len(),
                            i <= children@.len(),
                            forall|p: spec_fn(B) -> bool|
                                #[trigger] decides(*contains, p) ==> forall|k: int|
                                    0 <= k < i ==> filed(kids0@[k], #[trigger] children@[k], face_id, p),
                            forall|k: int| i <= k < children@.len() ==> #[trigger] children@[k] == kids0@[k],
                        decreases children@.len() - i,
                    {
                        proof {
                            assert(old(self)->children == kids0);
                            assert(decreases_to!(*old(self) => old(self)->children));
                            assert(decreases_to!(kids0 => kids0[i as int]));
                        }
                        children[i].fill(contains, face_id);
                        i = i + 1;
                    }
                }
            },
        }
    }

    /// The face ids that a ray may hit: those of every leaf whose box, and every enclosing
    /// box, `is_hit` accepts, leaf after leaf. A subtree whose box is rejected is skipped
    /// without testing anything inside it. A face filed in several leaves comes once for
    /// each of them.
    pub fn hit_test<F: Fn(&B) -> bool>(&self, is_hit: &F) -> (r: Vec<usize>)
        requires
            box_test(*is_hit),
        ensures
            forall|p: spec_fn(B) -> bool| #[trigger] decides(*is_hit, p) ==> r@ == faces_where(*self, p),
        decreases self,
    {
        match self {
            FaceOctTree::Leaf { aabb, face_indices } => {
                if is_hit(aabb) {
                    copy_ids(face_indices)
                } else {
                    Vec::new()
                }
            },
            FaceOctTree::Node { aabb, children } => {
                if is_hit(aabb) {
                    let mut r: Vec<usize> = Vec::new();
                    let mut i: usize = 0;
                    while i < children.len()
                        invariant
                            box_test(*is_hit),
                            *self == (FaceOctTree::Node { aabb: *aabb, children: *children }),
                            forall|p: spec_fn(B) -> bool| #[trigger] decides(*is_hit, p) ==> p(*aabb),
                            i <= children@.len(),
                            forall|p: spec_fn(B) -> bool|
                                #[trigger] decides(*is_hit, p) ==> r@ == faces_of_children(children@, p, i as nat),
                        decreases children@.len() - i,
                    {
                        proof {
                            assert(self->children == *children);
                            assert(decreases_to!(*self => self->children));
                            assert(decreases_to!(*children => children[i as int]));
                        }
                        let mut sub = children[i].hit_test(is_hit);
                        r.append(&mut sub);
                        i = i + 1;
                    }
                    r
                } else {
                    Vec::new()
                }
            },
        }
    }
}

impl<B: Copy> FaceOctTree<B> {
    /// A tree of `depth_levels` levels over `initial_aabb`, each box split into the eight
    /// octants that `split` gives for it, with no face filed yet.
    pub fn make<F: Fn(&B) -> [B; 8]>(initial_aabb: B, depth_levels: u8, split: &F) -> (r: Self)
        requires
            forall|b: &B| #[trigger] split.requires((b,)),
        ensures
            built(r, initial_aabb, depth_levels as nat, *split),
        decreases depth_levels,
    {
        if depth_levels == 0 {
            FaceOctTree::Leaf { aabb: initial_aabb, face_indices: Vec::new() }
        } else {
            let parts = split(&initial_aabb);
            let next_depth_levels = depth_levels - 1;
            let mut children: Vec<FaceOctTree<B>> = Vec::new();
            let mut i: usize = 0;
            while i < 8
                invariant
                    forall|b: &B| #[trigger] split.requires((b,)),
                    next_depth_levels == depth_levels - 1,
                    i <= 8,
                    children@.len() == i,
                    forall|k: int|
                        0 <= k < i ==> built(#[trigger] children@[k], parts[k], next_depth_levels as nat, *split),
                decreases 8 - i,
            {
                children.push(FaceOctTree::make(parts[i], next_depth_levels, split));
                i = i + 1;
            }
            let r = FaceOctTree::Node { aabb: initial_aabb, children };
            assert(split.ensures((&initial_aabb,), parts));
            r
        }
    }
}

} // verus!
