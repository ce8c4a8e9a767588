//! Triangle meshes as an index buffer over a vertex slice: face `f` is made of the
//! vertices named by indices `3f`, `3f + 1` and `3f + 2`.
use vstd::prelude::*;

verus! {

/// A triangle mesh over vertices of type `V`. At most `triangle_count` faces are used, and
/// only those that the index buffer holds whole; a shorter buffer's tail is ignored.
#[derive(Clone, Copy)]
pub struct MeshDescription<'a, V> {
    pub vertices: &'a [V],
    pub indices: &'a [usize],
    pub triangle_count: usize,
}

/// The number of faces used of a mesh with `n_indices` indices and `triangle_count` triangles.
pub open spec fn used_faces(n_indices: nat, triangle_count: nat) -> nat {
    if triangle_count <= n_indices / 3 {
        triangle_count
    } else {
        n_indices / 3
    }
}

impl<'a, V> MeshDescription<'a, V> {
    /// Face `f`'s three vertex indices are in the buffer and name existing vertices.
    pub open spec fn face_is_whole(&self, f: nat) -> bool {
        &&& 3 * f + 3 <= self.indices@.len()
        &&& self.indices@[3 * f as int] < self.vertices@.len()
        &&& self.indices@[3 * f as int + 1] < self.vertices@.len()
        &&& self.indices@[3 * f as int + 2] < self.vertices@.len()
    }

    /// The number of faces used: `triangle_count`, or fewer where the index buffer ends first.
    pub fn face_count(&self) -> (r: usize)
        ensures
            r == used_faces(self.indices@.len(), self.triangle_count as nat),
    {
        let whole = self.indices.len() / 3;
        if self.triangle_count <= whole {
            self.triangle_count
        } else {
            whole
        }
    }

    /// The three vertices of face `face_id`, or `None` where the index buffer does not hold
    /// the whole face or an index names no vertex.
    pub fn face(&self, face_id: usize) -> (r: Option<(&'a V, &'a V, &'a V)>)
        ensures
            r is Some <==> self.face_is_whole(face_id as nat),
            r is Some ==> ({
                let (a, b, c) = r->0;
                &&& *a == self.vertices@[self.indices@[3 * face_id as int] as int]
                &&& *b == self.vertices@[self.indices@[3 * face_id as int + 1] as int]
                &&& *c == self.vertices@[self.indices@[3 * face_id as int + 2] as int]
            }),
    {
        let vertices: &'a [V] = self.vertices;
        if face_id >= self.indices.len() / 3 {
            return None;
        }
        let offset = face_id * 3;
        let (i0, i1, i2) = (self.indices[offset], self.indices[offset + 1], self.indices[offset + 2]);
        let n = vertices.len();
        if i0 < n && i1 < n && i2 < n {
            Some((&vertices[i0], &vertices[i1], &vertices[i2]))
        } else {
            None
        }
    }
}

/// The hit kept after offering the hits of the first `n` of `faces`, in order: a face's
/// hit replaces the kept one when there is none yet or when it is not farther
/// (`not_farther(new, kept)`), so that of equally near hits the last one offered stays.
pub open spec fn nearest_face<H>(
    faces: Seq<usize>,
    n: nat,
    face_hit: spec_fn(usize) -> Option<H>,
    not_farther: spec_fn(H, H) -> bool,
) -> Option<H>
    decreases n,
{
    if n == 0 {
        None
    } else {
        let prev = nearest_face(faces, (n - 1) as nat, face_hit, not_farther);
        match face_hit(faces[n - 1]) {
            None => prev,
            Some(h) => match prev {
                None => Some(h),
                Some(k) => if not_farther(h, k) {
                    Some(h)
                } else {
                    prev
                },
            },
        }
    }
}

/// `le` orders every pair of hits, transitively: a total preorder, as `<=` on distances.
pub open spec fn total_preorder<H>(le: spec_fn(H, H) -> bool) -> bool {
    &&& forall|a: H, b: H| #[trigger] le(a, b) || le(b, a)
    &&& forall|a: H, b: H, c: H| #[trigger] le(a, b) && #[trigger] le(b, c) ==> le(a, c)
}

/// The face test `f` may be called on every face id.
pub open spec fn face_test<H, F: Fn(usize) -> Option<H>>(f: F) -> bool {
    forall|i: usize| #[trigger] f.requires((i,))
}

/// `p` tells where the face test puts the hit for every face id.
pub open spec fn decides_face<H, F: Fn(usize) -> Option<H>>(f: F, p: spec_fn(usize) -> Option<H>) -> bool {
    forall|i: usize, r: Option<H>| #[trigger] f.ensures((i,), r) ==> r == p(i)
}

/// The distance test `f` may be called on every pair of hits.
pub open spec fn distance_test<H, F: Fn(&H, &H) -> bool>(f: F) -> bool {
    forall|a: &H, b: &H| #[trigger] f.requires((a, b))
}

/// `p` tells the distance test's answer on every pair of hits.
pub open spec fn decides_distance<H, F: Fn(&H, &H) -> bool>(f: F, p: spec_fn(H, H) -> bool) -> bool {
    forall|a: H, b: H, r: bool| #[trigger] f.ensures((&a, &b), r) ==> r == p(a, b)
}

/// The nearest hit among the hits of `faces`, offered in order (see `nearest_face`).
/// A face offered twice is simply tested twice.
pub fn nearest_face_hit<H, FT: Fn(usize) -> Option<H>, FC: Fn(&H, &H) -> bool>(
    faces: &[usize],
    face_hit: &FT,
    not_farther: &FC,
) -> (r: Option<H>)
    requires
        face_test(*face_hit),
        distance_test(*not_farther),
    ensures
        forall|pt: spec_fn(usize) -> Option<H>, pc: spec_fn(H, H) -> bool|
            #![trigger decides_face(*face_hit, pt), decides_distance(*not_farther, pc)]
            decides_face(*face_hit, pt) && decides_distance(*not_farther, pc) ==> r == nearest_face(
                faces@,
                faces@.len(),
                pt,
                pc,
            ),
{
    let mut kept: Option<H> = None;
    let mut i: usize = 0;
    while i < faces.len()
        invariant
            face_test(*face_hit),
            distance_test(*not_farther),
            i <= faces@.len(),
            forall|pt: spec_fn(usize) -> Option<H>, pc: spec_fn(H, H) -> bool|
                #![trigger decides_face(*face_hit, pt), decides_distance(*not_farther, pc)]
                decides_face(*face_hit, pt) && decides_distance(*not_farther, pc) ==> kept == nearest_face(
                    faces@,
                    i as nat,
                    pt,
                    pc,
                ),
        decreases faces@.len() - i,
    {
        match face_hit(faces[i]) {
            Some(h) => {
                let replace = match &kept {
                    None => true,
                    Some(k) => not_farther(&h, k),
                };
                if replace {
                    kept = Some(h);
                }
            },
            None => {},
        }
        i = i + 1;
    }
    kept
}

/// The kept hit is one of the hits offered.
pub proof fn lemma_nearest_face_offered<H>(
    faces: Seq<usize>,
    n: nat,
    face_hit: spec_fn(usize) -> Option<H>,
    not_farther: spec_fn(H, H) -> bool,
)
    requires
        n <= faces.len(),
    ensures
        nearest_face(faces, n, face_hit, not_farther) matches Some(k) ==> exists|j: int|
            0 <= j < n && #[trigger] face_hit(faces[j]) == Some(k),
    decreases n,
{
    if n > 0 {
        lemma_nearest_face_offered(faces, (n - 1) as nat, face_hit, not_farther);
    }
}

/// Where `not_farther` is a total preorder, the kept hit is not farther than the hit of any
/// face offered.
pub proof fn lemma_nearest_face_minimal<H>(
    faces: Seq<usize>,
    n: nat,
    face_hit: spec_fn(usize) -> Option<H>,
    not_farther: spec_fn(H, H) -> bool,
    i: int,
)
    requires
        total_preorder(not_farther),
        n <= faces.len(),
        0 <= i < n,
        face_hit(faces[i]) is Some,
    ensures
        nearest_face(faces, n, face_hit, not_farther) matches Some(k) && not_farther(
            k,
            face_hit(faces[i])->0,
        ),
    decreases n,
{
    let prev = nearest_face(faces, (n - 1) as nat, face_hit, not_farther);
    let hi = face_hit(faces[i])->0;
    if i < n - 1 {
        lemma_nearest_face_minimal(faces, (n - 1) as nat, face_hit, not_farther, i);
        let k = prev->0;
        if let Some(h) = face_hit(faces[n - 1]) {
            if not_farther(h, k) {
                assert(not_farther(h, hi));
            }
        }
    } else {
        let h = face_hit(faces[n - 1])->0;
        assert(not_farther(h, h));
        if let Some(k) = prev {
            if !not_farther(h, k) {
                assert(not_farther(k, h));
            }
        }
    }
}

/// Where `not_farther` is a total preorder, two lists that offer the same faces, in any
/// order and any number of times, keep equally near hits: one is found exactly when the
/// other is, and each is not farther than the other. So testing the candidates that a
/// spatial index gives, duplicates included, finds a hit as near as testing every face,
/// whenever the candidates include every face that the ray hits.
pub proof fn lemma_nearest_face_same_faces<H>(
    a: Seq<usize>,
    b: Seq<usize>,
    face_hit: spec_fn(usize) -> Option<H>,
    not_farther: spec_fn(H, H) -> bool,
)
    requires
        total_preorder(not_farther),
        forall|j: int| 0 <= j < a.len() && face_hit(a[j]) is Some ==> b.contains(#[trigger] a[j]),
        forall|j: int| 0 <= j < b.len() && face_hit(b[j]) is Some ==> a.contains(#[trigger] b[j]),
    ensures
        (nearest_face(a, a.len(), face_hit, not_farther) is Some) == (nearest_face(
            b,
            b.len(),
            face_hit,
            not_farther,
        ) is Some),
        nearest_face(a, a.len(), face_hit, not_farther) matches Some(ka) ==> nearest_face(
            b,
            b.len(),
            face_hit,
            not_farther,
        ) matches Some(kb) && not_farther(ka, kb) && not_farther(kb, ka),
{
    let ra = nearest_face(a, a.len(), face_hit, not_farther);
    let rb = nearest_face(b, b.len(), face_hit, not_farther);
    lemma_nearest_face_offered(a, a.len(), face_hit, not_farther);
    lemma_nearest_face_offered(b, b.len(), face_hit, not_farther);
    if let Some(ka) = ra {
        let j = choose|j: int| 0 <= j < a.len() && #[trigger] face_hit(a[j]) == Some(ka);
        let jb = choose|x: int| 0 <= x < b.len() && b[x] == a[j];
        lemma_nearest_face_minimal(b, b.len(), face_hit, not_farther, jb);
    }
    if let Some(kb) = rb {
        let j = choose|j: int| 0 <= j < b.len() && #[trigger] face_hit(b[j]) == Some(kb);
        let ja = choose|x: int| 0 <= x < a.len() && a[x] == b[j];
        lemma_nearest_face_minimal(a, a.len(), face_hit, not_farther, ja);
    }
}

} // verus!
