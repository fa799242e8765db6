//! Picking: which surface is under the pointer, and which faces lie in a sphere or a rectangle.
//!
//! Matrices and distances come from the caller; this module decides what is asked, and which
//! answers count.

use std::collections::HashMap;

use vstd::prelude::*;

use crate::bits::{at_least, less, lower, upper, LARGEST, ONE, ZERO};
use crate::bvh::{tri_at, BoxMath, BoxTest, MeshBvh, RayHit, RayProbe, Tri, TriHit};
use crate::mesh::Mesh;
use crate::painter::Point;
use crate::scene::{Handle, Scene};
use crate::uv::Uv;

verus! {

broadcast use vstd::std_specs::hash::group_hash_axioms;

/// A point of a surface under the pointer.
#[derive(Clone, Copy)]
pub struct Hit {
    pub node: Handle,
    pub mesh: Handle,
    pub tri_index: u32,
    /// Distance from the eye.
    pub t: u32,
    pub position: [u32; 3],
    pub normal: [u32; 3],
    pub uv: Uv,
    /// The corners of the triangle in the world.
    pub tri_world: [[u32; 3]; 3],
    pub tri_uv: [Uv; 3],
}

/// The trees of the meshes, filed under the packed handles.
pub type BvhCache = HashMap<u64, MeshBvh>;

/// One of the nodes stands for the mesh.
pub open spec fn is_needed(scene: Scene, nodes: Seq<Handle>, key: u64) -> bool {
    exists|i: int| 0 <= i < nodes.len() && stands_for(scene, #[trigger] nodes[i], key)
}

/// A node stands for the mesh with a given code, whether that mesh exists or not.
pub open spec fn stands_for(scene: Scene, node: Handle, key: u64) -> bool {
    match scene.node(node) {
        Some(n) => match n.mesh {
            Some(m) => m.code() == key,
            None => false,
        },
        None => false,
    }
}

/// A tree that was built for a mesh that was fetched.
pub open spec fn is_fresh_tree<M: BoxMath, F: Fn(Handle) -> Option<Mesh>>(
    math: M,
    fetch: F,
    key: u64,
    bvh: MeshBvh,
) -> bool {
    exists|mesh: Mesh| #[trigger]
        call_ensures(fetch, (Handle::from_code(key as int),), Some(mesh)) && bvh.is_tree_of(
            math,
            mesh,
        )
}

/// The cache after it was brought up to date: the trees that were there and are needed stay, the
/// others go, and missing ones are built where the mesh can be fetched.
pub open spec fn is_current<M: BoxMath, F: Fn(Handle) -> Option<Mesh>>(
    math: M,
    fetch: F,
    scene: Scene,
    nodes: Seq<Handle>,
    before: Map<u64, MeshBvh>,
    after: Map<u64, MeshBvh>,
) -> bool {
    forall|key: u64|
        #![trigger after.contains_key(key)]
        {
            &&& after.contains_key(key) ==> is_needed(scene, nodes, key)
            &&& after.contains_key(key) && before.contains_key(key) ==> after[key] == before[key]
            &&& after.contains_key(key) && !before.contains_key(key) ==> is_fresh_tree(
                math,
                fetch,
                key,
                after[key],
            )
            &&& is_needed(scene, nodes, key) && before.contains_key(key) ==> after.contains_key(key)
            &&& is_needed(scene, nodes, key) && !after.contains_key(key) ==> call_ensures(
                fetch,
                (Handle::from_code(key as int),),
                None,
            )
        }
}

proof fn lemma_needed_step(scene: Scene, nodes: Seq<Handle>, i: int)
    requires
        0 <= i < nodes.len(),
    ensures
        forall|key: u64| #[trigger]
            is_needed(scene, nodes.take(i + 1), key) <==> is_needed(scene, nodes.take(i), key)
                || stands_for(scene, nodes[i], key),
{
    let a = nodes.take(i);
    let b = nodes.take(i + 1);
    assert(b[i] == nodes[i]);
    assert forall|key: u64| #[trigger]
        is_needed(scene, b, key) <==> is_needed(scene, a, key) || stands_for(
            scene,
            nodes[i],
            key,
        ) by {
        if is_needed(scene, a, key) {
            let k = choose|k: int| 0 <= k < a.len() && stands_for(scene, #[trigger] a[k], key);
            assert(b[k] == a[k]);
        }
        if is_needed(scene, b, key) {
            let k = choose|k: int| 0 <= k < b.len() && stands_for(scene, #[trigger] b[k], key);
            if k < i {
                assert(a[k] == b[k]);
            }
        }
    }
}

/// Sees to it that there is a tree for every mesh that the nodes stand for, and for no other.
pub fn ensure_bvhs<M: BoxMath, F: Fn(Handle) -> Option<Mesh>>(
    math: &M,
    fetch: F,
    scene: &Scene,
    paintable: &Vec<Handle>,
    cache: &mut BvhCache,
)
    requires
        forall|h: Handle| call_requires(fetch, (h,)),
        forall|h: Handle, mesh: Mesh| #[trigger]
            call_ensures(fetch, (h,), Some(mesh)) ==> crate::bvh::corners_exist(mesh)
                && crate::bvh::tri_total(mesh) <= 0x7fff_ffff,
    ensures
        is_current(*math, fetch, *scene, paintable@, old(cache)@, final(cache)@),
{
    let mut fresh: HashMap<u64, MeshBvh> = HashMap::new();
    let ghost was = cache@;
    let mut i: usize = 0;
    while i < paintable.len()
        invariant
            i <= paintable@.len(),
            forall|h: Handle| call_requires(fetch, (h,)),
            forall|h: Handle, mesh: Mesh| #[trigger]
                call_ensures(fetch, (h,), Some(mesh)) ==> crate::bvh::corners_exist(mesh)
                    && crate::bvh::tri_total(mesh) <= 0x7fff_ffff,
            forall|key: u64| #[trigger]
                cache@.contains_key(key) <==> was.contains_key(key) && !fresh@.contains_key(key),
            forall|key: u64| #[trigger] cache@.contains_key(key) ==> cache@[key] == was[key],
            is_current(*math, fetch, *scene, paintable@.take(i as int), was, fresh@),
        decreases paintable@.len() - i,
    {
        let node = paintable[i];
        proof {
            lemma_needed_step(*scene, paintable@, i as int);
        }
        match scene.find_node(node) {
            Some(at) => match scene.nodes[at].mesh {
                Some(mesh_h) => {
                    let key: u64 = mesh_h.packed();
                    proof {
                        assert forall|k: u64| stands_for(*scene, node, k) implies k == key by {}
                        assert(stands_for(*scene, node, key));
                    }
                    if !fresh.contains_key(&key) {
                        match cache.remove(&key) {
                            Some(bvh) => {
                                fresh.insert(key, bvh);
                            },
                            None => {
                                match fetch(mesh_h) {
                                    Some(mesh) => {
                                        let bvh = MeshBvh::build(math, &mesh);
                                        assert(is_fresh_tree(*math, fetch, key, bvh));
                                        fresh.insert(key, bvh);
                                    },
                                    None => {},
                                }
                            },
                        }
                    }
                },
                None => {},
            },
            None => {},
        }
        i += 1;
    }
    assert(paintable@.take(i as int) =~= paintable@);
    *cache = fresh;
}

/// Bringing the cache up to date a second time changes nothing, if a mesh can be fetched always or
/// never.
pub proof fn law_second_update_changes_nothing<M: BoxMath, F: Fn(Handle) -> Option<Mesh>>(
    math: M,
    fetch: F,
    scene: Scene,
    nodes: Seq<Handle>,
    before: Map<u64, MeshBvh>,
    after: Map<u64, MeshBvh>,
    again: Map<u64, MeshBvh>,
)
    requires
        is_current(math, fetch, scene, nodes, before, after),
        is_current(math, fetch, scene, nodes, after, again),
        forall|h: Handle, mesh: Mesh| #[trigger]
            call_ensures(fetch, (h,), Some(mesh)) ==> !call_ensures(fetch, (h,), None),
    ensures
        again == after,
{
    assert forall|key: u64| #[trigger] again.contains_key(key) == after.contains_key(key) by {
        if again.contains_key(key) && !after.contains_key(key) {
            assert(is_fresh_tree(math, fetch, key, again[key]));
        }
    }
    assert(again =~= after);
}

/// What a ray hits on a mesh, with what the mesh holds at the corners of the triangle.
#[derive(Clone, Copy)]
pub struct MeshHit {
    pub hit: RayHit,
    pub corners: Tri,
    pub uvs: [Uv; 3],
    pub normals: [[u32; 3]; 3],
}

/// The texture coordinates of a vertex; zero where there are none.
pub open spec fn uv_at(mesh: Mesh, i: u32) -> Uv {
    if mesh.uvs@.len() > 0 && i < mesh.uvs@[0]@.len() {
        mesh.uvs@[0]@[i as int]
    } else {
        [ZERO, ZERO]
    }
}

/// The normal of a vertex; upward where there is none.
pub open spec fn normal_at(mesh: Mesh, i: u32) -> [u32; 3] {
    if i < mesh.normals@.len() {
        mesh.normals@[i as int]
    } else {
        [ZERO, ONE, ZERO]
    }
}

impl MeshHit {
    /// The corners are those of the triangle that was hit.
    pub open spec fn reads(self, mesh: Mesh) -> bool {
        let t = self.hit.tri as int;
        &&& t < crate::bvh::tri_total(mesh)
        &&& self.corners == crate::bvh::tri_of(mesh, t)
        &&& self.uvs == [
            uv_at(mesh, mesh.indices@[3 * t]),
            uv_at(mesh, mesh.indices@[3 * t + 1]),
            uv_at(mesh, mesh.indices@[3 * t + 2]),
        ]
        &&& self.normals == [
            normal_at(mesh, mesh.indices@[3 * t]),
            normal_at(mesh, mesh.indices@[3 * t + 1]),
            normal_at(mesh, mesh.indices@[3 * t + 2]),
        ]
    }
}

fn read_uv(mesh: &Mesh, i: u32) -> (uv: Uv)
    ensures
        uv == uv_at(*mesh, i),
{
    if mesh.uvs.len() > 0 && (i as usize) < mesh.uvs[0].len() {
        mesh.uvs[0][i as usize]
    } else {
        [ZERO, ZERO]
    }
}

fn read_normal(mesh: &Mesh, i: u32) -> (n: [u32; 3])
    ensures
        n == normal_at(*mesh, i),
{
    if (i as usize) < mesh.normals.len() {
        mesh.normals[i as usize]
    } else {
        [ZERO, ONE, ZERO]
    }
}

/// The answers of a ray for the first triangles of a mesh.
pub open spec fn are_answers<P: RayProbe>(
    probe: P,
    mesh: Mesh,
    answers: Seq<Option<TriHit>>,
) -> bool {
    &&& answers.len() <= crate::bvh::tri_total(mesh)
    &&& forall|t: int|
        0 <= t < answers.len() ==> crate::bvh::meets_gives(
            probe,
            crate::bvh::tri_of(mesh, t),
            #[trigger] answers[t],
        )
}

/// The closest of a list of answers; of equally close ones the first.
pub open spec fn closest_of(answers: Seq<Option<TriHit>>) -> Option<RayHit>
    decreases answers.len(),
{
    if answers.len() == 0 {
        None
    } else {
        let before = closest_of(answers.drop_last());
        match answers.last() {
            Some(at) => if crate::bits::is_less(at.t, crate::bvh::limit_of(before)) {
                Some(RayHit { tri: (answers.len() - 1) as u32, at })
            } else {
                before
            },
            None => before,
        }
    }
}

/// Tries all triangles of a mesh, one after the other.
pub fn try_all<P: RayProbe>(mesh: &Mesh, probe: &P) -> (r: Option<RayHit>)
    requires
        crate::bvh::corners_exist(*mesh),
    ensures
        exists|answers: Seq<Option<TriHit>>| #[trigger]
            are_answers(*probe, *mesh, answers) && answers.len() == crate::bvh::tri_total(*mesh)
                && r == closest_of(answers),
{
    let n: usize = mesh.indices.len() / 3;
    let mut best: Option<RayHit> = None;
    let ghost mut answers: Seq<Option<TriHit>> = Seq::empty();
    let mut t: usize = 0;
    while t < n
        invariant
            t <= n,
            n == crate::bvh::tri_total(*mesh),
            crate::bvh::corners_exist(*mesh),
            answers.len() == t,
            are_answers(*probe, *mesh, answers),
            best == closest_of(answers),
        decreases n - t,
    {
        let tri: Tri = tri_at(mesh, t);
        let answer = probe.meets(tri);
        let limit: u32 = match best {
            Some(h) => h.at.t,
            None => LARGEST,
        };
        match answer {
            Some(at) => {
                if less(at.t, limit) {
                    best = Some(RayHit { tri: t as u32, at });
                }
            },
            None => {},
        }
        proof {
            let longer = answers.push(answer);
            assert(longer.drop_last() =~= answers);
            assert(crate::bvh::meets_gives(*probe, tri, answer));
            answers = longer;
        }
        t += 1;
    }
    best
}

proof fn lemma_closest_of(answers: Seq<Option<TriHit>>)
    requires
        answers.len() <= u32::MAX,
    ensures
        crate::bits::is_ordered(crate::bvh::limit_of(closest_of(answers))),
        match closest_of(answers) {
            Some(h) => h.tri < answers.len() && answers[h.tri as int] == Some(h.at)
                && crate::bits::is_less(h.at.t, LARGEST),
            None => true,
        },
        forall|t: int|
            0 <= t < answers.len() ==> match #[trigger] answers[t] {
                Some(at) => !crate::bits::is_less(at.t, crate::bvh::limit_of(closest_of(answers))),
                None => true,
            },
    decreases answers.len(),
{
    if answers.len() > 0 {
        let rest = answers.drop_last();
        lemma_closest_of(rest);
        let r = closest_of(answers);
        assert forall|t: int| 0 <= t < answers.len() implies match #[trigger] answers[t] {
            Some(at) => !crate::bits::is_less(at.t, crate::bvh::limit_of(r)),
            None => true,
        } by {
            if t < rest.len() {
                assert(rest[t] == answers[t]);
            }
        }
    }
}

/// Trying all triangles finds the closest hit.
pub proof fn law_trying_all_is_closest<P: RayProbe>(
    probe: P,
    mesh: Mesh,
    answers: Seq<Option<TriHit>>,
)
    requires
        crate::bvh::is_careful(probe),
        are_answers(probe, mesh, answers),
        answers.len() == crate::bvh::tri_total(mesh),
        answers.len() <= u32::MAX,
    ensures
        crate::bvh::is_closest(probe, mesh, closest_of(answers)),
        closest_of(answers) is Some ==> crate::bvh::is_hit(probe, mesh, closest_of(answers)->0),
{
    lemma_closest_of(answers);
    let r = closest_of(answers);
    assert forall|t: int, hit: TriHit|
        0 <= t < crate::bvh::tri_total(mesh) && #[trigger] crate::bvh::meets_gives(
            probe,
            crate::bvh::tri_of(mesh, t),
            Some(hit),
        ) implies !crate::bits::is_less(hit.t, crate::bvh::limit_of(r)) by {
        assert(crate::bvh::meets_gives(probe, crate::bvh::tri_of(mesh, t), answers[t]));
        assert(answers[t] == Some(hit));
    }
}

/// With a tree and without one, a ray hits at the same distance.
pub proof fn law_tree_changes_no_distance<P: RayProbe>(
    probe: P,
    mesh: Mesh,
    a: Option<RayHit>,
    b: Option<RayHit>,
)
    requires
        crate::bvh::is_closest(probe, mesh, a),
        crate::bvh::is_closest(probe, mesh, b),
        a is Some ==> crate::bvh::is_hit(probe, mesh, a->0) && crate::bits::is_less(
            a->0.at.t,
            LARGEST,
        ),
        b is Some ==> crate::bvh::is_hit(probe, mesh, b->0) && crate::bits::is_less(
            b->0.at.t,
            LARGEST,
        ),
    ensures
        a is Some <==> b is Some,
        a is Some ==> crate::bits::key_of(a->0.at.t) == crate::bits::key_of(b->0.at.t),
{
}

/// What a ray hits on a mesh. With a tree the tree is asked, else all triangles are tried.
pub fn ray_mesh<P: RayProbe>(mesh: &Mesh, bvh: Option<&MeshBvh>, probe: &P) -> (r: Option<MeshHit>)
    requires
        crate::bvh::corners_exist(*mesh),
        crate::bvh::tri_total(*mesh) <= u32::MAX,
        bvh is Some ==> bvh->0.wf(crate::bvh::tri_total(*mesh)),
    ensures
        r is Some ==> r->0.reads(*mesh) && crate::bvh::is_hit(*probe, *mesh, r->0.hit)
            && crate::bits::is_less(r->0.hit.at.t, LARGEST),
        crate::bvh::is_careful(*probe) && (bvh is Some ==> bvh->0.encloses_all(*mesh))
            ==> crate::bvh::is_closest(
            *probe,
            *mesh,
            match r {
                Some(h) => Some(h.hit),
                None => None,
            },
        ),
        bvh is Some ==> bvh->0.casts(
            *mesh,
            *probe,
            match r {
                Some(h) => Some(h.hit),
                None => None,
            },
        ),
        bvh is None ==> exists|answers: Seq<Option<TriHit>>| #[trigger]
            are_answers(*probe, *mesh, answers) && answers.len() == crate::bvh::tri_total(*mesh)
                && closest_of(answers) == match r {
                Some(h) => Some(h.hit),
                None => None,
            },
{
    let found: Option<RayHit> = match bvh {
        Some(tree) => tree.raycast(mesh, probe),
        None => {
            let r = try_all(mesh, probe);
            proof {
                let answers = choose|answers: Seq<Option<TriHit>>| #[trigger]
                    are_answers(*probe, *mesh, answers) && answers.len()
                        == crate::bvh::tri_total(*mesh) && r == closest_of(answers);
                lemma_closest_of(answers);
                if crate::bvh::is_careful(*probe) {
                    law_trying_all_is_closest(*probe, *mesh, answers);
                }
            }
            r
        },
    };
    match found {
        Some(hit) => {
            let t: usize = hit.tri as usize;
            let corners = tri_at(mesh, t);
            assert(3 * t + 2 < mesh.indices.len());
            let i0: u32 = mesh.indices[3 * t];
            let i1: u32 = mesh.indices[3 * t + 1];
            let i2: u32 = mesh.indices[3 * t + 2];
            Some(
                MeshHit {
                    hit,
                    corners,
                    uvs: [read_uv(mesh, i0), read_uv(mesh, i1), read_uv(mesh, i2)],
                    normals: [read_normal(mesh, i0), read_normal(mesh, i1), read_normal(mesh, i2)],
                },
            )
        },
        None => None,
    }
}

/// The nearest of a list of hits; of equally near ones the first.
pub open spec fn nearest(hits: Seq<Option<Hit>>) -> Option<Hit>
    decreases hits.len(),
{
    if hits.len() == 0 {
        None
    } else {
        let before = nearest(hits.drop_last());
        match (before, hits.last()) {
            (None, last) => last,
            (Some(b), Some(h)) => if crate::bits::is_less(h.t, b.t) {
                Some(h)
            } else {
                Some(b)
            },
            (Some(b), None) => Some(b),
        }
    }
}

/// The answers for the nodes that are drawn; other nodes are not asked.
pub open spec fn are_picks<F: Fn(Handle, Handle) -> Option<Hit>>(
    cast: F,
    scene: Scene,
    nodes: Seq<Handle>,
    hits: Seq<Option<Hit>>,
) -> bool {
    &&& hits.len() == nodes.len()
    &&& forall|i: int|
        0 <= i < nodes.len() ==> match scene.drawn(nodes[i]) {
            Some(info) => call_ensures(cast, (nodes[i], info.handle), #[trigger] hits[i]),
            None => hits[i] is None,
        }
}

/// The nearest surface that is hit. `cast` asks one node with its mesh.
pub fn pick_mesh<F: Fn(Handle, Handle) -> Option<Hit>>(
    scene: &Scene,
    paintable: &Vec<Handle>,
    cast: F,
) -> (best: Option<Hit>)
    requires
        forall|n: Handle, m: Handle| call_requires(cast, (n, m)),
    ensures
        exists|hits: Seq<Option<Hit>>| #[trigger]
            are_picks(cast, *scene, paintable@, hits) && best == nearest(hits),
{
    let mut best: Option<Hit> = None;
    let ghost mut hits: Seq<Option<Hit>> = Seq::empty();
    let mut i: usize = 0;
    while i < paintable.len()
        invariant
            i <= paintable@.len(),
            forall|n: Handle, m: Handle| call_requires(cast, (n, m)),
            are_picks(cast, *scene, paintable@.take(i as int), hits),
            best == nearest(hits),
        decreases paintable@.len() - i,
    {
        let node = paintable[i];
        let answer: Option<Hit> = match scene.visible_mesh_of(node) {
            Some(info) => cast(node, info.handle),
            None => None,
        };
        match answer {
            Some(h) => match best {
                Some(b) => {
                    if less(h.t, b.t) {
                        best = Some(h);
                    }
                },
                None => {
                    best = Some(h);
                },
            },
            None => {},
        }
        proof {
            let longer = hits.push(answer);
            assert(longer.drop_last() =~= hits);
            let more = paintable@.take(i + 1);
            assert forall|k: int| 0 <= k < more.len() implies match scene.drawn(more[k]) {
                Some(info) => call_ensures(cast, (more[k], info.handle), #[trigger] longer[k]),
                None => longer[k] is None,
            } by {
                if k < i {
                    assert(more[k] == paintable@.take(i as int)[k]);
                    assert(longer[k] == hits[k]);
                }
            }
            hits = longer;
        }
        i += 1;
    }
    assert(paintable@.take(i as int) =~= paintable@);
    best
}

/// No hit is nearer than the nearest, if all distances are numbers, and there is a nearest as soon
/// as there is a hit.
pub proof fn law_nearest_is_nearest(hits: Seq<Option<Hit>>, i: int)
    requires
        0 <= i < hits.len(),
        hits[i] is Some,
        forall|k: int|
            0 <= k < hits.len() ==> match #[trigger] hits[k] {
                Some(h) => crate::bits::is_ordered(h.t),
                None => true,
            },
    ensures
        nearest(hits) is Some,
        hits.contains(nearest(hits)),
        !crate::bits::is_less(hits[i]->0.t, nearest(hits)->0.t),
        crate::bits::is_ordered(nearest(hits)->0.t),
    decreases hits.len(),
{
    let rest = hits.drop_last();
    let r = nearest(hits);
    assert forall|k: int| 0 <= k < rest.len() implies match #[trigger] rest[k] {
        Some(h) => crate::bits::is_ordered(h.t),
        None => true,
    } by {
        assert(rest[k] == hits[k]);
    }
    assert(hits[hits.len() - 1] == hits.last());
    if exists|k: int| 0 <= k < rest.len() && #[trigger] rest[k] is Some {
        let k = if i < rest.len() {
            i
        } else {
            choose|k: int| 0 <= k < rest.len() && #[trigger] rest[k] is Some
        };
        assert(rest[k] == hits[k]);
        law_nearest_is_nearest(rest, k);
        let j = choose|j: int| 0 <= j < rest.len() && rest[j] == nearest(rest);
        assert(hits[j] == nearest(rest));
    } else {
        lemma_nearest_none(rest);
        if i < rest.len() {
            assert(rest[i] is Some);
        }
    }
}

/// The place of the hit that is taken: of the nearest ones the first.
pub open spec fn is_first_nearest(hits: Seq<Option<Hit>>, j: int) -> bool {
    &&& 0 <= j < hits.len()
    &&& hits[j] is Some
    &&& forall|k: int|
        0 <= k < hits.len() ==> match #[trigger] hits[k] {
            Some(h) => !crate::bits::is_less(h.t, hits[j]->0.t) && (k < j ==> crate::bits::is_less(
                hits[j]->0.t,
                h.t,
            )),
            None => true,
        }
}

/// Picking takes the nearest hit on a node that is drawn, of equally near ones the first, and
/// takes none only if there is none. All distances are numbers.
pub proof fn law_first_of_the_nearest<F: Fn(Handle, Handle) -> Option<Hit>>(
    cast: F,
    scene: Scene,
    nodes: Seq<Handle>,
    hits: Seq<Option<Hit>>,
)
    requires
        are_picks(cast, scene, nodes, hits),
        forall|k: int|
            0 <= k < hits.len() ==> match #[trigger] hits[k] {
                Some(h) => crate::bits::is_ordered(h.t),
                None => true,
            },
    ensures
        nearest(hits) is None <==> forall|k: int| 0 <= k < hits.len() ==> #[trigger] hits[k] is None,
        nearest(hits) is Some ==> exists|j: int| #[trigger]
            is_first_nearest(hits, j) && nearest(hits) == hits[j] && (match scene.drawn(nodes[j]) {
                Some(info) => call_ensures(cast, (nodes[j], info.handle), nearest(hits)),
                None => false,
            }),
{
    lemma_first_nearest(hits);
    if nearest(hits) is Some {
        let j = choose|j: int| #[trigger] is_first_nearest(hits, j) && nearest(hits) == hits[j];
        assert(hits[j] is Some);
    }
}

proof fn lemma_first_nearest(hits: Seq<Option<Hit>>)
    requires
        forall|k: int|
            0 <= k < hits.len() ==> match #[trigger] hits[k] {
                Some(h) => crate::bits::is_ordered(h.t),
                None => true,
            },
    ensures
        nearest(hits) is None <==> forall|k: int| 0 <= k < hits.len() ==> #[trigger] hits[k] is None,
        nearest(hits) is Some ==> exists|j: int| #[trigger]
            is_first_nearest(hits, j) && nearest(hits) == hits[j],
    decreases hits.len(),
{
    if hits.len() > 0 {
        let rest = hits.drop_last();
        let n = hits.len() - 1;
        assert forall|k: int| 0 <= k < rest.len() implies match #[trigger] rest[k] {
            Some(h) => crate::bits::is_ordered(h.t),
            None => true,
        } by {
            assert(rest[k] == hits[k]);
        }
        lemma_first_nearest(rest);
        assert(hits[n] == hits.last());
        assert forall|k: int| 0 <= k < n implies rest[k] == #[trigger] hits[k] by {}
        match nearest(rest) {
            None => {
                assert forall|k: int| 0 <= k < n implies #[trigger] hits[k] is None by {
                    assert(rest[k] is None);
                }
                if hits[n] is Some {
                    assert(is_first_nearest(hits, n));
                }
            },
            Some(b) => {
                let j = choose|j: int| #[trigger]
                    is_first_nearest(rest, j) && nearest(rest) == rest[j];
                assert(hits[j] is Some);
                let at = match hits[n] {
                    Some(h) => if crate::bits::is_less(h.t, b.t) {
                        n
                    } else {
                        j
                    },
                    None => j,
                };
                assert forall|k: int| 0 <= k < hits.len() implies match #[trigger] hits[k] {
                    Some(h) => !crate::bits::is_less(h.t, hits[at]->0.t) && (k < at
                        ==> crate::bits::is_less(hits[at]->0.t, h.t)),
                    None => true,
                } by {
                    if k < n {
                        assert(rest[k] == hits[k]);
                    }
                }
                assert(is_first_nearest(hits, at));
            },
        }
    }
}

proof fn lemma_nearest_none(hits: Seq<Option<Hit>>)
    requires
        forall|k: int| 0 <= k < hits.len() ==> !(#[trigger] hits[k] is Some),
    ensures
        nearest(hits) is None,
    decreases hits.len(),
{
    if hits.len() > 0 {
        let rest = hits.drop_last();
        assert forall|k: int| 0 <= k < rest.len() implies !(#[trigger] rest[k] is Some) by {
            assert(rest[k] == hits[k]);
        }
        lemma_nearest_none(rest);
        assert(!(hits[hits.len() - 1] is Some));
    }
}

/// A face: a triangle of a mesh.
pub type Face = (Handle, u32);

/// A triangle of a mesh with so many indices exists.
pub open spec fn tri_exists(index_count: usize, tri: u32) -> bool {
    3 * tri + 2 < index_count
}

/// The triangles of a list that exist and pass a test, as faces of a mesh.
pub open spec fn is_kept<K: Fn(Handle, u32) -> bool>(
    keep: K,
    node: Handle,
    info: crate::scene::MeshInfo,
    tris: Seq<u32>,
    flags: Seq<bool>,
) -> bool {
    &&& flags.len() == tris.len()
    &&& forall|i: int|
        0 <= i < tris.len() ==> if tri_exists(info.index_count, tris[i]) {
            call_ensures(keep, (node, tris[i]), #[trigger] flags[i])
        } else {
            !flags[i]
        }
}

/// The faces whose flags are set.
pub open spec fn flagged(mesh: Handle, tris: Seq<u32>, flags: Seq<bool>) -> Seq<Face>
    decreases tris.len(),
{
    if tris.len() == 0 {
        Seq::empty()
    } else {
        let before = flagged(mesh, tris.drop_last(), flags.drop_last());
        if flags.last() {
            before.push((mesh, tris.last()))
        } else {
            before
        }
    }
}

/// Adds the triangles of a list that exist and pass a test.
fn keep_faces<K: Fn(Handle, u32) -> bool>(
    keep: &K,
    node: Handle,
    info: crate::scene::MeshInfo,
    tris: &Vec<u32>,
    out: &mut Vec<Face>,
)
    requires
        forall|n: Handle, t: u32| call_requires(*keep, (n, t)),
    ensures
        exists|flags: Seq<bool>| #[trigger]
            is_kept(*keep, node, info, tris@, flags) && final(out)@ == old(out)@ + flagged(
                info.handle,
                tris@,
                flags,
            ),
{
    let ghost mut flags: Seq<bool> = Seq::empty();
    let mut i: usize = 0;
    assert(out@ =~= old(out)@ + flagged(info.handle, tris@.take(0), flags));
    while i < tris.len()
        invariant
            i <= tris@.len(),
            forall|n: Handle, t: u32| call_requires(*keep, (n, t)),
            is_kept(*keep, node, info, tris@.take(i as int), flags),
            out@ == old(out)@ + flagged(info.handle, tris@.take(i as int), flags),
        decreases tris@.len() - i,
    {
        let t: u32 = tris[i];
        let ghost before = out@;
        let mut flag = false;
        if 3 * (t as u128) + 2 < info.index_count as u128 {
            flag = keep(node, t);
        }
        if flag {
            out.push((info.handle, t));
        }
        proof {
            let longer = flags.push(flag);
            let more = tris@.take(i + 1);
            assert(longer.drop_last() =~= flags);
            assert(more.drop_last() =~= tris@.take(i as int));
            assert(more.last() == t);
            assert forall|k: int| 0 <= k < more.len() implies if tri_exists(
                info.index_count,
                more[k],
            ) {
                call_ensures(*keep, (node, more[k]), #[trigger] longer[k])
            } else {
                !longer[k]
            } by {
                if k < i {
                    assert(more[k] == tris@.take(i as int)[k]);
                    assert(longer[k] == flags[k]);
                }
            }
            assert(out@ =~= old(out)@ + flagged(info.handle, more, longer));
            flags = longer;
        }
        i += 1;
    }
    assert(tris@.take(i as int) =~= tris@);
}

/// A sphere in the space of a node, with the test of boxes that it stands for.
pub struct LocalSphere<S: BoxTest> {
    pub radius: u32,
    pub test: S,
}

/// The candidates of a node for a sphere: what its tree gathers, or all its triangles.
pub open spec fn are_candidates<S: BoxTest>(
    sphere: LocalSphere<S>,
    info: crate::scene::MeshInfo,
    cache: Map<u64, MeshBvh>,
    tris: Seq<u32>,
) -> bool {
    let key = info.handle.code() as u64;
    if cache.contains_key(key) {
        cache[key].gathers(sphere.radius, sphere.test, tris)
    } else {
        tris == crate::mesh::counting(((info.index_count / 3) as u32) as nat)
    }
}

/// The faces of a node that lie in a sphere: the candidates that pass a test.
pub open spec fn in_sphere<
    S: BoxTest,
    L: Fn(Handle) -> LocalSphere<S>,
    K: Fn(Handle, u32) -> bool,
>(
    local: L,
    keep: K,
    scene: Scene,
    cache: Map<u64, MeshBvh>,
    node: Handle,
    faces: Seq<Face>,
) -> bool {
    match scene.drawn(node) {
        Some(info) => exists|sphere: LocalSphere<S>, tris: Seq<u32>, flags: Seq<bool>|
            #![trigger call_ensures(local, (node,), sphere), is_kept(keep, node, info, tris, flags)]
            call_ensures(local, (node,), sphere) && are_candidates(sphere, info, cache, tris)
                && is_kept(keep, node, info, tris, flags) && faces == flagged(
                info.handle,
                tris,
                flags,
            ),
        None => faces.len() == 0,
    }
}

/// Lists put one behind the other.
pub open spec fn joined(lists: Seq<Seq<Face>>) -> Seq<Face>
    decreases lists.len(),
{
    if lists.len() == 0 {
        Seq::empty()
    } else {
        joined(lists.drop_last()) + lists.last()
    }
}

/// The faces of all nodes that lie in a sphere.
pub open spec fn all_in_sphere<
    S: BoxTest,
    L: Fn(Handle) -> LocalSphere<S>,
    K: Fn(Handle, u32) -> bool,
>(
    local: L,
    keep: K,
    scene: Scene,
    cache: Map<u64, MeshBvh>,
    nodes: Seq<Handle>,
    lists: Seq<Seq<Face>>,
) -> bool {
    &&& lists.len() == nodes.len()
    &&& forall|i: int|
        0 <= i < nodes.len() ==> in_sphere(local, keep, scene, cache, nodes[i], #[trigger] lists[i])
}

/// Every tree of a cache is sound on its own.
pub open spec fn trees_wf(cache: Map<u64, MeshBvh>) -> bool {
    forall|key: u64| #[trigger]
        cache.contains_key(key) ==> cache[key].wf(cache[key].tri_indices@.len())
}

/// The faces of the drawn nodes that lie in a sphere. `local` gives the sphere in the space of a
/// node, `keep` decides on a triangle of a node.
pub fn faces_in_sphere<
    S: BoxTest,
    L: Fn(Handle) -> LocalSphere<S>,
    K: Fn(Handle, u32) -> bool,
>(
    scene: &Scene,
    paintable: &Vec<Handle>,
    cache: &BvhCache,
    local: L,
    keep: K,
) -> (out: Vec<Face>)
    requires
        forall|n: Handle| call_requires(local, (n,)),
        forall|n: Handle, t: u32| call_requires(keep, (n, t)),
        trees_wf(cache@),
    ensures
        exists|lists: Seq<Seq<Face>>| #[trigger]
            all_in_sphere(local, keep, *scene, cache@, paintable@, lists) && out@ == joined(lists),
{
    let mut out: Vec<Face> = Vec::new();
    let ghost mut lists: Seq<Seq<Face>> = Seq::empty();
    let mut i: usize = 0;
    while i < paintable.len()
        invariant
            i <= paintable@.len(),
            forall|n: Handle| call_requires(local, (n,)),
            forall|n: Handle, t: u32| call_requires(keep, (n, t)),
            trees_wf(cache@),
            all_in_sphere(local, keep, *scene, cache@, paintable@.take(i as int), lists),
            out@ == joined(lists),
        decreases paintable@.len() - i,
    {
        let node = paintable[i];
        let ghost before = out@;
        let ghost mut list: Seq<Face> = Seq::empty();
        match scene.visible_mesh_of(node) {
            Some(info) => {
                let sphere = local(node);
                let mut tris: Vec<u32> = Vec::new();
                match cache.get(&info.handle.packed()) {
                    Some(bvh) => {
                        bvh.gather_sphere(sphere.radius, &sphere.test, &mut tris);
                    },
                    None => {
                        let n: u32 = (info.index_count / 3) as u32;
                        let mut t: u32 = 0;
                        while t < n
                            invariant
                                t <= n,
                                tris@ =~= crate::mesh::counting(t as nat),
                            decreases n - t,
                        {
                            tris.push(t);
                            t += 1;
                        }
                    },
                }
                assert(are_candidates(sphere, info, cache@, tris@));
                keep_faces(&keep, node, info, &tris, &mut out);
                proof {
                    let flags = choose|flags: Seq<bool>| #[trigger]
                        is_kept(keep, node, info, tris@, flags) && out@ == before + flagged(
                            info.handle,
                            tris@,
                            flags,
                        );
                    list = flagged(info.handle, tris@, flags);
                    assert(call_ensures(local, (node,), sphere));
                    assert(in_sphere(local, keep, *scene, cache@, node, list));
                }
            },
            None => {},
        }
        proof {
            let longer = lists.push(list);
            let more = paintable@.take(i + 1);
            assert(longer.drop_last() =~= lists);
            assert(out@ =~= joined(longer));
            assert forall|k: int| 0 <= k < more.len() implies in_sphere(
                local,
                keep,
                *scene,
                cache@,
                more[k],
                #[trigger] longer[k],
            ) by {
                if k < i {
                    assert(more[k] == paintable@.take(i as int)[k]);
                    assert(longer[k] == lists[k]);
                }
            }
            lists = longer;
        }
        i += 1;
    }
    assert(paintable@.take(i as int) =~= paintable@);
    out
}

/// The answers that a test of faces can give.
pub open spec fn answers_of<K: Fn(Handle, u32) -> bool>(keep: K) -> spec_fn(
    Handle,
    u32,
    bool,
) -> bool {
    |n: Handle, t: u32, e: bool| call_ensures(keep, (n, t), e)
}

/// The faces of a node that pass the tests: those that face the eye, if only those count, and that
/// lie where they should.
pub open spec fn in_rect<V: Fn(Handle, u32) -> bool>(
    facing: V,
    keep: spec_fn(Handle, u32, bool) -> bool,
    scene: Scene,
    front_only: bool,
    node: Handle,
    faces: Seq<Face>,
) -> bool {
    match scene.drawn(node) {
        Some(info) => exists|flags: Seq<bool>| #[trigger]
            is_seen(facing, keep, node, info, front_only, flags) && faces == flagged(
                info.handle,
                crate::mesh::counting(info.index_count as nat / 3),
                flags,
            ),
        None => faces.len() == 0,
    }
}

/// Which triangles of a node pass the tests.
pub open spec fn is_seen<V: Fn(Handle, u32) -> bool>(
    facing: V,
    keep: spec_fn(Handle, u32, bool) -> bool,
    node: Handle,
    info: crate::scene::MeshInfo,
    front_only: bool,
    flags: Seq<bool>,
) -> bool {
    &&& flags.len() == info.index_count as nat / 3
    &&& forall|t: int|
        0 <= t < flags.len() ==> face_flag(
            facing,
            keep,
            node,
            info.index_count,
            front_only,
            t as u32,
            #[trigger] flags[t],
        )
}

/// Whether a triangle passes the tests.
pub open spec fn face_flag<V: Fn(Handle, u32) -> bool>(
    facing: V,
    keep: spec_fn(Handle, u32, bool) -> bool,
    node: Handle,
    index_count: usize,
    front_only: bool,
    tri: u32,
    flag: bool,
) -> bool {
    if !tri_exists(index_count, tri) {
        !flag
    } else if front_only {
        ||| call_ensures(facing, (node, tri), false) && !flag
        ||| call_ensures(facing, (node, tri), true) && keep(node, tri, flag)
    } else {
        keep(node, tri, flag)
    }
}

/// The faces of all nodes that pass the tests.
pub open spec fn all_in_rect<V: Fn(Handle, u32) -> bool>(
    facing: V,
    keep: spec_fn(Handle, u32, bool) -> bool,
    scene: Scene,
    front_only: bool,
    nodes: Seq<Handle>,
    lists: Seq<Seq<Face>>,
) -> bool {
    &&& lists.len() == nodes.len()
    &&& forall|i: int|
        0 <= i < nodes.len() ==> in_rect(
            facing,
            keep,
            scene,
            front_only,
            nodes[i],
            #[trigger] lists[i],
        )
}

/// The faces of a node that pass the tests.
fn node_faces<V: Fn(Handle, u32) -> bool, K: Fn(Handle, u32) -> bool>(
    facing: &V,
    keep: &K,
    node: Handle,
    info: crate::scene::MeshInfo,
    front_only: bool,
    out: &mut Vec<Face>,
)
    requires
        forall|n: Handle, t: u32| call_requires(*facing, (n, t)),
        forall|n: Handle, t: u32| call_requires(*keep, (n, t)),
    ensures
        exists|flags: Seq<bool>| #[trigger]
            is_seen(*facing, answers_of(*keep), node, info, front_only, flags) && final(out)@ == old(out)@
                + flagged(
                info.handle,
                crate::mesh::counting(info.index_count as nat / 3),
                flags,
            ),
{
    let ghost mut flags: Seq<bool> = Seq::empty();
    let n: usize = info.index_count / 3;
    let mut t: usize = 0;
    assert(out@ =~= old(out)@ + flagged(info.handle, crate::mesh::counting(0), flags));
    while t < n
        invariant
            t <= n,
            n == info.index_count / 3,
            forall|n: Handle, t: u32| call_requires(*facing, (n, t)),
            forall|n: Handle, t: u32| call_requires(*keep, (n, t)),
            flags.len() == t,
            forall|k: int|
                0 <= k < t ==> face_flag(
                    *facing,
                    answers_of(*keep),
                    node,
                    info.index_count,
                    front_only,
                    k as u32,
                    #[trigger] flags[k],
                ),
            out@ == old(out)@ + flagged(info.handle, crate::mesh::counting(t as nat), flags),
        decreases n - t,
    {
        let tri: u32 = t as u32;
        let mut flag = false;
        if 3 * (tri as u128) + 2 < info.index_count as u128 {
            if front_only && !facing(node, tri) {
                flag = false;
            } else {
                flag = keep(node, tri);
            }
        }
        if flag {
            out.push((info.handle, tri));
        }
        proof {
            let longer = flags.push(flag);
            let more = crate::mesh::counting((t + 1) as nat);
            assert(longer.drop_last() =~= flags);
            assert(more.drop_last() =~= crate::mesh::counting(t as nat));
            assert(more.last() == tri);
            assert(out@ =~= old(out)@ + flagged(info.handle, more, longer));
            assert forall|k: int| 0 <= k < t + 1 implies face_flag(
                *facing,
                answers_of(*keep),
                node,
                info.index_count,
                front_only,
                k as u32,
                #[trigger] longer[k],
            ) by {
                if k < t {
                    assert(longer[k] == flags[k]);
                }
            }
            flags = longer;
        }
        t += 1;
    }
    assert(is_seen(*facing, answers_of(*keep), node, info, front_only, flags));
}

/// The faces of the drawn nodes that pass the tests.
pub fn collect_faces<V: Fn(Handle, u32) -> bool, K: Fn(Handle, u32) -> bool>(
    scene: &Scene,
    paintable: &Vec<Handle>,
    front_only: bool,
    facing: V,
    keep: K,
) -> (out: Vec<Face>)
    requires
        forall|n: Handle, t: u32| call_requires(facing, (n, t)),
        forall|n: Handle, t: u32| call_requires(keep, (n, t)),
    ensures
        exists|lists: Seq<Seq<Face>>| #[trigger]
            all_in_rect(facing, answers_of(keep), *scene, front_only, paintable@, lists) && out@ == joined(
                lists,
            ),
{
    let mut out: Vec<Face> = Vec::new();
    let ghost mut lists: Seq<Seq<Face>> = Seq::empty();
    let mut i: usize = 0;
    while i < paintable.len()
        invariant
            i <= paintable@.len(),
            forall|n: Handle, t: u32| call_requires(facing, (n, t)),
            forall|n: Handle, t: u32| call_requires(keep, (n, t)),
            all_in_rect(facing, answers_of(keep), *scene, front_only, paintable@.take(i as int), lists),
            out@ == joined(lists),
        decreases paintable@.len() - i,
    {
        let node = paintable[i];
        let ghost before = out@;
        let ghost mut list: Seq<Face> = Seq::empty();
        match scene.visible_mesh_of(node) {
            Some(info) => {
                node_faces(&facing, &keep, node, info, front_only, &mut out);
                proof {
                    let flags = choose|flags: Seq<bool>| #[trigger]
                        is_seen(facing, answers_of(keep), node, info, front_only, flags) && out@ == before
                            + flagged(
                            info.handle,
                            crate::mesh::counting(info.index_count as nat / 3),
                            flags,
                        );
                    list = flagged(
                        info.handle,
                        crate::mesh::counting(info.index_count as nat / 3),
                        flags,
                    );
                    assert(in_rect(facing, answers_of(keep), *scene, front_only, node, list));
                }
            },
            None => {},
        }
        proof {
            let longer = lists.push(list);
            let more = paintable@.take(i + 1);
            assert(longer.drop_last() =~= lists);
            assert(out@ =~= joined(longer));
            assert forall|k: int| 0 <= k < more.len() implies in_rect(
                facing,
                answers_of(keep),
                *scene,
                front_only,
                more[k],
                #[trigger] longer[k],
            ) by {
                if k < i {
                    assert(more[k] == paintable@.take(i as int)[k]);
                    assert(longer[k] == lists[k]);
                }
            }
            lists = longer;
        }
        i += 1;
    }
    assert(paintable@.take(i as int) =~= paintable@);
    out
}

/// A point lies in the rectangle between two corners, its edges included.
pub open spec fn in_frame(p: Option<Point>, a: Point, b: Point) -> bool {
    match p {
        Some(p) => {
            &&& crate::bits::is_at_least(p[0], crate::bits::lower_of(a[0], b[0]))
            &&& crate::bits::is_at_least(crate::bits::upper_of(a[0], b[0]), p[0])
            &&& crate::bits::is_at_least(p[1], crate::bits::lower_of(a[1], b[1]))
            &&& crate::bits::is_at_least(crate::bits::upper_of(a[1], b[1]), p[1])
        },
        None => false,
    }
}

fn is_in_frame(p: Option<Point>, a: Point, b: Point) -> (r: bool)
    ensures
        r == in_frame(p, a, b),
{
    match p {
        Some(p) => at_least(p[0], lower(a[0], b[0])) && at_least(upper(a[0], b[0]), p[0])
            && at_least(p[1], lower(a[1], b[1])) && at_least(upper(a[1], b[1]), p[1]),
        None => false,
    }
}

/// Whether a triangle shows in a rectangle, after where `project` shows it.
pub open spec fn framed<P: Fn(Handle, u32) -> Option<Point>>(
    project: P,
    a: Point,
    b: Point,
) -> spec_fn(Handle, u32, bool) -> bool {
    |n: Handle, t: u32, e: bool|
        exists|p: Option<Point>| #[trigger]
            call_ensures(project, (n, t), p) && e == in_frame(p, a, b)
}

spec fn may_ask<P: Fn(Handle, u32) -> Option<Point>>(project: &P, n: Handle, t: u32) -> bool {
    call_requires(*project, (n, t))
}

spec fn gives_framed<P: Fn(Handle, u32) -> Option<Point>>(
    project: &P,
    a: Point,
    b: Point,
    n: Handle,
    t: u32,
    e: bool,
) -> bool {
    framed(*project, a, b)(n, t, e)
}

proof fn lemma_seen_by<V: Fn(Handle, u32) -> bool>(
    facing: V,
    narrow: spec_fn(Handle, u32, bool) -> bool,
    wide: spec_fn(Handle, u32, bool) -> bool,
    scene: Scene,
    front_only: bool,
    nodes: Seq<Handle>,
    lists: Seq<Seq<Face>>,
)
    requires
        all_in_rect(facing, narrow, scene, front_only, nodes, lists),
        forall|n: Handle, t: u32, e: bool| #[trigger] narrow(n, t, e) ==> wide(n, t, e),
    ensures
        all_in_rect(facing, wide, scene, front_only, nodes, lists),
{
    assert forall|i: int| 0 <= i < nodes.len() implies in_rect(
        facing,
        wide,
        scene,
        front_only,
        nodes[i],
        #[trigger] lists[i],
    ) by {
        assert(in_rect(facing, narrow, scene, front_only, nodes[i], lists[i]));
        match scene.drawn(nodes[i]) {
            Some(info) => {
                let flags = choose|flags: Seq<bool>| #[trigger]
                    is_seen(facing, narrow, nodes[i], info, front_only, flags) && lists[i]
                        == flagged(
                        info.handle,
                        crate::mesh::counting(info.index_count as nat / 3),
                        flags,
                    );
                assert forall|t: int| 0 <= t < flags.len() implies face_flag(
                    facing,
                    wide,
                    nodes[i],
                    info.index_count,
                    front_only,
                    t as u32,
                    #[trigger] flags[t],
                ) by {
                    assert(face_flag(
                        facing,
                        narrow,
                        nodes[i],
                        info.index_count,
                        front_only,
                        t as u32,
                        flags[t],
                    ));
                }
                assert(is_seen(facing, wide, nodes[i], info, front_only, flags));
            },
            None => {},
        }
    }
}

/// The faces of the drawn nodes that show in the rectangle between two corners. `project` says
/// where the middle of a triangle shows on the screen. When selecting through the model, faces
/// that face away count too.
pub fn faces_in_rect<V: Fn(Handle, u32) -> bool, P: Fn(Handle, u32) -> Option<Point>>(
    scene: &Scene,
    paintable: &Vec<Handle>,
    through: bool,
    a: Point,
    b: Point,
    facing: V,
    project: P,
) -> (out: Vec<Face>)
    requires
        forall|n: Handle, t: u32| call_requires(facing, (n, t)),
        forall|n: Handle, t: u32| call_requires(project, (n, t)),
    ensures
        exists|lists: Seq<Seq<Face>>|
            all_in_rect(facing, framed(project, a, b), *scene, !through, paintable@, lists)
                && out@ == #[trigger] joined(lists),
{
    let ask = &project;
    let inside = |n: Handle, t: u32| -> (r: bool)
        requires
            may_ask(ask, n, t),
        ensures
            gives_framed(ask, a, b, n, t, r),
        { is_in_frame(ask(n, t), a, b) };
    let ghost says = answers_of(inside);
    let out = collect_faces(scene, paintable, !through, facing, inside);
    proof {
        let front = !through;
        let lists = choose|lists: Seq<Seq<Face>>| #[trigger]
            all_in_rect(facing, says, *scene, front, paintable@, lists) && out@ == joined(lists);
        lemma_seen_by(
            facing,
            says,
            framed(project, a, b),
            *scene,
            !through,
            paintable@,
            lists,
        );
    }
    out
}

/// The order of the two corners of a rectangle makes no difference, if they are numbers.
pub proof fn law_corners_are_free<
    V: Fn(Handle, u32) -> bool,
    P: Fn(Handle, u32) -> Option<Point>,
>(
    facing: V,
    project: P,
    a: Point,
    b: Point,
    scene: Scene,
    front_only: bool,
    nodes: Seq<Handle>,
    lists: Seq<Seq<Face>>,
)
    requires
        forall|k: int|
            0 <= k < 2 ==> crate::bits::is_ordered(#[trigger] a[k]) && crate::bits::is_ordered(b[k]),
    ensures
        all_in_rect(facing, framed(project, a, b), scene, front_only, nodes, lists) == all_in_rect(
            facing,
            framed(project, b, a),
            scene,
            front_only,
            nodes,
            lists,
        ),
{
    assert(crate::bits::is_ordered(a[0]) && crate::bits::is_ordered(b[0]));
    assert(crate::bits::is_ordered(a[1]) && crate::bits::is_ordered(b[1]));
    assert forall|p: Option<Point>| #[trigger] in_frame(p, a, b) == in_frame(p, b, a) by {}
    let x = framed(project, a, b);
    let y = framed(project, b, a);
    assert forall|n: Handle, t: u32, e: bool| #[trigger] x(n, t, e) implies y(n, t, e) by {
        let p = choose|p: Option<Point>| #[trigger]
            call_ensures(project, (n, t), p) && e == in_frame(p, a, b);
        assert(call_ensures(project, (n, t), p) && e == in_frame(p, b, a));
    }
    assert forall|n: Handle, t: u32, e: bool| #[trigger] y(n, t, e) implies x(n, t, e) by {
        let p = choose|p: Option<Point>| #[trigger]
            call_ensures(project, (n, t), p) && e == in_frame(p, b, a);
        assert(call_ensures(project, (n, t), p) && e == in_frame(p, a, b));
    }
    if all_in_rect(facing, x, scene, front_only, nodes, lists) {
        lemma_seen_by(facing, x, y, scene, front_only, nodes, lists);
    }
    if all_in_rect(facing, y, scene, front_only, nodes, lists) {
        lemma_seen_by(facing, y, x, scene, front_only, nodes, lists);
    }
}

/// A list is what is left of another one after some items were taken out.
pub open spec fn is_part(a: Seq<Face>, b: Seq<Face>) -> bool
    decreases b.len(),
{
    ||| a.len() == 0
    ||| b.len() > 0 && a.len() > 0 && a.last() == b.last() && is_part(a.drop_last(), b.drop_last())
    ||| b.len() > 0 && is_part(a, b.drop_last())
}

proof fn lemma_flagged_part(mesh: Handle, tris: Seq<u32>, few: Seq<bool>, many: Seq<bool>)
    requires
        few.len() == tris.len(),
        many.len() == tris.len(),
        forall|k: int| 0 <= k < tris.len() && #[trigger] few[k] ==> many[k],
    ensures
        is_part(flagged(mesh, tris, few), flagged(mesh, tris, many)),
    decreases tris.len(),
{
    if tris.len() > 0 {
        let rest = tris.drop_last();
        lemma_flagged_part(mesh, rest, few.drop_last(), many.drop_last());
        let a = flagged(mesh, rest, few.drop_last());
        let b = flagged(mesh, rest, many.drop_last());
        let x = (mesh, tris.last());
        assert(a.push(x).drop_last() =~= a);
        assert(b.push(x).drop_last() =~= b);
        assert(few[tris.len() - 1] ==> many[tris.len() - 1]);
    }
}

proof fn lemma_part_joins(a: Seq<Face>, b: Seq<Face>, c: Seq<Face>, d: Seq<Face>)
    requires
        is_part(a, b),
        is_part(c, d),
    ensures
        is_part(a + c, b + d),
    decreases d.len(),
{
    if d.len() == 0 {
        assert(c.len() == 0);
        assert(a + c =~= a);
        assert(b + d =~= b);
    } else {
        assert((b + d).drop_last() =~= b + d.drop_last());
        if c.len() > 0 && c.last() == d.last() && is_part(c.drop_last(), d.drop_last()) {
            lemma_part_joins(a, b, c.drop_last(), d.drop_last());
            assert((a + c).drop_last() =~= a + c.drop_last());
        } else {
            assert(is_part(c, d.drop_last()));
            lemma_part_joins(a, b, c, d.drop_last());
        }
    }
}

/// A test of faces answers a question always in the same way.
pub open spec fn is_steady(keep: spec_fn(Handle, u32, bool) -> bool) -> bool {
    forall|n: Handle, t: u32| !(#[trigger] keep(n, t, true) && #[trigger] keep(n, t, false))
}

/// The faces that face the eye are what is left of all faces after some were taken out, in the
/// same order.
pub proof fn law_front_faces_are_among_all<V: Fn(Handle, u32) -> bool>(
    facing: V,
    keep: spec_fn(Handle, u32, bool) -> bool,
    scene: Scene,
    nodes: Seq<Handle>,
    front: Seq<Seq<Face>>,
    all: Seq<Seq<Face>>,
)
    requires
        is_steady(keep),
        all_in_rect(facing, keep, scene, true, nodes, front),
        all_in_rect(facing, keep, scene, false, nodes, all),
    ensures
        is_part(joined(front), joined(all)),
    decreases nodes.len(),
{
    if nodes.len() > 0 {
        let rest = nodes.drop_last();
        let n = nodes.len() - 1;
        assert forall|i: int| 0 <= i < n implies in_rect(
            facing,
            keep,
            scene,
            true,
            rest[i],
            #[trigger] front.drop_last()[i],
        ) by {
            assert(front[i] == front.drop_last()[i]);
        }
        assert forall|i: int| 0 <= i < n implies in_rect(
            facing,
            keep,
            scene,
            false,
            rest[i],
            #[trigger] all.drop_last()[i],
        ) by {
            assert(all[i] == all.drop_last()[i]);
        }
        law_front_faces_are_among_all(
            facing,
            keep,
            scene,
            rest,
            front.drop_last(),
            all.drop_last(),
        );
        let node = nodes[n];
        assert(in_rect(facing, keep, scene, true, node, front[n]));
        assert(in_rect(facing, keep, scene, false, node, all[n]));
        match scene.drawn(node) {
            Some(info) => {
                let tris = crate::mesh::counting(info.index_count as nat / 3);
                let few = choose|flags: Seq<bool>| #[trigger]
                    is_seen(facing, keep, node, info, true, flags) && front[n] == flagged(
                        info.handle,
                        tris,
                        flags,
                    );
                let many = choose|flags: Seq<bool>| #[trigger]
                    is_seen(facing, keep, node, info, false, flags) && all[n] == flagged(
                        info.handle,
                        tris,
                        flags,
                    );
                assert forall|k: int| 0 <= k < tris.len() && #[trigger] few[k] implies many[k] by {
                    assert(face_flag(
                        facing,
                        keep,
                        node,
                        info.index_count,
                        true,
                        k as u32,
                        few[k],
                    ));
                    assert(face_flag(
                        facing,
                        keep,
                        node,
                        info.index_count,
                        false,
                        k as u32,
                        many[k],
                    ));
                    assert(keep(node, k as u32, true));
                }
                lemma_flagged_part(info.handle, tris, few, many);
            },
            None => {},
        }
        lemma_part_joins(joined(front.drop_last()), joined(all.drop_last()), front[n], all[n]);
    }
}

proof fn lemma_flagged(mesh: Handle, tris: Seq<u32>, flags: Seq<bool>)
    requires
        flags.len() == tris.len(),
    ensures
        flagged(mesh, tris, flags) == crate::bvh::accepted(tris, flags).map_values(
            |t: u32| (mesh, t),
        ),
    decreases tris.len(),
{
    if tris.len() > 0 {
        lemma_flagged(mesh, tris.drop_last(), flags.drop_last());
    }
    assert(flagged(mesh, tris, flags) =~= crate::bvh::accepted(tris, flags).map_values(
        |t: u32| (mesh, t),
    ));
}

/// Which faces are kept of a list of triangles.
proof fn lemma_kept<K: Fn(Handle, u32) -> bool>(
    keep: K,
    node: Handle,
    info: crate::scene::MeshInfo,
    tris: Seq<u32>,
    flags: Seq<bool>,
)
    requires
        is_steady(answers_of(keep)),
        tris.no_duplicates(),
        is_kept(keep, node, info, tris, flags),
    ensures
        flagged(info.handle, tris, flags).no_duplicates(),
        forall|f: Face| #[trigger]
            flagged(info.handle, tris, flags).contains(f) <==> f.0 == info.handle && tris.contains(
                f.1,
            ) && tri_exists(info.index_count, f.1) && answers_of(keep)(node, f.1, true),
{
    let says = answers_of(keep);
    let kept = crate::bvh::accepted(tris, flags);
    lemma_flagged(info.handle, tris, flags);
    crate::bvh::lemma_accepted(tris, flags);
    let faces = flagged(info.handle, tris, flags);
    assert forall|f: Face| #[trigger] faces.contains(f) <==> f.0 == info.handle && tris.contains(
        f.1,
    ) && tri_exists(info.index_count, f.1) && says(node, f.1, true) by {
        if faces.contains(f) {
            let j = choose|j: int| 0 <= j < faces.len() && faces[j] == f;
            assert(kept[j] == f.1);
            assert(kept.contains(f.1));
            let k = choose|k: int| 0 <= k < tris.len() && #[trigger] tris[k] == f.1 && flags[k];
            assert(flags[k]);
        }
        if f.0 == info.handle && tris.contains(f.1) && tri_exists(info.index_count, f.1) && says(node,
            f.1,
            true,
        ) {
            let k = choose|k: int| 0 <= k < tris.len() && tris[k] == f.1;
            assert(says(node, f.1, flags[k]));
            assert(flags[k]);
            assert(kept.contains(f.1));
            let j = choose|j: int| 0 <= j < kept.len() && kept[j] == f.1;
            assert(faces[j] == f);
        }
    }
    assert forall|x: int, y: int| 0 <= x < y < faces.len() implies faces[x] != faces[y] by {
        assert(kept[x] != kept[y]);
    }
}

/// The tree of a node serves a sphere and a test of faces: it holds the triangles of the mesh, its
/// boxes hold those below them, the sphere has a positive radius and never refuses a box around a
/// box that it accepts, and it accepts the boxes of the faces that are kept.
pub open spec fn serves<S: BoxTest, K: Fn(Handle, u32) -> bool>(
    bvh: MeshBvh,
    sphere: LocalSphere<S>,
    keep: K,
    node: Handle,
    info: crate::scene::MeshInfo,
) -> bool {
    &&& bvh.wf(info.index_count as nat / 3)
    &&& bvh.is_nested()
    &&& !crate::bits::is_at_least(ZERO, sphere.radius)
    &&& crate::bvh::is_monotone(sphere.test)
    &&& forall|t: u32|
        t < bvh.tri_bounds@.len() && #[trigger] answers_of(keep)(node, t, true)
            ==> crate::bvh::test_gives(sphere.test, bvh.tri_bounds@[t as int], true)
}

/// The trees of the nodes that are drawn serve their spheres.
pub open spec fn trees_serve<
    S: BoxTest,
    L: Fn(Handle) -> LocalSphere<S>,
    K: Fn(Handle, u32) -> bool,
>(local: L, keep: K, scene: Scene, cache: Map<u64, MeshBvh>, nodes: Seq<Handle>) -> bool {
    forall|i: int, sphere: LocalSphere<S>|
        0 <= i < nodes.len() && #[trigger] call_ensures(local, (nodes[i],), sphere)
            ==> match scene.drawn(nodes[i]) {
            Some(info) => {
                let key = info.handle.code() as u64;
                &&& info.index_count / 3 <= u32::MAX
                &&& cache.contains_key(key) ==> serves(cache[key], sphere, keep, nodes[i], info)
            },
            None => true,
        }
}

/// The faces of a node in a sphere, with a tree or without: those of the mesh that are kept.
proof fn lemma_in_sphere<
    S: BoxTest,
    L: Fn(Handle) -> LocalSphere<S>,
    K: Fn(Handle, u32) -> bool,
>(
    local: L,
    keep: K,
    scene: Scene,
    cache: Map<u64, MeshBvh>,
    nodes: Seq<Handle>,
    i: int,
    faces: Seq<Face>,
)
    requires
        is_steady(answers_of(keep)),
        trees_serve(local, keep, scene, cache, nodes),
        0 <= i < nodes.len(),
        in_sphere(local, keep, scene, cache, nodes[i], faces),
    ensures
        faces.no_duplicates(),
        forall|f: Face| #[trigger] faces.contains(f) <==> is_kept_face(keep, scene, nodes[i], f),
{
    let node = nodes[i];
    match scene.drawn(node) {
        Some(info) => {
            let (sphere, tris, flags) = choose|
                sphere: LocalSphere<S>,
                tris: Seq<u32>,
                flags: Seq<bool>,
            |
                #![trigger call_ensures(local, (node,), sphere), is_kept(keep, node, info, tris, flags)]
                call_ensures(local, (node,), sphere) && are_candidates(sphere, info, cache, tris)
                    && is_kept(keep, node, info, tris, flags) && faces == flagged(
                    info.handle,
                    tris,
                    flags,
                );
            let key = info.handle.code() as u64;
            let n = info.index_count as nat / 3;
            assert(call_ensures(local, (nodes[i],), sphere));
            if cache.contains_key(key) {
                let bvh = cache[key];
                assert(serves(bvh, sphere, keep, node, info));
                assert forall|t: u32| #[trigger] tris.contains(t) <==> t < n
                    && crate::bvh::test_gives(
                    sphere.test,
                    bvh.tri_bounds@[t as int],
                    true,
                ) by {
                    crate::bvh::law_gathering_misses_nothing(
                        bvh,
                        sphere.radius,
                        sphere.test,
                        tris,
                        t,
                    );
                }
                crate::bvh::law_gathering_misses_nothing(bvh, sphere.radius, sphere.test, tris, 0);
            } else {
                assert forall|t: u32| t < n implies #[trigger] tris.contains(t) by {
                    assert(tris[t as int] == t);
                }
            }
            lemma_kept(keep, node, info, tris, flags);
            assert forall|f: Face| #[trigger] faces.contains(f) <==> is_kept_face(
                keep,
                scene,
                node,
                f,
            ) by {
                assert(f.1 < n <==> tri_exists(info.index_count, f.1));
            }
        },
        None => {},
    }
}

/// A face is a triangle of the mesh that a node draws, and is kept.
pub open spec fn is_kept_face<K: Fn(Handle, u32) -> bool>(
    keep: K,
    scene: Scene,
    node: Handle,
    f: Face,
) -> bool {
    match scene.drawn(node) {
        Some(info) => f.0 == info.handle && tri_exists(info.index_count, f.1) && answers_of(keep)(
            node,
            f.1,
            true,
        ),
        None => false,
    }
}

/// With trees and without, a sphere gives the same faces of every node, each once: exactly the
/// triangles of the drawn meshes that are kept.
pub proof fn law_trees_change_no_faces<
    S: BoxTest,
    L: Fn(Handle) -> LocalSphere<S>,
    K: Fn(Handle, u32) -> bool,
>(
    local: L,
    keep: K,
    scene: Scene,
    cache: Map<u64, MeshBvh>,
    nodes: Seq<Handle>,
    with: Seq<Seq<Face>>,
    without: Seq<Seq<Face>>,
    i: int,
    f: Face,
)
    requires
        is_steady(answers_of(keep)),
        trees_serve(local, keep, scene, cache, nodes),
        all_in_sphere(local, keep, scene, cache, nodes, with),
        all_in_sphere(local, keep, scene, Map::empty(), nodes, without),
        0 <= i < nodes.len(),
    ensures
        with[i].no_duplicates(),
        without[i].no_duplicates(),
        with[i].contains(f) <==> is_kept_face(keep, scene, nodes[i], f),
        without[i].contains(f) <==> is_kept_face(keep, scene, nodes[i], f),
{
    assert(in_sphere(local, keep, scene, cache, nodes[i], with[i]));
    lemma_in_sphere(local, keep, scene, cache, nodes, i, with[i]);
    let none = Map::<u64, MeshBvh>::empty();
    assert(in_sphere(local, keep, scene, none, nodes[i], without[i]));
    assert(trees_serve(local, keep, scene, none, nodes)) by {
        assert forall|i: int, sphere: LocalSphere<S>|
            0 <= i < nodes.len() && #[trigger] call_ensures(
                local,
                (nodes[i],),
                sphere,
            ) implies match scene.drawn(nodes[i]) {
            Some(info) => info.index_count / 3 <= u32::MAX && !none.contains_key(
                info.handle.code() as u64,
            ),
            None => true,
        } by {}
    }
    lemma_in_sphere(local, keep, scene, none, nodes, i, without[i]);
}

/// One item of the list that the panels draw.
#[derive(Clone, Copy)]
pub struct DrawItem {
    /// The item is a picture.
    pub picture: bool,
    pub tex: u32,
    pub rect: [u32; 4],
}

/// Where the last picture with a texture is drawn.
pub open spec fn last_rect(items: Seq<DrawItem>, tex: u32) -> Option<[u32; 4]>
    decreases items.len(),
{
    if items.len() == 0 {
        None
    } else if items.last().picture && items.last().tex == tex {
        Some(items.last().rect)
    } else {
        last_rect(items.drop_last(), tex)
    }
}

/// Where the viewport is drawn: the last picture that shows the scene.
pub fn find_viewport_rect(items: &Vec<DrawItem>, scene_tex: u32) -> (r: Option<[u32; 4]>)
    ensures
        r == last_rect(items@, scene_tex),
{
    let mut n: usize = items.len();
    assert(items@.take(n as int) =~= items@);
    while n > 0
        invariant
            n <= items@.len(),
            last_rect(items@, scene_tex) == last_rect(items@.take(n as int), scene_tex),
        decreases n,
    {
        let item = items[n - 1];
        assert(items@.take(n as int).drop_last() =~= items@.take(n - 1));
        if item.picture && item.tex == scene_tex {
            return Some(item.rect);
        }
        n -= 1;
    }
    None
}

/// What a hit reads belongs to the vertices of its triangle, corner by corner: position, texture
/// coordinates of the first set and normal are all taken from the vertex that the index of the
/// same corner names. Missing coordinates are zero, and a missing normal points up.
pub proof fn law_a_hit_reads_its_own_vertices(hit: MeshHit, mesh: Mesh, c: int)
    requires
        hit.reads(mesh),
        0 <= c < 3,
    ensures
        ({
            let i = mesh.indices@[3 * hit.hit.tri + c] as int;
            &&& 3 * hit.hit.tri + c < mesh.indices@.len()
            &&& hit.corners[c] == mesh.positions@[i]
            &&& mesh.uvs@.len() > 0 && i < mesh.uvs@[0]@.len() ==> hit.uvs[c]
                == mesh.uvs@[0]@[i]
            &&& mesh.uvs@.len() == 0 || i >= mesh.uvs@[0]@.len() ==> hit.uvs[c] == [0u32, 0u32]
            &&& i < mesh.normals@.len() ==> hit.normals[c] == mesh.normals@[i]
            &&& i >= mesh.normals@.len() ==> hit.normals[c] == [0u32, 0x3f80_0000u32, 0u32]
        }),
{
}

/// A point is in the rectangle between two corners exactly if each of its coordinates lies
/// between those of the corners, the ends included.
pub proof fn law_the_frame_is_what_lies_between(p: Point, a: Point, b: Point)
    requires
        forall|k: int|
            0 <= k < 2 ==> crate::bits::is_ordered(#[trigger] p[k]) && crate::bits::is_ordered(a[k])
                && crate::bits::is_ordered(b[k]),
    ensures
        !in_frame(None, a, b),
        in_frame(Some(p), a, b) <==> forall|k: int|
            0 <= k < 2 ==> {
                let v = crate::bits::value(#[trigger] p[k]);
                let x = crate::bits::value(a[k]);
                let y = crate::bits::value(b[k]);
                x <= v <= y || y <= v <= x
            },
{
    crate::bits::law_keys_order_numbers(p[0], a[0]);
    crate::bits::law_keys_order_numbers(p[0], b[0]);
    crate::bits::law_keys_order_numbers(a[0], b[0]);
    crate::bits::law_keys_order_numbers(p[1], a[1]);
    crate::bits::law_keys_order_numbers(p[1], b[1]);
    crate::bits::law_keys_order_numbers(a[1], b[1]);
}

/// A triangle exists exactly if its number is below a third of the indices.
pub proof fn law_three_indices_make_a_triangle(index_count: usize, tri: u32)
    ensures
        tri_exists(index_count, tri) <==> tri < index_count / 3,
{
}

/// The faces of a list are those of the triangles whose flags are set, all of the given mesh, and
/// in the order of the triangles.
pub proof fn law_flags_choose_the_faces(mesh: Handle, tris: Seq<u32>, flags: Seq<bool>, f: Face)
    requires
        flags.len() == tris.len(),
    ensures
        flagged(mesh, tris, flags).contains(f) <==> exists|i: int|
            0 <= i < tris.len() && #[trigger] flags[i] && f == (mesh, tris[i]),
        tris.len() > 0 ==> flagged(mesh, tris, flags) == flagged(
            mesh,
            tris.drop_last(),
            flags.drop_last(),
        ) + (if flags[tris.len() - 1] {
            seq![(mesh, tris[tris.len() - 1])]
        } else {
            Seq::empty()
        }),
    decreases tris.len(),
{
    if tris.len() > 0 {
        let n = tris.len() - 1;
        let rest = tris.drop_last();
        let less = flags.drop_last();
        law_flags_choose_the_faces(mesh, rest, less, f);
        let before = flagged(mesh, rest, less);
        let now = flagged(mesh, tris, flags);
        assert(now =~= before + (if flags[n] {
            seq![(mesh, tris[n])]
        } else {
            Seq::empty()
        }));
        if before.contains(f) {
            let k = choose|k: int| 0 <= k < before.len() && before[k] == f;
            assert(now[k] == f);
            let i = choose|i: int| 0 <= i < rest.len() && #[trigger] less[i] && f == (mesh, rest[i]);
            assert(flags[i] && f == (mesh, tris[i]));
        }
        if flags[n] && f == (mesh, tris[n]) {
            assert(now[before.len() as int] == f);
        }
        if exists|i: int| 0 <= i < tris.len() && #[trigger] flags[i] && f == (mesh, tris[i]) {
            let i = choose|i: int| 0 <= i < tris.len() && #[trigger] flags[i] && f == (mesh, tris[i]);
            if i < n {
                assert(less[i] && f == (mesh, rest[i]));
            }
        }
        if now.contains(f) && !before.contains(f) {
            let k = choose|k: int| 0 <= k < now.len() && now[k] == f;
            if k < before.len() {
                assert(before[k] == f);
            }
            assert(flags[n]);
        }
    }
}

/// A face of a node in a rectangle is a triangle of the mesh that the node draws, and passed the
/// test; where only front faces count, it faces the eye.
pub proof fn law_faces_in_a_frame_pass_the_tests<V: Fn(Handle, u32) -> bool>(
    facing: V,
    keep: spec_fn(Handle, u32, bool) -> bool,
    scene: Scene,
    front_only: bool,
    node: Handle,
    faces: Seq<Face>,
    f: Face,
)
    requires
        in_rect(facing, keep, scene, front_only, node, faces),
        faces.contains(f),
    ensures
        scene.drawn(node) is Some,
        f.0 == scene.drawn(node)->0.handle,
        f.1 < scene.drawn(node)->0.index_count / 3,
        keep(node, f.1, true),
        front_only ==> call_ensures(facing, (node, f.1), true),
{
    match scene.drawn(node) {
        Some(info) => {
            let flags = choose|flags: Seq<bool>| #[trigger]
                is_seen(facing, keep, node, info, front_only, flags) && faces == flagged(
                    info.handle,
                    crate::mesh::counting(info.index_count as nat / 3),
                    flags,
                );
            let tris = crate::mesh::counting(info.index_count as nat / 3);
            law_flags_choose_the_faces(info.handle, tris, flags, f);
            let i = choose|i: int|
                0 <= i < tris.len() && #[trigger] flags[i] && f == (info.handle, tris[i]);
            assert(face_flag(
                facing,
                keep,
                node,
                info.index_count,
                front_only,
                i as u32,
                flags[i],
            ));
        },
        None => {
            let k = choose|k: int| 0 <= k < faces.len() && faces[k] == f;
        },
    }
}

/// A triangle of a drawn mesh that cannot fail the test, and cannot face away where only front
/// faces count, is among the faces.
pub proof fn law_faces_in_a_frame_are_all_there<V: Fn(Handle, u32) -> bool>(
    facing: V,
    keep: spec_fn(Handle, u32, bool) -> bool,
    scene: Scene,
    front_only: bool,
    node: Handle,
    faces: Seq<Face>,
    t: u32,
)
    requires
        in_rect(facing, keep, scene, front_only, node, faces),
        scene.drawn(node) is Some,
        t < scene.drawn(node)->0.index_count / 3,
        !keep(node, t, false),
        front_only ==> !call_ensures(facing, (node, t), false),
    ensures
        faces.contains((scene.drawn(node)->0.handle, t)),
{
    let info = scene.drawn(node)->0;
    let flags = choose|flags: Seq<bool>| #[trigger]
        is_seen(facing, keep, node, info, front_only, flags) && faces == flagged(
            info.handle,
            crate::mesh::counting(info.index_count as nat / 3),
            flags,
        );
    let tris = crate::mesh::counting(info.index_count as nat / 3);
    let f = (info.handle, t);
    assert(face_flag(facing, keep, node, info.index_count, front_only, t, flags[t as int]));
    assert(flags[t as int]);
    assert(tris[t as int] == t);
    law_flags_choose_the_faces(info.handle, tris, flags, f);
}

/// Lists put behind each other keep everything in its order.
pub proof fn law_joined_lists_follow_each_other(a: Seq<Seq<Face>>, list: Seq<Face>, f: Face)
    ensures
        joined(a.push(list)) == joined(a) + list,
        joined(a).contains(f) <==> exists|i: int| 0 <= i < a.len() && (#[trigger] a[i]).contains(f),
    decreases a.len(),
{
    assert(a.push(list).drop_last() =~= a);
    if a.len() > 0 {
        let rest = a.drop_last();
        let last = a.last();
        law_joined_lists_follow_each_other(rest, last, f);
        let before = joined(rest);
        let now = joined(a);
        assert(now == before + last);
        if before.contains(f) {
            let k = choose|k: int| 0 <= k < before.len() && before[k] == f;
            assert(now[k] == f);
            let i = choose|i: int| 0 <= i < rest.len() && (#[trigger] rest[i]).contains(f);
            assert(a[i].contains(f));
        }
        if last.contains(f) {
            let k = choose|k: int| 0 <= k < last.len() && last[k] == f;
            assert(now[before.len() + k] == f);
            assert(a[a.len() - 1].contains(f));
        }
        if now.contains(f) {
            let k = choose|k: int| 0 <= k < now.len() && now[k] == f;
            if k < before.len() {
                assert(before[k] == f);
            } else {
                assert(last[k - before.len()] == f);
            }
        }
        if exists|i: int| 0 <= i < a.len() && (#[trigger] a[i]).contains(f) {
            let i = choose|i: int| 0 <= i < a.len() && (#[trigger] a[i]).contains(f);
            if i < a.len() - 1 {
                assert(rest[i].contains(f));
            }
        }
    }
}

/// The viewport is where the last picture with its texture is; items that are no pictures, and
/// pictures of other textures, do not count.
pub proof fn law_the_last_picture_counts(items: Seq<DrawItem>, tex: u32) -> (i: int)
    ensures
        match last_rect(items, tex) {
            Some(r) => {
                &&& 0 <= i < items.len()
                &&& items[i].picture && items[i].tex == tex && items[i].rect == r
                &&& forall|k: int|
                    i < k < items.len() ==> !((#[trigger] items[k]).picture && items[k].tex == tex)
            },
            None => forall|k: int|
                0 <= k < items.len() ==> !((#[trigger] items[k]).picture && items[k].tex == tex),
        },
    decreases items.len(),
{
    if items.len() == 0 {
        0
    } else if items.last().picture && items.last().tex == tex {
        items.len() - 1
    } else {
        let rest = items.drop_last();
        let i = law_the_last_picture_counts(rest, tex);
        assert forall|k: int|
            0 <= k < items.len() && (last_rect(items, tex) is None || i < k) implies !((
        #[trigger] items[k]).picture && items[k].tex == tex) by {
            if k < rest.len() {
                assert(rest[k] == items[k]);
            }
        }
        i
    }
}

/// Trying one more triangle keeps the hit so far, unless the new one is nearer: of hits at the same
/// distance the first triangle stays. Without a hit so far, any hit in reach is taken.
pub proof fn law_the_first_of_equal_hits_stays(answers: Seq<Option<TriHit>>, answer: Option<TriHit>)
    requires
        answers.len() < u32::MAX,
        answer is Some ==> crate::bits::is_ordered(answer->0.t),
        closest_of(answers) is Some ==> crate::bits::is_ordered(closest_of(answers)->0.at.t),
    ensures
        ({
            let before = closest_of(answers);
            let now = closest_of(answers.push(answer));
            &&& answer is None ==> now == before
            &&& answer is Some && before is Some && crate::bits::value(answer->0.t)
                < crate::bits::value(before->0.at.t) ==> now == Some(
                RayHit { tri: answers.len() as u32, at: answer->0 },
            )
            &&& answer is Some && before is Some && crate::bits::value(answer->0.t)
                >= crate::bits::value(before->0.at.t) ==> now == before
            &&& answer is Some && before is None && crate::bits::value(answer->0.t)
                < crate::bits::value(0x7f7f_ffff) ==> now == Some(
                RayHit { tri: answers.len() as u32, at: answer->0 },
            )
        }),
{
    assert(answers.push(answer).drop_last() =~= answers);
    if answer is Some {
        crate::bits::law_comparisons_go_by_value(answer->0.t, LARGEST);
        if closest_of(answers) is Some {
            crate::bits::law_comparisons_go_by_value(
                answer->0.t,
                closest_of(answers)->0.at.t,
            );
        }
    }
}

} // verus!
