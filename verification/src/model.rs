//! Which model is shown and painted, and the unwrap of its meshes.

use std::collections::HashMap;

use vstd::prelude::*;
use vstd::string::StringExecFns;

use crate::bvh::BoxMath;
use crate::mesh::Mesh;
use crate::paint::FIRST_TILE;
use crate::painter::Painter;
use crate::pick::ensure_bvhs;
use crate::scene::{collect_mesh_nodes, contains_handle, set_subtree_visible, Handle, Node, Scene};
use crate::segment::Segmentation;
use crate::sort::ascending_set;
use crate::text::{begins_with, concat3, decimal_string};
use crate::uv::face_udims;

verus! {

broadcast use vstd::std_specs::hash::group_hash_axioms;

/// The number of triangles that the nodes show, all together.
pub open spec fn tri_sum(scene: Scene, nodes: Seq<Handle>) -> nat
    decreases nodes.len(),
{
    if nodes.len() == 0 {
        0
    } else {
        tri_sum(scene, nodes.drop_last()) + match scene.shown(nodes.last()) {
            Some(info) => info.index_count as nat / 3,
            None => 0,
        }
    }
}

proof fn lemma_tri_sum_bound(scene: Scene, nodes: Seq<Handle>)
    ensures
        tri_sum(scene, nodes) <= nodes.len() * usize::MAX,
    decreases nodes.len(),
{
    if nodes.len() > 0 {
        lemma_tri_sum_bound(scene, nodes.drop_last());
        let n = nodes.len() as int;
        assert((n - 1) * usize::MAX + usize::MAX == n * usize::MAX) by (nonlinear_arith);
    }
}

/// The faces of the meshes that the nodes show are not more than the nodes' triangles.
proof fn lemma_faces_bound(m: crate::segment::LabelMap, scene: Scene, nodes: Seq<Handle>)
    ensures
        crate::segment::all_faces(crate::segment::synced(m, scene, nodes)).finite(),
        crate::segment::all_faces(crate::segment::synced(m, scene, nodes)).len() <= tri_sum(
            scene,
            nodes,
        ),
    decreases nodes.len(),
{
    let now = crate::segment::all_faces(crate::segment::synced(m, scene, nodes));
    if nodes.len() == 0 {
        assert(now =~= Set::empty());
    } else {
        let rest = nodes.drop_last();
        lemma_faces_bound(m, scene, rest);
        let before = crate::segment::all_faces(crate::segment::synced(m, scene, rest));
        let last = nodes.last();
        match scene.shown(last) {
            Some(info) => {
                lemma_shown_is_found(scene, last);
                let n = info.index_count as nat / 3;
                crate::segment::lemma_row(info.handle, n);
                let row = crate::segment::row(info.handle, n);
                assert forall|f: (Handle, int)| now.contains(f) implies before.union(row).contains(
                    f,
                ) by {
                    let k = choose|k: int|
                        0 <= k < nodes.len() && crate::segment::shows(
                            scene,
                            #[trigger] nodes[k],
                            f.0,
                        );
                    if k < rest.len() {
                        assert(rest[k] == nodes[k]);
                    }
                }
                vstd::set_lib::lemma_len_union(before, row);
                vstd::set_lib::lemma_len_subset(now, before.union(row));
            },
            None => {
                assert forall|f: (Handle, int)| now.contains(f) implies before.contains(f) by {
                    let k = choose|k: int|
                        0 <= k < nodes.len() && crate::segment::shows(
                            scene,
                            #[trigger] nodes[k],
                            f.0,
                        );
                    assert(rest[k] == nodes[k]);
                }
                vstd::set_lib::lemma_len_subset(now, before);
            },
        }
    }
}

proof fn lemma_shown_is_found(scene: Scene, node: Handle)
    ensures
        match scene.shown(node) {
            Some(info) => scene.mesh(info.handle) == Some(info),
            None => true,
        },
{
    match scene.node(node) {
        Some(n) => match n.mesh {
            Some(m) => {
                crate::scene::lemma_mesh_at(scene.meshes@, m);
            },
            None => {},
        },
        None => {},
    }
}

impl Painter {
    /// The number of triangles of the nodes that can be painted.
    pub fn total_tris(&self) -> (n: u128)
        ensures
            n == tri_sum(self.scene, self.paintable@),
    {
        let mut n: u128 = 0;
        let mut i: usize = 0;
        assert(tri_sum(self.scene, self.paintable@.take(0)) == 0);
        while i < self.paintable.len()
            invariant
                i <= self.paintable.len(),
                n == tri_sum(self.scene, self.paintable@.take(i as int)),
                n <= i * usize::MAX,
            decreases self.paintable@.len() - i,
        {
            proof {
                let more = self.paintable@.take(i + 1);
                assert(more.drop_last() =~= self.paintable@.take(i as int));
                lemma_tri_sum_bound(self.scene, more);
                let len = (i + 1) as int;
                assert(len * usize::MAX <= u128::MAX) by (nonlinear_arith)
                    requires
                        len <= usize::MAX,
                        usize::MAX <= 0xffff_ffff_ffff_ffff,
                ;
            }
            match self.scene.mesh_of(self.paintable[i]) {
                Some(info) => {
                    n += (info.index_count / 3) as u128;
                },
                None => {},
            }
            i += 1;
        }
        assert(self.paintable@.take(i as int) =~= self.paintable@);
        n
    }

    /// Builds the trees of the nodes that can be painted anew.
    pub fn rebuild_bvhs<M: BoxMath, F: Fn(Handle) -> Option<Mesh>>(&mut self, math: &M, fetch: F)
        requires
            forall|h: Handle| call_requires(fetch, (h,)),
            forall|h: Handle, mesh: Mesh| #[trigger]
                call_ensures(fetch, (h,), Some(mesh)) ==> crate::bvh::corners_exist(mesh)
                    && crate::bvh::tri_total(mesh) <= 0x7fff_ffff,
        ensures
            crate::pick::is_current(
                *math,
                fetch,
                old(self).scene,
                old(self).paintable@,
                Map::empty(),
                final(self).bvh_cache@,
            ),
            *final(self) == (Painter { bvh_cache: final(self).bvh_cache, ..*old(self) }),
    {
        let mut cache: HashMap<u64, crate::bvh::MeshBvh> = HashMap::new();
        ensure_bvhs(math, fetch, &self.scene, &self.paintable, &mut cache);
        self.bvh_cache = cache;
    }

    /// Says in the status how long the trees took, if there was much to do. The time comes as
    /// text.
    pub fn report_trees(&mut self, ms: &str)
        ensures
            *final(self) == (Painter { status: final(self).status, ..*old(self) }),
            final(self).status@ == if tri_sum(old(self).scene, old(self).paintable@) > 50_000 {
                "BVH ready · "@ + crate::text::decimal(
                    tri_sum(old(self).scene, old(self).paintable@),
                ) + " tris · "@ + ms@ + " ms"@
            } else {
                old(self).status@
            },
    {
        let tris: u128 = self.total_tris();
        if tris > 50_000 {
            let mut s = String::new();
            s.append("BVH ready · ");
            s.append(decimal_string(tris).as_str());
            s.append(" tris · ");
            s.append(ms);
            s.append(" ms");
            assert(s@ =~= "BVH ready · "@ + crate::text::decimal(tris as nat) + " tris · "@ + ms@
                + " ms"@);
            self.status = s;
        }
    }

    /// Takes note of a model that was loaded.
    pub fn note_loaded(&mut self, name: String)
        ensures
            final(self).model_name@ == name@,
            final(self).uv.needs_fit,
            final(self).status@ == if "BVH"@.is_prefix_of(old(self).status@) {
                "Loaded "@ + name@ + " · "@ + old(self).status@
            } else {
                "Loaded "@ + name@
            },
            *final(self) == (Painter {
                model_name: final(self).model_name,
                uv: crate::painter::UvView { needs_fit: true, ..old(self).uv },
                status: final(self).status,
                ..*old(self)
            }),
    {
        self.uv.needs_fit = true;
        let mut s = String::new();
        s.append("Loaded ");
        s.append(name.as_str());
        if begins_with(self.status.as_str(), "BVH") {
            s.append(" · ");
            s.append(self.status.as_str());
            assert(s@ =~= "Loaded "@ + name@ + " · "@ + self.status@);
        } else {
            assert(s@ =~= "Loaded "@ + name@);
        }
        self.status = s;
        self.model_name = name;
    }

    /// Takes note of a model that could not be loaded.
    pub fn note_load_failed(&mut self, why: &str)
        ensures
            final(self).status@ == "Load failed: "@ + why@,
            *final(self) == (Painter { status: final(self).status, ..*old(self) }),
    {
        self.status = concat3("Load failed: ", why, "");
        assert(self.status@ =~= "Load failed: "@ + why@) by {
            reveal_strlit("");
        }
    }
}

/// The nodes that can be painted when a shape is shown.
pub open spec fn paintable_for(p: Painter, nodes: Seq<Node>, shape: usize) -> Seq<Handle> {
    if shape == 0 {
        seq![p.sphere_node]
    } else if shape == 1 {
        seq![p.cube_node]
    } else {
        crate::scene::mesh_nodes(nodes, p.model_root)
    }
}

/// The nodes after a shape was chosen: the sphere, the cube and the model are shown or hidden.
pub open spec fn shown_nodes(p: Painter, shape: usize) -> Seq<Node> {
    let one = crate::scene::switched(p.scene.nodes@, set![p.sphere_node], shape == 0);
    let two = crate::scene::switched(one, set![p.cube_node], shape == 1);
    match p.model_root {
        Some(root) => crate::scene::switched(
            two,
            crate::scene::subtree(crate::scene::links(two), root).to_set(),
            shape == 2,
        ),
        None => two,
    }
}

impl Painter {
    /// Chooses what is shown and painted: the sphere, the cube or the model. The trees of the new
    /// meshes are built, and their faces taken over.
    pub fn set_shape<M: BoxMath, F: Fn(Handle) -> Option<Mesh>>(
        &mut self,
        shape: usize,
        math: &M,
        fetch: F,
    )
        requires
            old(self).wf(),
            crate::scene::is_forest(crate::scene::links(old(self).scene.nodes@)),
            forall|h: Handle| call_requires(fetch, (h,)),
            forall|h: Handle, mesh: Mesh| #[trigger]
                call_ensures(fetch, (h,), Some(mesh)) ==> crate::bvh::corners_exist(mesh)
                    && crate::bvh::tri_total(mesh) <= 0x7fff_ffff,
        ensures
            final(self).wf(),
            final(self).shape == shape,
            final(self).scene.nodes@ == shown_nodes(*old(self), shape),
            final(self).scene.meshes == old(self).scene.meshes,
            final(self).paintable@ == paintable_for(
                *old(self),
                shown_nodes(*old(self), shape),
                shape,
            ),
            crate::pick::is_current(
                *math,
                fetch,
                final(self).scene,
                final(self).paintable@,
                Map::empty(),
                final(self).bvh_cache@,
            ),
            final(self).segmentation.labels() == crate::segment::synced(
                old(self).segmentation.labels(),
                final(self).scene,
                final(self).paintable@,
            ),
            final(self).segmentation.segments == old(self).segmentation.segments,
            final(self).segmentation.active == old(self).segmentation.active,
            final(self).segmentation.next_id == old(self).segmentation.next_id,
            final(self).segmentation.added == old(self).segmentation.added,
            final(self).seg_overlay_dirty,
            *final(self) == (Painter {
                shape,
                scene: final(self).scene,
                paintable: final(self).paintable,
                bvh_cache: final(self).bvh_cache,
                segmentation: final(self).segmentation,
                seg_overlay_dirty: true,
                ..*old(self)
            }),
    {
        self.shape = shape;
        let sphere = self.sphere_node;
        let cube = self.cube_node;
        proof {
            let nodes = self.scene.nodes@;
            let one = crate::scene::switched(nodes, set![sphere], shape == 0);
            crate::scene::law_visibility_moves_nothing(nodes, set![sphere], shape == 0);
            crate::scene::law_visibility_moves_nothing(one, set![cube], shape == 1);
            let two = crate::scene::switched(one, set![cube], shape == 1);
            match self.model_root {
                Some(root) => {
                    crate::scene::law_visibility_moves_nothing(
                        two,
                        crate::scene::subtree(crate::scene::links(two), root).to_set(),
                        shape == 2,
                    );
                },
                None => {},
            }
        }
        crate::scene::set_node_visible(&mut self.scene, sphere, shape == 0);
        crate::scene::set_node_visible(&mut self.scene, cube, shape == 1);
        match self.model_root {
            Some(root) => {
                set_subtree_visible(&mut self.scene, root, shape == 2);
            },
            None => {},
        }
        let paintable: Vec<Handle> = if shape == 0 {
            vec![sphere]
        } else if shape == 1 {
            vec![cube]
        } else {
            collect_mesh_nodes(&self.scene, self.model_root)
        };
        assert(paintable@ =~= paintable_for(*old(self), self.scene.nodes@, shape));
        self.paintable = paintable;
        self.rebuild_bvhs(math, fetch);
        self.segmentation.sync(&self.scene, &self.paintable);
        self.seg_overlay_dirty = true;
    }
}

/// The meshes that the nodes show, each once, in the order in which they first occur.
pub open spec fn distinct_meshes(scene: Scene, nodes: Seq<Handle>) -> Seq<Handle>
    decreases nodes.len(),
{
    if nodes.len() == 0 {
        Seq::empty()
    } else {
        let before = distinct_meshes(scene, nodes.drop_last());
        match scene.shown(nodes.last()) {
            Some(info) => if before.contains(info.handle) {
                before
            } else {
                before.push(info.handle)
            },
            None => before,
        }
    }
}

/// The triangles of a list of meshes, all together.
pub open spec fn mesh_total(scene: Scene, meshes: Seq<Handle>) -> nat
    decreases meshes.len(),
{
    if meshes.len() == 0 {
        0
    } else {
        mesh_total(scene, meshes.drop_last()) + crate::segment::tri_count(scene, meshes.last())
    }
}

/// Every triangle of the meshes that the nodes show has a label, and nothing else has.
pub open spec fn covers(m: crate::segment::LabelMap, scene: Scene, nodes: Seq<Handle>) -> bool {
    &&& forall|h: Handle|
        #[trigger] m.contains_key(h) <==> crate::segment::is_shown(scene, nodes, h)
    &&& forall|h: Handle| #[trigger]
        m.contains_key(h) ==> m[h].len() == crate::segment::tri_count(scene, h)
}

proof fn lemma_distinct_meshes(scene: Scene, nodes: Seq<Handle>)
    ensures
        distinct_meshes(scene, nodes).no_duplicates(),
        forall|h: Handle| #[trigger]
            distinct_meshes(scene, nodes).contains(h) <==> crate::segment::is_shown(
                scene,
                nodes,
                h,
            ),
    decreases nodes.len(),
{
    if nodes.len() > 0 {
        let rest = nodes.drop_last();
        lemma_distinct_meshes(scene, rest);
        let before = distinct_meshes(scene, rest);
        let now = distinct_meshes(scene, nodes);
        assert forall|h: Handle| #[trigger]
            now.contains(h) <==> crate::segment::is_shown(scene, nodes, h) by {
            if crate::segment::is_shown(scene, nodes, h) {
                let k = choose|k: int|
                    0 <= k < nodes.len() && crate::segment::shows(scene, #[trigger] nodes[k], h);
                if k < rest.len() {
                    assert(rest[k] == nodes[k]);
                    assert(before.contains(h));
                    let i = choose|i: int| 0 <= i < before.len() && before[i] == h;
                    assert(now[i] == h);
                } else if !before.contains(h) {
                    assert(now[before.len() as int] == h);
                }
            }
            if now.contains(h) {
                let i = choose|i: int| 0 <= i < now.len() && now[i] == h;
                if i < before.len() {
                    assert(before[i] == h);
                    assert(before.contains(h));
                    let k = choose|k: int|
                        0 <= k < rest.len() && crate::segment::shows(scene, #[trigger] rest[k], h);
                    assert(nodes[k] == rest[k]);
                } else {
                    assert(crate::segment::shows(scene, nodes[nodes.len() - 1], h));
                }
            }
        }
    }
}

spec fn faces_of(scene: Scene, meshes: Seq<Handle>) -> Set<(Handle, int)> {
    Set::new(
        |f: (Handle, int)|
            meshes.contains(f.0) && 0 <= f.1 < crate::segment::tri_count(scene, f.0),
    )
}

proof fn lemma_mesh_total(scene: Scene, meshes: Seq<Handle>)
    requires
        meshes.no_duplicates(),
    ensures
        faces_of(scene, meshes).finite(),
        faces_of(scene, meshes).len() == mesh_total(scene, meshes),
    decreases meshes.len(),
{
    if meshes.len() == 0 {
        assert(faces_of(scene, meshes) =~= Set::empty());
    } else {
        let rest = meshes.drop_last();
        let last = meshes.last();
        lemma_mesh_total(scene, rest);
        let n = crate::segment::tri_count(scene, last);
        crate::segment::lemma_row(last, n);
        let a = faces_of(scene, rest);
        let b = crate::segment::row(last, n);
        assert forall|h: Handle| #[trigger]
            meshes.contains(h) <==> rest.contains(h) || h == last by {
            if meshes.contains(h) {
                let i = choose|i: int| 0 <= i < meshes.len() && meshes[i] == h;
                if i < rest.len() {
                    assert(rest[i] == h);
                }
            }
            if rest.contains(h) {
                let i = choose|i: int| 0 <= i < rest.len() && rest[i] == h;
                assert(meshes[i] == h);
            }
            assert(meshes[meshes.len() - 1] == last);
        }
        assert(!rest.contains(last));
        assert(faces_of(scene, meshes) =~= a.union(b));
        assert(a.disjoint(b));
        vstd::set_lib::lemma_set_disjoint_lens(a, b);
    }
}

/// The leftover faces and the faces of all segments together are the triangles of the meshes
/// that the nodes show, a mesh that several nodes show counted once.
pub proof fn law_counts_cover_the_meshes(s: Segmentation, scene: Scene, nodes: Seq<Handle>)
    requires
        s.wf(),
        covers(s.labels(), scene, nodes),
    ensures
        crate::segment::faces_in(s.labels(), crate::segment::UNASSIGNED).len()
            + crate::segment::segment_total(s.labels(), crate::segment::SegmentId::MAX as nat)
            == mesh_total(scene, distinct_meshes(scene, nodes)),
{
    crate::segment::law_counts_add_up(s);
    lemma_distinct_meshes(scene, nodes);
    let meshes = distinct_meshes(scene, nodes);
    lemma_mesh_total(scene, meshes);
    assert(crate::segment::all_faces(s.labels()) =~= faces_of(scene, meshes));
}

/// Once the meshes of the scene were taken over, labelling faces and deleting segments keeps
/// exactly the triangles of those meshes labelled.
pub proof fn law_labels_keep_covering(
    m: crate::segment::LabelMap,
    scene: Scene,
    nodes: Seq<Handle>,
    mesh: Handle,
    tri: int,
    faces: Seq<(Handle, u32)>,
    id: crate::segment::SegmentId,
)
    ensures
        covers(crate::segment::synced(m, scene, nodes), scene, nodes),
        covers(m, scene, nodes) ==> {
            &&& covers(crate::segment::relabelled(m, mesh, tri, id), scene, nodes)
            &&& covers(crate::segment::painted(m, faces, id), scene, nodes)
            &&& covers(crate::segment::without_segment(m, id), scene, nodes)
        },
{
}

/// The meshes to unwrap, with the tile of each of their faces.
pub open spec fn is_plan(
    plan: Seq<(Handle, Vec<u32>)>,
    seg: Segmentation,
    scene: Scene,
    nodes: Seq<Handle>,
) -> bool {
    let meshes = distinct_meshes(scene, nodes);
    &&& plan.len() == meshes.len()
    &&& forall|i: int|
        0 <= i < plan.len() ==> (#[trigger] plan[i]).0 == meshes[i] && plan[i].1@
            == crate::model::tiles_of_faces(seg, meshes[i], crate::segment::tri_count(scene, meshes[i]))
}

/// The tile of each face of a mesh.
pub open spec fn tiles_of_faces(seg: Segmentation, mesh: Handle, n: nat) -> Seq<u32> {
    Seq::new(
        n,
        |t: int|
            crate::uv::tile_for(
                crate::uv::tiles_by_segment(seg),
                crate::segment::label_in(seg.labels(), mesh, (t as u32) as int),
            ),
    )
}

fn listed(list: &Vec<(Handle, Vec<u32>)>, h: Handle) -> (r: bool)
    ensures
        r == exists|i: int| 0 <= i < list@.len() && (#[trigger] list@[i]).0 == h,
{
    let mut i: usize = 0;
    while i < list.len()
        invariant
            i <= list@.len(),
            forall|k: int| 0 <= k < i ==> (#[trigger] list@[k]).0 != h,
        decreases list@.len() - i,
    {
        if list[i].0 == h {
            return true;
        }
        i += 1;
    }
    false
}

impl Painter {
    /// Plans the unwrap: takes over the faces of the meshes that can be painted, and says which
    /// tile each face goes to.
    pub fn plan_unwrap(&mut self) -> (plan: Vec<(Handle, Vec<u32>)>)
        requires
            old(self).wf(),
            tri_sum(old(self).scene, old(self).paintable@) <= usize::MAX,
            old(self).segmentation.segments@.len() + 1002 <= u32::MAX,
        ensures
            final(self).wf(),
            final(self).segmentation.labels() == crate::segment::synced(
                old(self).segmentation.labels(),
                old(self).scene,
                old(self).paintable@,
            ),
            final(self).segmentation.segments == old(self).segmentation.segments,
            final(self).segmentation.active == old(self).segmentation.active,
            final(self).segmentation.next_id == old(self).segmentation.next_id,
            final(self).segmentation.added == old(self).segmentation.added,
            *final(self) == (Painter { segmentation: final(self).segmentation, ..*old(self) }),
            is_plan(plan@, final(self).segmentation, old(self).scene, old(self).paintable@),
    {
        self.segmentation.sync(&self.scene, &self.paintable);
        proof {
            let m = self.segmentation.labels();
            lemma_faces_bound(old(self).segmentation.labels(), self.scene, self.paintable@);
            vstd::set_lib::lemma_len_subset(
                crate::segment::faces_in(m, crate::segment::UNASSIGNED),
                crate::segment::all_faces(m),
            );
        }
        let mut plan: Vec<(Handle, Vec<u32>)> = Vec::new();
        let mut i: usize = 0;
        let ghost scene = self.scene;
        let ghost nodes = self.paintable@;
        assert(distinct_meshes(scene, nodes.take(0)) =~= Seq::empty());
        while i < self.paintable.len()
            invariant
                i <= nodes.len(),
                self.segmentation.wf(),
                crate::uv::countable(self.segmentation),
                scene == self.scene,
                nodes == self.paintable@,
                is_plan(plan@, self.segmentation, scene, nodes.take(i as int)),
            decreases nodes.len() - i,
        {
            let ghost meshes = distinct_meshes(scene, nodes.take(i as int));
            proof {
                assert(nodes.take(i + 1).drop_last() =~= nodes.take(i as int));
                lemma_shown_is_found(scene, nodes[i as int]);
            }
            match self.scene.mesh_of(self.paintable[i]) {
                Some(info) => {
                    let known = listed(&plan, info.handle);
                    proof {
                        if known {
                            let k = choose|k: int|
                                0 <= k < plan@.len() && (#[trigger] plan@[k]).0 == info.handle;
                            assert(meshes[k] == info.handle);
                        } else if meshes.contains(info.handle) {
                            let k = choose|k: int|
                                0 <= k < meshes.len() && meshes[k] == info.handle;
                            assert(plan@[k].0 == info.handle);
                        }
                    }
                    if !known {
                        let tiles = face_udims(
                            &self.segmentation,
                            info.handle,
                            info.index_count / 3,
                        );
                        assert(tiles@ =~= tiles_of_faces(
                            self.segmentation,
                            info.handle,
                            crate::segment::tri_count(scene, info.handle),
                        ));
                        plan.push((info.handle, tiles));
                    }
                },
                None => {},
            }
            i += 1;
        }
        assert(nodes.take(i as int) =~= nodes);
        plan
    }

    /// Takes the tiles of a plan into use, in ascending order. A plan without faces leaves the
    /// first tile.
    pub fn adopt_tiles(&mut self, plan: &Vec<(Handle, Vec<u32>)>)
        ensures
            *final(self) == (Painter { udim_ids: final(self).udim_ids, ..*old(self) }),
            old(self).is_sound() ==> final(self).is_sound(),
            forall|i: int, j: int|
                0 <= i < j < final(self).udim_ids@.len() ==> final(self).udim_ids@[i] < final(
                    self).udim_ids@[j],
            final(self).udim_ids@.len() > 0,
            forall|t: u32| #[trigger]
                final(self).udim_ids@.contains(t) <==> is_planned(plan@, t) || t == FIRST_TILE && (
                forall|u: u32| !#[trigger] is_planned(plan@, u)),
    {
        let mut all: Vec<u128> = Vec::new();
        let mut i: usize = 0;
        while i < plan.len()
            invariant
                i <= plan@.len(),
                forall|x: u128| #[trigger]
                    all@.contains(x) <==> x <= u32::MAX && is_planned(
                        plan@.take(i as int),
                        x as u32,
                    ),
            decreases plan@.len() - i,
        {
            let ghost before = all@;
            proof {
                lemma_planned_step(plan@, i as int);
            }
            let mut k: usize = 0;
            while k < plan[i].1.len()
                invariant
                    i < plan@.len(),
                    k <= plan@[i as int].1@.len(),
                    forall|x: u128| #[trigger]
                        all@.contains(x) <==> before.contains(x) || x <= u32::MAX
                            && plan@[i as int].1@.take(k as int).contains(x as u32),
                decreases plan@[i as int].1@.len() - k,
            {
                let ghost sofar = all@;
                let tile: u32 = plan[i].1[k];
                all.push(tile as u128);
                proof {
                    crate::tables::lemma_take_contains(plan@[i as int].1@, k as int);
                    assert forall|x: u128| #[trigger]
                        all@.contains(x) <==> sofar.contains(x) || x == tile by {
                        assert(all@[sofar.len() as int] == tile);
                        if sofar.contains(x) {
                            let j = choose|j: int| 0 <= j < sofar.len() && sofar[j] == x;
                            assert(all@[j] == x);
                        }
                        if all@.contains(x) && x != tile {
                            let j = choose|j: int| 0 <= j < all@.len() && all@[j] == x;
                            assert(sofar[j] == x);
                        }
                    }
                }
                k += 1;
            }
            assert(plan@[i as int].1@.take(k as int) =~= plan@[i as int].1@);
            i += 1;
        }
        assert(plan@.take(i as int) =~= plan@);
        let sorted = ascending_set(all);
        let mut ids: Vec<u32> = Vec::new();
        let mut j: usize = 0;
        while j < sorted.len()
            invariant
                j <= sorted@.len(),
                ids@.len() == j,
                forall|x: u128| #[trigger]
                    sorted@.contains(x) ==> x <= u32::MAX && is_planned(plan@, x as u32),
                forall|k: int| 0 <= k < j ==> #[trigger] ids@[k] == sorted@[k],
            decreases sorted@.len() - j,
        {
            assert(sorted@.contains(sorted@[j as int]));
            ids.push(sorted[j] as u32);
            j += 1;
        }
        if ids.len() == 0 {
            ids.push(FIRST_TILE);
            proof {
                assert forall|u: u32| !#[trigger] is_planned(plan@, u) by {
                    assert(!sorted@.contains(u as u128));
                }
                assert(ids@ =~= seq![FIRST_TILE]);
                assert(ids@[0] == FIRST_TILE);
                assert forall|t: u32| #[trigger] ids@.contains(t) <==> t == FIRST_TILE by {}
            }
        } else {
            proof {
                assert forall|t: u32| #[trigger] ids@.contains(t) <==> is_planned(plan@, t) by {
                    if ids@.contains(t) {
                        let k = choose|k: int| 0 <= k < ids@.len() && ids@[k] == t;
                        assert(sorted@.contains(sorted@[k]));
                    }
                    if is_planned(plan@, t) {
                        assert(sorted@.contains(t as u128));
                        let k = choose|k: int| 0 <= k < sorted@.len() && sorted@[k] == t as u128;
                        assert(ids@[k] == t);
                    }
                }
                assert(ids@.contains(ids@[0]));
                assert(is_planned(plan@, ids@[0]));
            }
        }
        self.udim_ids = ids;
    }

    /// Ends the unwrap: the maps and the stacks start anew on the tiles in use. Textures that are
    /// no longer used come back.
    pub fn finish_unwrap(
        &mut self,
        algo: &str,
        fresh_maps: Vec<Handle>,
        fresh_layers: Vec<Handle>,
    ) -> (freed: Vec<Handle>)
        requires
            old(self).is_sound(),
            fresh_maps@.len() == 3 * (old(self).tiles_wanted() - 1),
            fresh_layers@.len() == 4 * old(self).tiles_wanted(),
        ensures
            final(self).wf(),
            freed@ == old(self).extra_textures() + crate::maps::all_stack_textures(
                old(self).docs@,
            ),
            final(self).extra_albedo@ == old(self).dealt(fresh_maps@, 0),
            final(self).extra_mr@ == old(self).dealt(fresh_maps@, 1),
            final(self).extra_nrm@ == old(self).dealt(fresh_maps@, 2),
            forall|i: int|
                0 <= i < 4 ==> old(self).is_new_doc(
                    #[trigger] final(self).docs@[i],
                    crate::paint::PaintMap::ALL@[i],
                    crate::maps::hand(fresh_layers@, i, old(self).tiles_wanted()),
                ),
            final(self).status@ == "Unwrapped · "@ + algo@ + " · "@ + crate::text::decimal(
                old(self).udim_ids@.len(),
            ) + " UDIM"@,
            *final(self) == (Painter {
                docs: final(self).docs,
                extra_albedo: final(self).extra_albedo,
                extra_mr: final(self).extra_mr,
                extra_nrm: final(self).extra_nrm,
                needs_map_seed: true,
                status: final(self).status,
                uv: crate::painter::UvView { needs_fit: true, ..old(self).uv },
                ..*old(self)
            }),
    {
        let mut freed = self.rebuild_extra_maps(fresh_maps);
        let ghost mid = *self;
        assert(mid.tiles_wanted() == old(self).tiles_wanted());
        let more = self.reset_paint_docs(fresh_layers);
        proof {
            assert forall|i: int| 0 <= i < 4 implies old(self).is_new_doc(
                #[trigger] self.docs@[i],
                crate::paint::PaintMap::ALL@[i],
                crate::maps::hand(fresh_layers@, i, old(self).tiles_wanted()),
            ) by {
                let hand = crate::maps::hand(fresh_layers@, i, old(self).tiles_wanted());
                assert(mid.extra_tiles(hand) =~= old(self).extra_tiles(hand));
            }
        }
        crate::maps::push_all(&mut freed, more);
        let mut s = String::new();
        s.append("Unwrapped · ");
        s.append(algo);
        s.append(" · ");
        s.append(decimal_string(self.udim_ids.len() as u128).as_str());
        s.append(" UDIM");
        assert(s@ =~= "Unwrapped · "@ + algo@ + " · "@ + crate::text::decimal(
            self.udim_ids@.len(),
        ) + " UDIM"@);
        self.status = s;
        self.uv.needs_fit = true;
        freed
    }
}

/// A tile occurs in a plan.
pub open spec fn is_planned(plan: Seq<(Handle, Vec<u32>)>, tile: u32) -> bool {
    exists|i: int| 0 <= i < plan.len() && (#[trigger] plan[i]).1@.contains(tile)
}

proof fn lemma_planned_step(plan: Seq<(Handle, Vec<u32>)>, i: int)
    requires
        0 <= i < plan.len(),
    ensures
        forall|t: u32| #[trigger]
            is_planned(plan.take(i + 1), t) <==> is_planned(plan.take(i), t) || plan[i].1@.contains(
                t,
            ),
{
    let a = plan.take(i);
    let b = plan.take(i + 1);
    assert(b[i] == plan[i]);
    assert forall|t: u32| #[trigger] is_planned(b, t) <==> is_planned(a, t)
        || plan[i].1@.contains(t) by {
        if is_planned(a, t) {
            let k = choose|k: int| 0 <= k < a.len() && (#[trigger] a[k]).1@.contains(t);
            assert(b[k] == a[k]);
        }
        if is_planned(b, t) {
            let k = choose|k: int| 0 <= k < b.len() && (#[trigger] b[k]).1@.contains(t);
            if k < i {
                assert(a[k] == b[k]);
            }
        }
    }
}

/// Handles are ordered by index, then by generation.
pub open spec fn rank_of(h: Handle) -> int {
    h.index * 0x1_0000_0000 + h.generation
}

/// A material that is painted on: the painter's own, or that of a node that can be painted.
pub open spec fn is_painted_material(p: Painter, m: Handle) -> bool {
    m == p.paint_mat || exists|i: int|
        0 <= i < p.paintable@.len() && material_of(p.scene, #[trigger] p.paintable@[i]) == Some(m)
}

/// The material of a node.
pub open spec fn material_of(scene: Scene, node: Handle) -> Option<Handle> {
    match scene.node(node) {
        Some(n) => n.material,
        None => None,
    }
}

fn find_material(scene: &Scene, node: Handle) -> (m: Option<Handle>)
    ensures
        m == material_of(*scene, node),
{
    match scene.find_node(node) {
        Some(i) => scene.nodes[i].material,
        None => None,
    }
}

impl Painter {
    /// The materials that are painted on, in order and each once. They all show the paint maps.
    pub fn bind_targets(&self) -> (out: Vec<Handle>)
        ensures
            forall|i: int, j: int|
                0 <= i < j < out@.len() ==> rank_of(#[trigger] out@[i]) < rank_of(
                    #[trigger] out@[j],
                ),
            forall|m: Handle| #[trigger] out@.contains(m) <==> is_painted_material(*self, m),
    {
        let mut ranks: Vec<u128> = Vec::new();
        let own = self.paint_mat;
        ranks.push(own.index as u128 * 0x1_0000_0000 + own.generation as u128);
        let ghost mut found: Seq<Handle> = seq![own];
        let mut i: usize = 0;
        while i < self.paintable.len()
            invariant
                i <= self.paintable@.len(),
                found.len() == ranks@.len(),
                found.len() > 0,
                found[0] == self.paint_mat,
                forall|k: int| 0 <= k < ranks@.len() ==> #[trigger] ranks@[k] == rank_of(found[k]),
                forall|k: int|
                    0 <= k < found.len() ==> is_painted_material(*self, #[trigger] found[k]),
                forall|k: int|
                    0 <= k < i ==> match material_of(self.scene, #[trigger] self.paintable@[k]) {
                        Some(m) => found.contains(m),
                        None => true,
                    },
            decreases self.paintable@.len() - i,
        {
            match find_material(&self.scene, self.paintable[i]) {
                Some(m) => {
                    ranks.push(m.index as u128 * 0x1_0000_0000 + m.generation as u128);
                    proof {
                        let longer = found.push(m);
                        assert(longer[found.len() as int] == m);
                        assert forall|x: Handle| found.contains(x) implies longer.contains(x) by {
                            let k = choose|k: int| 0 <= k < found.len() && found[k] == x;
                            assert(longer[k] == x);
                        }
                        assert(material_of(self.scene, self.paintable@[i as int]) == Some(m));
                        found = longer;
                    }
                },
                None => {},
            }
            i += 1;
        }
        let ghost given = ranks@;
        let sorted = ascending_set(ranks);
        let mut out: Vec<Handle> = Vec::new();
        let mut j: usize = 0;
        while j < sorted.len()
            invariant
                j <= sorted@.len(),
                found.len() == given.len(),
                forall|k: int| 0 <= k < given.len() ==> #[trigger] given[k] == rank_of(found[k]),
                forall|x: u128| #[trigger] sorted@.contains(x) <==> given.contains(x),
                out@.len() == j,
                forall|k: int| 0 <= k < j ==> rank_of(#[trigger] out@[k]) == sorted@[k],
                forall|k: int| 0 <= k < j ==> found.contains(#[trigger] out@[k]),
            decreases sorted@.len() - j,
        {
            let x: u128 = sorted[j];
            proof {
                assert(sorted@.contains(x));
                assert(given.contains(x));
                let k = choose|k: int| 0 <= k < given.len() && given[k] == x;
                assert(given[k] == rank_of(found[k]));
                assert(x / 0x1_0000_0000 == found[k].index);
                assert(x % 0x1_0000_0000 == found[k].generation);
            }
            out.push(
                Handle {
                    index: (x / 0x1_0000_0000) as u32,
                    generation: (x % 0x1_0000_0000) as u32,
                },
            );
            j += 1;
        }
        proof {
            assert forall|m: Handle| #[trigger] out@.contains(m) <==> is_painted_material(
                *self,
                m,
            ) by {
                if out@.contains(m) {
                    let k = choose|k: int| 0 <= k < out@.len() && out@[k] == m;
                    assert(found.contains(out@[k]));
                    let q = choose|q: int| 0 <= q < found.len() && found[q] == m;
                    assert(is_painted_material(*self, found[q]));
                }
                if is_painted_material(*self, m) {
                    if m != self.paint_mat {
                        let k = choose|k: int|
                            0 <= k < self.paintable@.len() && material_of(
                                self.scene,
                                #[trigger] self.paintable@[k],
                            ) == Some(m);
                        assert(found.contains(m));
                    } else {
                        assert(found[0] == m);
                    }
                    let q = choose|q: int| 0 <= q < found.len() && found[q] == m;
                    assert(given[q] == rank_of(m));
                    assert(given.contains(given[q]));
                    assert(sorted@.contains(given[q]));
                    let k = choose|k: int| 0 <= k < sorted@.len() && sorted@[k] == given[q];
                    assert(rank_of(out@[k]) == rank_of(m));
                    assert(out@[k] == m);
                }
            }
        }
        out
    }

    /// Gives up the model that was loaded before. Its nodes come back, children before parents.
    pub fn drop_model(&mut self) -> (gone: Vec<Handle>)
        requires
            crate::scene::is_forest(crate::scene::links(old(self).scene.nodes@)),
        ensures
            final(self).model_root is None,
            *final(self) == (Painter {
                model_root: None,
                scene: final(self).scene,
                ..*old(self)
            }),
            match old(self).model_root {
                Some(root) => {
                    let order = crate::scene::subtree(
                        crate::scene::links(old(self).scene.nodes@),
                        root,
                    );
                    &&& gone@ == order.reverse()
                    &&& final(self).scene.meshes == old(self).scene.meshes
                    &&& final(self).scene.nodes@ == old(self).scene.nodes@.filter(
                        |n: Node| !order.contains(n.handle),
                    )
                },
                None => final(self).scene == old(self).scene && gone@.len() == 0,
            },
    {
        match self.model_root {
            Some(root) => {
                self.model_root = None;
                crate::scene::remove_subtree(&mut self.scene, root)
            },
            None => Vec::new(),
        }
    }
}

/// The nodes of a new model: those that show a mesh and have no material get the painter's own.
pub open spec fn with_material(nodes: Seq<Node>, group: Seq<Handle>, mat: Handle) -> Seq<Node> {
    nodes.map_values(
        |n: Node|
            if group.contains(n.handle) && n.material is None {
                Node { material: Some(mat), ..n }
            } else {
                n
            },
    )
}

/// The materials of the nodes, each once, in the order in which they first occur.
pub open spec fn distinct_materials(scene: Scene, nodes: Seq<Handle>) -> Seq<Handle>
    decreases nodes.len(),
{
    if nodes.len() == 0 {
        Seq::empty()
    } else {
        let before = distinct_materials(scene, nodes.drop_last());
        match material_of(scene, nodes.last()) {
            Some(m) => if before.contains(m) {
                before
            } else {
                before.push(m)
            },
            None => before,
        }
    }
}

/// What is left to do for a model that was taken in.
pub struct Intake {
    /// The nodes that show a mesh.
    pub nodes: Vec<Handle>,
    /// The materials of the model, which now show the paint maps.
    pub materials: Vec<Handle>,
    /// Textures that are no longer used.
    pub freed: Vec<Handle>,
}

impl Painter {
    /// Takes in a model below a node: painting starts anew on the first tile, and nodes without a
    /// material get the painter's own.
    pub fn adopt_model(&mut self, root: Handle, fresh: Vec<Handle>) -> (r: Intake)
        requires
            old(self).wf(),
            crate::scene::is_forest(crate::scene::links(old(self).scene.nodes@)),
            fresh@.len() == 4,
        ensures
            final(self).wf(),
            final(self).model_root == Some(root),
            final(self).udim_ids@ == seq![FIRST_TILE],
            final(self).extra_albedo@.len() == 0,
            final(self).extra_mr@.len() == 0,
            final(self).extra_nrm@.len() == 0,
            r.nodes@ == crate::scene::mesh_nodes(old(self).scene.nodes@, Some(root)),
            r.materials@ == distinct_materials(old(self).scene, r.nodes@),
            final(self).scene.nodes@ == with_material(
                old(self).scene.nodes@,
                r.nodes@,
                old(self).paint_mat,
            ),
            final(self).scene.meshes == old(self).scene.meshes,
            forall|i: int|
                0 <= i < 4 ==> final(self).is_new_doc(
                    #[trigger] final(self).docs@[i],
                    crate::paint::PaintMap::ALL@[i],
                    seq![fresh@[i]],
                ),
            final(self).needs_map_seed,
            r.freed@ == old(self).extra_textures() + crate::maps::all_stack_textures(
                old(self).docs@,
            ),
            *final(self) == (Painter {
                model_root: Some(root),
                udim_ids: final(self).udim_ids,
                extra_albedo: final(self).extra_albedo,
                extra_mr: final(self).extra_mr,
                extra_nrm: final(self).extra_nrm,
                scene: final(self).scene,
                docs: final(self).docs,
                needs_map_seed: true,
                ..*old(self)
            }),
    {
        self.model_root = Some(root);
        let mut freed = self.reset_udim();
        let nodes = collect_mesh_nodes(&self.scene, Some(root));
        let materials = self.materials_of(&nodes);
        let mat = self.paint_mat;
        let ghost start = self.scene.nodes@;
        let ghost meshes = self.scene.meshes;
        let ghost before = *self;
        let mut i: usize = 0;
        while i < self.scene.nodes.len()
            invariant
                i <= self.scene.nodes@.len(),
                self.scene.nodes@.len() == start.len(),
                self.scene.meshes == meshes,
                *self == (Painter { scene: self.scene, ..before }),
                forall|j: int|
                    0 <= j < i ==> #[trigger] self.scene.nodes@[j] == with_material(
                        start,
                        nodes@,
                        mat,
                    )[j],
                forall|j: int| i <= j < start.len() ==> #[trigger] self.scene.nodes@[j] == start[j],
            decreases self.scene.nodes@.len() - i,
        {
            let node = self.scene.nodes[i];
            if node.material.is_none() && contains_handle(&nodes, node.handle) {
                self.scene.nodes.set(i, Node { material: Some(mat), ..node });
            }
            i += 1;
        }
        assert(self.scene.nodes@ =~= with_material(start, nodes@, mat));
        let ghost mid = *self;
        let more = self.reset_paint_docs(fresh);
        proof {
            assert(mid.tiles_wanted() == 1);
            assert forall|i: int| 0 <= i < 4 implies self.is_new_doc(
                #[trigger] self.docs@[i],
                crate::paint::PaintMap::ALL@[i],
                seq![fresh@[i]],
            ) by {
                assert(crate::maps::hand(fresh@, i, 1) =~= seq![fresh@[i]]);
                assert(self.extra_tiles(seq![fresh@[i]]) =~= mid.extra_tiles(seq![fresh@[i]]));
            }
        }
        crate::maps::push_all(&mut freed, more);
        Intake { nodes, materials, freed }
    }

    fn materials_of(&self, nodes: &Vec<Handle>) -> (out: Vec<Handle>)
        ensures
            out@ == distinct_materials(self.scene, nodes@),
    {
        let mut out: Vec<Handle> = Vec::new();
        let mut i: usize = 0;
        assert(distinct_materials(self.scene, nodes@.take(0)) =~= Seq::empty());
        while i < nodes.len()
            invariant
                i <= nodes@.len(),
                out@ == distinct_materials(self.scene, nodes@.take(i as int)),
            decreases nodes@.len() - i,
        {
            assert(nodes@.take(i + 1).drop_last() =~= nodes@.take(i as int));
            match find_material(&self.scene, nodes[i]) {
                Some(m) => {
                    if !contains_handle(&out, m) {
                        out.push(m);
                    }
                },
                None => {},
            }
            i += 1;
        }
        assert(nodes@.take(i as int) =~= nodes@);
        out
    }
}

/// One of the sphere, the cube and the model is shown and can be painted, the one that was chosen;
/// the others are hidden, and every other node is as it was.
pub proof fn law_one_shape_is_shown(p: Painter, shape: usize, i: int)
    requires
        0 <= i < p.scene.nodes@.len(),
        p.sphere_node != p.cube_node,
    ensures
        ({
            let a = p.scene.nodes@[i];
            let b = shown_nodes(p, shape)[i];
            let model = match p.model_root {
                Some(root) => crate::scene::subtree(
                    crate::scene::links(p.scene.nodes@),
                    root,
                ).contains(a.handle),
                None => false,
            };
            &&& shown_nodes(p, shape).len() == p.scene.nodes@.len()
            &&& b.handle == a.handle && b.parent == a.parent && b.mesh == a.mesh
            &&& b.material == a.material
            &&& model ==> b.visible == (shape == 2)
            &&& !model && a.handle == p.sphere_node ==> b.visible == (shape == 0)
            &&& !model && a.handle == p.cube_node ==> b.visible == (shape == 1)
            &&& !model && a.handle != p.sphere_node && a.handle != p.cube_node ==> b.visible
                == a.visible
            &&& paintable_for(p, shown_nodes(p, shape), 0) == seq![p.sphere_node]
            &&& paintable_for(p, shown_nodes(p, shape), 1) == seq![p.cube_node]
        }),
{
    let nodes = p.scene.nodes@;
    let one = crate::scene::switched(nodes, set![p.sphere_node], shape == 0);
    crate::scene::law_visibility_moves_nothing(nodes, set![p.sphere_node], shape == 0);
    crate::scene::law_visibility_moves_nothing(one, set![p.cube_node], shape == 1);
}

/// A model that is shown can be painted on all of its nodes that show a mesh, and on no others.
pub proof fn law_the_model_is_painted_where_it_shows_a_mesh(
    p: Painter,
    nodes: Seq<Node>,
    shape: usize,
    root: Handle,
    h: Handle,
)
    requires
        shape >= 2,
        p.model_root == Some(root),
        crate::scene::is_listed(nodes, root),
    ensures
        paintable_for(p, nodes, shape).contains(h) <==> crate::scene::subtree(
            crate::scene::links(nodes),
            root,
        ).contains(h) && crate::scene::shows_mesh(nodes, h),
        p.model_root is None ==> paintable_for(p, nodes, shape).len() == 0,
{
    crate::scene::lemma_node_at(nodes, root);
    let all = crate::scene::subtree(crate::scene::links(nodes), root);
    let keep = |h: Handle| crate::scene::shows_mesh(nodes, h);
    broadcast use vstd::seq_lib::group_filter_ensures;

    let kept = all.filter(keep);
    assert(crate::scene::mesh_nodes(nodes, Some(root)) == kept);
    if all.contains(h) && keep(h) {
        let k = choose|k: int| 0 <= k < all.len() && all[k] == h;
        assert(kept.contains(all[k]));
    }
    if kept.contains(h) {
        let k = choose|k: int| 0 <= k < kept.len() && kept[k] == h;
        assert(keep(kept[k]));
        lemma_filtered(all, keep, h);
    }
}

/// The triangles of two lists of nodes are those of the first and of the second; a node has a
/// triangle for every three indices of the mesh that it shows, and none without a mesh.
pub proof fn law_triangles_add_up(scene: Scene, a: Seq<Handle>, b: Seq<Handle>, h: Handle)
    ensures
        tri_sum(scene, a + b) == tri_sum(scene, a) + tri_sum(scene, b),
        tri_sum(scene, seq![h]) == (match scene.shown(h) {
            Some(info) => info.index_count as int / 3,
            None => 0,
        }),
    decreases b.len(),
{
    reveal_with_fuel(tri_sum, 2);
    assert(seq![h].drop_last() =~= Seq::<Handle>::empty());
    if b.len() == 0 {
        assert(a + b =~= a);
    } else {
        law_triangles_add_up(scene, a, b.drop_last(), h);
        assert((a + b).drop_last() =~= a + b.drop_last());
        assert((a + b).last() == b.last());
    }
}

/// Every mesh that the nodes show is unwrapped once, with a tile for each of its faces, and no
/// other mesh is.
pub proof fn law_every_shown_mesh_is_planned_once(
    plan: Seq<(Handle, Vec<u32>)>,
    seg: Segmentation,
    scene: Scene,
    nodes: Seq<Handle>,
    i: int,
    j: int,
    k: int,
)
    requires
        is_plan(plan, seg, scene, nodes),
    ensures
        0 <= i < plan.len() && 0 <= j < plan.len() && plan[i].0 == plan[j].0 ==> i == j,
        0 <= i < plan.len() ==> plan[i].1@.len() == crate::segment::tri_count(scene, plan[i].0),
        0 <= i < plan.len() ==> exists|n: int|
            0 <= n < nodes.len() && scene.shown(#[trigger] nodes[n]) is Some && scene.shown(
                nodes[n],
            )->0.handle == plan[i].0,
        0 <= k < nodes.len() && scene.shown(nodes[k]) is Some ==> exists|n: int|
            0 <= n < plan.len() && (#[trigger] plan[n]).0 == scene.shown(nodes[k])->0.handle,
{
    lemma_distinct_meshes(scene, nodes);
    let meshes = distinct_meshes(scene, nodes);
    if 0 <= i < plan.len() {
        assert(plan[i].0 == meshes[i]);
        assert(meshes.contains(meshes[i]));
        let n = choose|n: int|
            0 <= n < nodes.len() && crate::segment::shows(scene, #[trigger] nodes[n], meshes[i]);
        assert(scene.shown(nodes[n]) is Some);
    }
    if 0 <= j < plan.len() {
        assert(plan[j].0 == meshes[j]);
    }
    if 0 <= k < nodes.len() && scene.shown(nodes[k]) is Some {
        let h = scene.shown(nodes[k])->0.handle;
        assert(crate::segment::shows(scene, nodes[k], h));
        assert(meshes.contains(h));
        let n = choose|n: int| 0 <= n < meshes.len() && meshes[n] == h;
        assert(plan[n].0 == h);
    }
}

/// A node of a new model that shows a mesh has a material after it was taken in: its own, or the
/// painter's where it had none. No other node changes.
pub proof fn law_new_nodes_have_a_material(
    nodes: Seq<Node>,
    group: Seq<Handle>,
    mat: Handle,
    i: int,
)
    requires
        0 <= i < nodes.len(),
    ensures
        ({
            let a = nodes[i];
            let b = with_material(nodes, group, mat)[i];
            &&& with_material(nodes, group, mat).len() == nodes.len()
            &&& b.handle == a.handle && b.parent == a.parent && b.mesh == a.mesh && b.visible
                == a.visible
            &&& a.material is Some ==> b.material == a.material
            &&& a.material is None && group.contains(a.handle) ==> b.material == Some(mat)
            &&& !group.contains(a.handle) ==> b.material == a.material
        }),
{
}

/// The materials of the nodes are each named once, and no others are.
pub proof fn law_materials_are_named_once(scene: Scene, nodes: Seq<Handle>, m: Handle)
    ensures
        distinct_materials(scene, nodes).no_duplicates(),
        distinct_materials(scene, nodes).contains(m) <==> exists|i: int|
            0 <= i < nodes.len() && material_of(scene, #[trigger] nodes[i]) == Some(m),
    decreases nodes.len(),
{
    if nodes.len() > 0 {
        let rest = nodes.drop_last();
        let n = nodes.len() - 1;
        law_materials_are_named_once(scene, rest, m);
        let before = distinct_materials(scene, rest);
        let now = distinct_materials(scene, nodes);
        if before.contains(m) {
            let k = choose|k: int| 0 <= k < before.len() && before[k] == m;
            assert(now[k] == m);
            let i = choose|i: int|
                0 <= i < rest.len() && material_of(scene, #[trigger] rest[i]) == Some(m);
            assert(nodes[i] == rest[i]);
        }
        if material_of(scene, nodes[n]) == Some(m) && !before.contains(m) {
            assert(now[before.len() as int] == m);
        }
        if exists|i: int|
            0 <= i < nodes.len() && material_of(scene, #[trigger] nodes[i]) == Some(m) {
            let i = choose|i: int|
                0 <= i < nodes.len() && material_of(scene, #[trigger] nodes[i]) == Some(m);
            if i < n {
                assert(rest[i] == nodes[i]);
            }
        }
        if now.contains(m) && !before.contains(m) {
            let k = choose|k: int| 0 <= k < now.len() && now[k] == m;
            if k < before.len() {
                assert(before[k] == m);
            }
            assert(material_of(scene, nodes[n]) == Some(m));
        }
    }
}

proof fn lemma_filtered(s: Seq<Handle>, keep: spec_fn(Handle) -> bool, h: Handle)
    requires
        s.filter(keep).contains(h),
    ensures
        s.contains(h),
    decreases s.len(),
{
    reveal(Seq::filter);
    let all = s.filter(keep);
    let k = choose|k: int| 0 <= k < all.len() && all[k] == h;
    if s.len() > 0 {
        let rest = s.drop_last();
        if k < rest.filter(keep).len() {
            assert(rest.filter(keep)[k] == h);
            lemma_filtered(rest, keep, h);
            let j = choose|j: int| 0 <= j < rest.len() && rest[j] == h;
            assert(s[j] == h);
        } else {
            assert(s[s.len() - 1] == h);
        }
    }
}

/// Materials are ordered by their slots first, and in the same slot by their generations; different
/// ones never count as equal.
pub proof fn law_materials_go_by_slot(a: Handle, b: Handle)
    ensures
        a.index < b.index ==> rank_of(a) < rank_of(b),
        a.index == b.index && a.generation < b.generation ==> rank_of(a) < rank_of(b),
        rank_of(a) == rank_of(b) <==> a == b,
{
}

} // verus!
