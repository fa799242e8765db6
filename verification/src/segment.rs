//! Segments: named groups of mesh faces. Every face has one label, so a face is in at most one
//! segment.

use std::collections::{HashMap, HashSet};

use vstd::prelude::*;
use vstd::set_lib::lemma_len_subset;
use vstd::set_lib::lemma_map_size;

use crate::bits::Rgba;
use crate::scene::{Handle, Scene};
use crate::tables::{keys_of, members};
use crate::text::numbered;

verus! {

broadcast use vstd::std_specs::hash::group_hash_axioms;

pub type SegmentId = u16;

/// Label of a face that is in no segment.
pub const UNASSIGNED: SegmentId = 0;

/// What the pointer does in the viewport.
#[derive(Clone, Copy, Debug, PartialEq, Eq, Structural)]
pub enum AppMode {
    Paint,
    Segment,
}

impl Default for AppMode {
    fn default() -> (m: Self)
        ensures
            m == AppMode::Paint,
    {
        AppMode::Paint
    }
}

impl AppMode {
    /// Name on the mode switch.
    pub open spec fn text(self) -> Seq<char> {
        match self {
            AppMode::Paint => "Paint"@,
            AppMode::Segment => "Segment"@,
        }
    }

    /// The modes in the order of the mode switch.
    pub const ALL: [AppMode; 2] = [AppMode::Paint, AppMode::Segment];

    /// Name on the mode switch.
    pub fn label(self) -> (s: &'static str)
        ensures
            s@ == self.text(),
    {
        match self {
            AppMode::Paint => "Paint",
            AppMode::Segment => "Segment",
        }
    }
}

/// How faces are picked in segment mode.
#[derive(Clone, Copy, Debug, PartialEq, Eq, Structural)]
pub enum SegTool {
    Click,
    Brush,
    Rect,
}

impl Default for SegTool {
    fn default() -> (t: Self)
        ensures
            t == SegTool::Click,
    {
        SegTool::Click
    }
}

impl SegTool {
    /// Name on the tool switch.
    pub open spec fn text(self) -> Seq<char> {
        match self {
            SegTool::Click => "Click"@,
            SegTool::Brush => "Brush"@,
            SegTool::Rect => "Rect"@,
        }
    }

    /// The tools in the order of the tool switch.
    pub const ALL: [SegTool; 3] = [SegTool::Click, SegTool::Brush, SegTool::Rect];

    /// Name on the tool switch.
    pub fn label(self) -> (s: &'static str)
        ensures
            s@ == self.text(),
    {
        match self {
            SegTool::Click => "Click",
            SegTool::Brush => "Brush",
            SegTool::Rect => "Rect",
        }
    }
}

/// What happens to the picked faces.
#[derive(Clone, Copy, Debug, PartialEq, Eq, Structural)]
pub enum SegOp {
    Select,
    Deselect,
}

impl Default for SegOp {
    fn default() -> (o: Self)
        ensures
            o == SegOp::Select,
    {
        SegOp::Select
    }
}

impl SegOp {
    /// Name on the action switch.
    pub open spec fn text(self) -> Seq<char> {
        match self {
            SegOp::Select => "Select"@,
            SegOp::Deselect => "Deselect"@,
        }
    }

    /// The actions in the order of the action switch.
    pub const ALL: [SegOp; 2] = [SegOp::Select, SegOp::Deselect];

    /// Name on the action switch.
    pub fn label(self) -> (s: &'static str)
        ensures
            s@ == self.text(),
    {
        match self {
            SegOp::Select => "Select",
            SegOp::Deselect => "Deselect",
        }
    }
}

/// The colour of the `n`th segment; eight colours in turn.
pub open spec fn palette(n: nat) -> Rgba {
    seq![
        Rgba { r: 0x3f6b_851f, g: 0x3e80_0000, b: 0x3e61_47ae, a: 0x3f00_0000 },
        Rgba { r: 0x3e61_47ae, g: 0x3f42_8f5c, b: 0x3eae_147b, a: 0x3f00_0000 },
        Rgba { r: 0x3e75_c28f, g: 0x3ef5_c28f, b: 0x3f73_3333, a: 0x3f00_0000 },
        Rgba { r: 0x3f73_3333, g: 0x3f47_ae14, b: 0x3e38_51ec, a: 0x3f00_0000 },
        Rgba { r: 0x3f5c_28f6, g: 0x3e8f_5c29, b: 0x3f47_ae14, a: 0x3f00_0000 },
        Rgba { r: 0x3e38_51ec, g: 0x3f51_eb85, b: 0x3f51_eb85, a: 0x3f00_0000 },
        Rgba { r: 0x3f73_3333, g: 0x3f05_1eb8, b: 0x3e23_d70a, a: 0x3f00_0000 },
        Rgba { r: 0x3f14_7ae1, g: 0x3ec2_8f5c, b: 0x3f6b_851f, a: 0x3f00_0000 },
    ][(n % 8) as int]
}

fn palette_color(n: usize) -> (c: Rgba)
    ensures
        c == palette(n as nat),
{
    match n % 8 {
        0 => Rgba { r: 0x3f6b_851f, g: 0x3e80_0000, b: 0x3e61_47ae, a: 0x3f00_0000 },
        1 => Rgba { r: 0x3e61_47ae, g: 0x3f42_8f5c, b: 0x3eae_147b, a: 0x3f00_0000 },
        2 => Rgba { r: 0x3e75_c28f, g: 0x3ef5_c28f, b: 0x3f73_3333, a: 0x3f00_0000 },
        3 => Rgba { r: 0x3f73_3333, g: 0x3f47_ae14, b: 0x3e38_51ec, a: 0x3f00_0000 },
        4 => Rgba { r: 0x3f5c_28f6, g: 0x3e8f_5c29, b: 0x3f47_ae14, a: 0x3f00_0000 },
        5 => Rgba { r: 0x3e38_51ec, g: 0x3f51_eb85, b: 0x3f51_eb85, a: 0x3f00_0000 },
        6 => Rgba { r: 0x3f73_3333, g: 0x3f05_1eb8, b: 0x3e23_d70a, a: 0x3f00_0000 },
        _ => Rgba { r: 0x3f14_7ae1, g: 0x3ec2_8f5c, b: 0x3f6b_851f, a: 0x3f00_0000 },
    }
}

/// A named group of faces.
pub struct Segment {
    pub id: SegmentId,
    pub name: String,
    pub color: Rgba,
}

impl Clone for Segment {
    fn clone(&self) -> (s: Self)
        ensures
            s.id == self.id,
            s.name@ == self.name@,
            s.color == self.color,
    {
        Segment { id: self.id, name: self.name.clone(), color: self.color }
    }
}

struct MeshSeg {
    mesh: Handle,
    labels: Vec<SegmentId>,
}

/// The labels of the faces of several meshes: for each mesh one label per face.
pub type LabelMap = Map<Handle, Seq<SegmentId>>;

/// The label of a face; a face that does not exist has none.
pub open spec fn label_in(m: LabelMap, mesh: Handle, tri: int) -> SegmentId {
    if m.contains_key(mesh) && 0 <= tri < m[mesh].len() {
        m[mesh][tri]
    } else {
        UNASSIGNED
    }
}

/// All faces.
pub open spec fn all_faces(m: LabelMap) -> Set<(Handle, int)> {
    Set::new(|f: (Handle, int)| m.contains_key(f.0) && 0 <= f.1 < m[f.0].len())
}

/// The faces with a given label.
pub open spec fn faces_in(m: LabelMap, id: SegmentId) -> Set<(Handle, int)> {
    Set::new(
        |f: (Handle, int)| m.contains_key(f.0) && 0 <= f.1 < m[f.0].len() && m[f.0][f.1] == id,
    )
}

/// The labels after one face has been given the label `id`. A face that does not exist is
/// ignored.
pub open spec fn relabelled(m: LabelMap, mesh: Handle, tri: int, id: SegmentId) -> LabelMap {
    if m.contains_key(mesh) && 0 <= tri < m[mesh].len() {
        m.insert(mesh, m[mesh].update(tri, id))
    } else {
        m
    }
}

/// The labels after all faces of a list have been given the label `id`.
pub open spec fn painted(m: LabelMap, faces: Seq<(Handle, u32)>, id: SegmentId) -> LabelMap {
    m.map_entries(
        |h: Handle, s: Seq<SegmentId>|
            Seq::new(
                s.len(),
                |t: int|
                    if t <= u32::MAX && faces.contains((h, t as u32)) {
                        id
                    } else {
                        s[t]
                    },
            ),
    )
}

/// The labels after the faces of segment `id` have been given back.
pub open spec fn without_segment(m: LabelMap, id: SegmentId) -> LabelMap {
    m.map_entries(
        |h: Handle, s: Seq<SegmentId>|
            s.map_values(
                |l: SegmentId|
                    if l == id {
                        UNASSIGNED
                    } else {
                        l
                    },
            ),
    )
}

/// Whether one of the nodes shows the mesh.
pub open spec fn is_shown(scene: Scene, nodes: Seq<Handle>, mesh: Handle) -> bool {
    exists|i: int| 0 <= i < nodes.len() && shows(scene, #[trigger] nodes[i], mesh)
}

/// Whether the node shows the mesh.
pub open spec fn shows(scene: Scene, node: Handle, mesh: Handle) -> bool {
    match scene.shown(node) {
        Some(info) => info.handle == mesh,
        None => false,
    }
}

/// Number of faces of a mesh of the scene.
pub open spec fn tri_count(scene: Scene, mesh: Handle) -> nat {
    match scene.mesh(mesh) {
        Some(info) => info.index_count as nat / 3,
        None => 0,
    }
}

/// The labels of a mesh with `n` faces: those it has, if their number fits, else none assigned.
pub open spec fn fitted(m: LabelMap, mesh: Handle, n: nat) -> Seq<SegmentId> {
    if m.contains_key(mesh) && m[mesh].len() == n {
        m[mesh]
    } else {
        Seq::new(n, |t: int| UNASSIGNED)
    }
}

/// The labels for exactly the meshes that the nodes show.
pub open spec fn synced(m: LabelMap, scene: Scene, nodes: Seq<Handle>) -> LabelMap {
    Map::new(
        |h: Handle| is_shown(scene, nodes, h),
        |h: Handle| fitted(m, h, tri_count(scene, h)),
    )
}

/// The code of a face whose mesh has code `key`.
spec fn face_code(key: int, tri: int) -> int {
    key * 0x1_0000_0000 + tri
}

/// The label of the face with code `f`.
spec fn code_label(meshes: Map<u64, MeshSeg>, f: u128) -> SegmentId {
    let key = (f as int / 0x1_0000_0000) as u64;
    let tri = f as int % 0x1_0000_0000;
    if f as int / 0x1_0000_0000 <= u64::MAX && meshes.contains_key(key) && tri
        < meshes[key].labels@.len() {
        meshes[key].labels@[tri]
    } else {
        UNASSIGNED
    }
}

/// The faces of a set of codes that have a given label.
spec fn codes_with(meshes: Map<u64, MeshSeg>, codes: Set<u128>, id: SegmentId) -> Set<u128> {
    codes.filter(|f: u128| code_label(meshes, f) == id)
}

/// The count that is kept for a label.
spec fn counted(counts: Map<SegmentId, usize>, id: SegmentId) -> nat {
    if counts.contains_key(id) {
        counts[id] as nat
    } else {
        0
    }
}

/// Every mesh is filed under its own code, and faces past the reach of a `u32` have no label.
spec fn filed(meshes: Map<u64, MeshSeg>) -> bool {
    &&& forall|k: u64| #[trigger] meshes.contains_key(k) ==> meshes[k].mesh.code() == k
    &&& forall|k: u64, t: int|
        meshes.contains_key(k) && 0x1_0000_0000 <= t < meshes[k].labels@.len()
            ==> #[trigger] meshes[k].labels@[t] == UNASSIGNED
}

/// `assigned` holds the codes of the faces that have a label.
spec fn indexed(meshes: Map<u64, MeshSeg>, assigned: Set<u128>) -> bool {
    &&& assigned.finite()
    &&& forall|f: u128| #[trigger] assigned.contains(f) <==> code_label(meshes, f) != UNASSIGNED
}

/// The counts are those of the labelled faces.
spec fn tallied(
    meshes: Map<u64, MeshSeg>,
    assigned: Set<u128>,
    counts: Map<SegmentId, usize>,
) -> bool {
    &&& !counts.contains_key(UNASSIGNED)
    &&& forall|id: SegmentId|
        id != UNASSIGNED ==> #[trigger] counted(counts, id) == codes_with(
            meshes,
            assigned,
            id,
        ).len()
}

/// The labels of the faces of the meshes that can be painted, with an index over the labelled
/// ones.
pub struct FaceTable {
    meshes: HashMap<u64, MeshSeg>,
    assigned: HashSet<u128>,
    counts: HashMap<SegmentId, usize>,
}

/// The segments and the labels of the faces.
pub struct Segmentation {
    pub segments: Vec<Segment>,
    pub active: Option<SegmentId>,
    pub next_id: SegmentId,
    pub faces: FaceTable,
    /// How many segments were ever added.
    pub added: Ghost<nat>,
}

/// The face that a code stands for.
spec fn decoded(f: u128) -> (Handle, int) {
    (Handle::from_code(f as int / 0x1_0000_0000), f as int % 0x1_0000_0000)
}

/// The labels that are filed in a table.
spec fn label_map(meshes: Map<u64, MeshSeg>) -> LabelMap {
    Map::new(
        |h: Handle| meshes.contains_key(h.code() as u64),
        |h: Handle| meshes[h.code() as u64].labels@,
    )
}

impl FaceTable {
    /// The labels of the faces.
    pub closed spec fn labels(&self) -> LabelMap {
        label_map(self.meshes@)
    }

    /// The invariant: the index over the labelled faces and the counts agree with the labels.
    pub closed spec fn wf(&self) -> bool {
        &&& filed(self.meshes@)
        &&& indexed(self.meshes@, self.assigned@)
        &&& tallied(self.meshes@, self.assigned@, self.counts@)
    }
}

impl Segmentation {
    /// The labels of the faces.
    pub open spec fn labels(&self) -> LabelMap {
        self.faces.labels()
    }

    /// The invariant.
    pub open spec fn wf(&self) -> bool {
        &&& self.faces.wf()
        &&& self.next_id == id_of(self.added@ + 1)
        &&& ids_given_out(self.segments@, self.added@)
    }
}

/// The id of the segment that is added as number `k`: `k` itself, until the ids are used up; from
/// then on the last id.
pub open spec fn id_of(k: nat) -> SegmentId {
    if k < SegmentId::MAX {
        k as SegmentId
    } else {
        SegmentId::MAX
    }
}

/// Every segment has an id that was given out.
pub open spec fn ids_given_out(segments: Seq<Segment>, added: nat) -> bool {
    forall|i: int| 0 <= i < segments.len() ==> 0 < (#[trigger] segments[i]).id <= added
}

impl Default for Segmentation {
    /// One empty segment, which is active, and no faces.
    fn default() -> (s: Self)
        ensures
            s.wf(),
            s.labels() == Map::<Handle, Seq<SegmentId>>::empty(),
            s.segments@.len() == 1,
            s.segments@[0].id == 1,
            s.segments@[0].name@ == "Segment "@ + crate::text::decimal(1),
            s.segments@[0].color == palette(0),
            s.active == Some(1u16),
            s.next_id == 2,
            s.added@ == 1,
    {
        let mut s = Segmentation {
            segments: Vec::new(),
            active: None,
            next_id: 1,
            faces: FaceTable {
                meshes: HashMap::new(),
                assigned: HashSet::new(),
                counts: HashMap::new(),
            },
            added: Ghost(0),
        };
        proof {
            assert forall|id: SegmentId| id != UNASSIGNED implies #[trigger] counted(s.faces.counts@, id)
                == codes_with(s.faces.meshes@, s.faces.assigned@, id).len() by {
                assert(codes_with(s.faces.meshes@, s.faces.assigned@, id) =~= Set::empty());
            }
        }
        s.add_segment();
        s
    }
}

impl Segmentation {
    /// Adds an empty segment and makes it the active one. It gets the next free id; when the ids
    /// are used up, it shares the last one.
    pub fn add_segment(&mut self) -> (id: SegmentId)
        requires
            old(self).wf(),
        ensures
            final(self).wf(),
            final(self).faces == old(self).faces,
            id == old(self).next_id,
            final(self).next_id == if id == SegmentId::MAX {
                id as int
            } else {
                id + 1
            },
            final(self).added@ == old(self).added@ + 1,
            final(self).active == Some(id),
            final(self).segments@.len() == old(self).segments@.len() + 1,
            final(self).segments@.drop_last() == old(self).segments@,
            final(self).segments@.last().id == id,
            final(self).segments@.last().name@ == "Segment "@ + crate::text::decimal(
                old(self).segments@.len() + 1,
            ),
            final(self).segments@.last().color == palette(old(self).segments@.len()),
    {
        let id: SegmentId = self.next_id;
        self.next_id = if id == SegmentId::MAX {
            id
        } else {
            id + 1
        };
        self.added = Ghost(self.added@ + 1);
        let n: usize = self.segments.len();
        self.segments.push(
            Segment { id, name: numbered("Segment ", n as u128 + 1), color: palette_color(n) },
        );
        self.active = Some(id);
        proof {
            assert(self.segments@.drop_last() =~= old(self).segments@);
        }
        id
    }

    /// The colour of the first segment with a given id.
    pub fn color_of(&self, id: SegmentId) -> (c: Option<Rgba>)
        ensures
            c == color_in(self.segments@, id),
    {
        let mut i: usize = 0;
        proof {
            assert(self.segments@.skip(0) =~= self.segments@);
        }
        while i < self.segments.len()
            invariant
                i <= self.segments.len(),
                color_in(self.segments@, id) == color_in(self.segments@.skip(i as int), id),
            decreases self.segments.len() - i,
        {
            let ghost rest = self.segments@.skip(i as int);
            proof {
                assert(rest.drop_first() =~= self.segments@.skip(i + 1));
            }
            if self.segments[i].id == id {
                return Some(self.segments[i].color);
            }
            i += 1;
        }
        None
    }

    /// The label of a face.
    pub fn label_of(&self, mesh: Handle, tri: u32) -> (id: SegmentId)
        ensures
            id == label_in(self.labels(), mesh, tri as int),
    {
        match self.faces.meshes.get(&mesh.packed()) {
            Some(ms) => if (tri as usize) < ms.labels.len() {
                ms.labels[tri as usize]
            } else {
                UNASSIGNED
            },
            None => UNASSIGNED,
        }
    }
}

/// The colour of the first segment of a list with a given id.
pub open spec fn color_in(segments: Seq<Segment>, id: SegmentId) -> Option<Rgba>
    decreases segments.len(),
{
    if segments.len() == 0 {
        None
    } else if segments[0].id == id {
        Some(segments[0].color)
    } else {
        color_in(segments.drop_first(), id)
    }
}

/// Codes are unique.
proof fn lemma_code(key: int, tri: int)
    requires
        0 <= tri < 0x1_0000_0000,
    ensures
        face_code(key, tri) / 0x1_0000_0000 == key,
        face_code(key, tri) % 0x1_0000_0000 == tri,
{
}

/// A handle is found under its code.
proof fn lemma_handle_code(h: Handle)
    ensures
        0 <= h.code() <= u64::MAX,
        Handle::from_code(h.code()) == h,
{
    assert(h.generation * 0x1_0000_0000 <= 0xffff_ffff * 0x1_0000_0000) by (nonlinear_arith)
        requires
            0 <= h.generation <= 0xffff_ffff,
    ;
}

/// When one face changes its label, it leaves the group of the old label and joins that of the
/// new one, and no other group changes.
proof fn lemma_moved(
    m0: Map<u64, MeshSeg>,
    m1: Map<u64, MeshSeg>,
    a0: Set<u128>,
    a1: Set<u128>,
    code: u128,
    id: SegmentId,
)
    requires
        indexed(m0, a0),
        code_label(m0, code) != id,
        a1 == if id == UNASSIGNED {
            a0.remove(code)
        } else {
            a0.insert(code)
        },
        forall|f: u128| #[trigger]
            code_label(m1, f) == if f == code {
                id
            } else {
                code_label(m0, f)
            },
    ensures
        indexed(m1, a1),
        forall|x: SegmentId|
            x != UNASSIGNED ==> #[trigger] codes_with(m1, a1, x).len() == codes_with(
                m0,
                a0,
                x,
            ).len() + (if x == id {
                1int
            } else {
                0
            }) - (if x == code_label(m0, code) {
                1int
            } else {
                0
            }),
        codes_with(m1, a1, id).len() <= a1.len(),
{
    assert forall|x: SegmentId| x != UNASSIGNED implies #[trigger] codes_with(m1, a1, x).len()
        == codes_with(m0, a0, x).len() + (if x == id {
        1int
    } else {
        0
    }) - (if x == code_label(m0, code) {
        1int
    } else {
        0
    }) by {
        let before = codes_with(m0, a0, x);
        let after = codes_with(m1, a1, x);
        if x == id {
            assert(after =~= before.insert(code));
        } else if x == code_label(m0, code) {
            assert(after =~= before.remove(code));
        } else {
            assert(after =~= before);
        }
    }
    lemma_len_subset(codes_with(m1, a1, id), a1);
}

impl FaceTable {
    /// Gives a face a label; a face that does not exist is ignored.
    fn assign(&mut self, mesh: Handle, tri: u32, id: SegmentId)
        requires
            old(self).wf(),
        ensures
            final(self).wf(),
            final(self).labels() == relabelled(old(self).labels(), mesh, tri as int, id),
    {
        let key: u64 = mesh.packed();
        let at: usize = tri as usize;
        match self.meshes.remove(&key) {
            None => {
                proof {
                    assert(self.meshes@ =~= old(self).meshes@);
                }
            },
            Some(found) => {
                let mut ms = found;
                if at >= ms.labels.len() || ms.labels[at] == id {
                    self.meshes.insert(key, ms);
                    proof {
                        assert(self.meshes@ =~= old(self).meshes@);
                        let m = old(self).labels();
                        if at < ms.labels.len() {
                            assert(m[mesh].update(tri as int, id) =~= m[mesh]);
                        }
                        assert(relabelled(m, mesh, tri as int, id) =~= m);
                    }
                    return ;
                }
                let before: SegmentId = ms.labels[at];
                ms.labels.set(at, id);
                self.meshes.insert(key, ms);
                let code: u128 = key as u128 * 0x1_0000_0000 + tri as u128;
                proof {
                    let m0 = old(self).meshes@;
                    let m1 = self.meshes@;
                    lemma_code(key as int, tri as int);
                    assert forall|f: u128| #[trigger]
                        code_label(m1, f) == if f == code {
                            id
                        } else {
                            code_label(m0, f)
                        } by {}
                    assert forall|h: Handle|
                        h.code() as u64 == key implies h == mesh by {
                        lemma_handle_code(h);
                    }
                    assert(label_map(m1) =~= relabelled(
                        label_map(m0),
                        mesh,
                        tri as int,
                        id,
                    ));
                }
                if before != UNASSIGNED {
                    match self.counts.get(&before) {
                        Some(c) => {
                            let rest: usize = c.saturating_sub(1);
                            self.counts.insert(before, rest);
                        },
                        None => {},
                    }
                }
                if id == UNASSIGNED {
                    self.assigned.remove(&code);
                    proof {
                        lemma_moved(
                            old(self).meshes@,
                            self.meshes@,
                            old(self).assigned@,
                            self.assigned@,
                            code,
                            id,
                        );
                    }
                } else {
                    self.assigned.insert(code);
                    let all: usize = self.assigned.len();
                    let count: usize = match self.counts.get(&id) {
                        Some(c) => *c,
                        None => 0,
                    };
                    proof {
                        lemma_moved(
                            old(self).meshes@,
                            self.meshes@,
                            old(self).assigned@,
                            self.assigned@,
                            code,
                            id,
                        );
                        assert(codes_with(self.meshes@, self.assigned@, id).len() == counted(
                            old(self).counts@,
                            id,
                        ) + 1);
                    }
                    self.counts.insert(id, count + 1);
                }
                proof {
                    assert forall|x: SegmentId| x != UNASSIGNED implies #[trigger] counted(
                        self.counts@,
                        x,
                    ) == codes_with(self.meshes@, self.assigned@, x).len() by {
                        assert(counted(old(self).counts@, x) == codes_with(
                            old(self).meshes@,
                            old(self).assigned@,
                            x,
                        ).len());
                    }
                }
            },
        }
    }
}

/// The list of faces that `painted` speaks of can be worked off one by one.
proof fn lemma_painted_step(
    m: LabelMap,
    faces: Seq<(Handle, u32)>,
    next: (Handle, u32),
    id: SegmentId,
)
    ensures
        relabelled(painted(m, faces, id), next.0, next.1 as int, id) == painted(
            m,
            faces.push(next),
            id,
        ),
{
    let before = painted(m, faces, id);
    let after = painted(m, faces.push(next), id);
    let step = relabelled(before, next.0, next.1 as int, id);
    let longer = faces.push(next);
    assert(longer[faces.len() as int] == next);
    assert forall|f: (Handle, u32)| longer.contains(f) == (faces.contains(f) || f == next) by {
        if faces.contains(f) {
            let k = choose|k: int| 0 <= k < faces.len() && faces[k] == f;
            assert(longer[k] == f);
        }
    }
    assert(step.dom() =~= after.dom());
    assert forall|h: Handle| step.contains_key(h) implies step[h] == after[h] by {
        assert(step[h] =~= after[h]);
    }
    assert(step =~= after);
}

/// The code of a labelled face, taken apart.
proof fn lemma_labelled_code(meshes: Map<u64, MeshSeg>, f: u128)
    requires
        filed(meshes),
        code_label(meshes, f) != UNASSIGNED,
    ensures
        f as int / 0x1_0000_0000 <= u64::MAX,
        meshes.contains_key((f as int / 0x1_0000_0000) as u64),
        meshes[(f as int / 0x1_0000_0000) as u64].mesh == decoded(f).0,
        decoded(f).0.code() == f as int / 0x1_0000_0000,
        face_code(decoded(f).0.code(), decoded(f).1) == f,
        label_in(label_map(meshes), decoded(f).0, decoded(f).1) == code_label(meshes, f),
{
    let key = (f as int / 0x1_0000_0000) as u64;
    lemma_handle_code(meshes[key].mesh);
}

/// A labelled face has a code.
proof fn lemma_labelled_face(meshes: Map<u64, MeshSeg>, h: Handle, tri: int)
    requires
        filed(meshes),
        label_in(label_map(meshes), h, tri) != UNASSIGNED,
    ensures
        0 <= tri < 0x1_0000_0000,
        0 <= face_code(h.code(), tri) <= u128::MAX,
        decoded(face_code(h.code(), tri) as u128) == (h, tri),
        code_label(meshes, face_code(h.code(), tri) as u128) == label_in(
            label_map(meshes),
            h,
            tri,
        ),
{
    lemma_handle_code(h);
    let key = h.code() as u64;
    assert(meshes.contains_key(key));
    assert(tri < 0x1_0000_0000) by {
        if tri >= 0x1_0000_0000 {
            assert(meshes[key].labels@[tri] == UNASSIGNED);
        }
    }
    lemma_code(h.code(), tri);
}

/// A count is the number of faces with that label.
proof fn lemma_count(meshes: Map<u64, MeshSeg>, assigned: Set<u128>, id: SegmentId)
    requires
        filed(meshes),
        indexed(meshes, assigned),
        id != UNASSIGNED,
    ensures
        faces_in(label_map(meshes), id).finite(),
        codes_with(meshes, assigned, id).len() == faces_in(label_map(meshes), id).len(),
{
    let codes = codes_with(meshes, assigned, id);
    let faces = faces_in(label_map(meshes), id);
    let f = |c: u128| decoded(c);
    assert forall|c1: u128, c2: u128|
        codes.contains(c1) && codes.contains(c2) && #[trigger] f(c1) == #[trigger] f(
            c2,
        ) implies c1 == c2 by {
        lemma_labelled_code(meshes, c1);
        lemma_labelled_code(meshes, c2);
    }
    assert forall|x: (Handle, int)| faces.contains(x) implies codes.map(f).contains(x) by {
        lemma_labelled_face(meshes, x.0, x.1);
        let c = face_code(x.0.code(), x.1) as u128;
        assert(assigned.contains(c));
        assert(codes.contains(c) && f(c) == x);
    }
    assert forall|x: (Handle, int)| codes.map(f).contains(x) implies faces.contains(x) by {
        let c = choose|c: u128| codes.contains(c) && f(c) == x;
        lemma_labelled_code(meshes, c);
    }
    assert(codes.map(f) =~= faces);
    lemma_map_size(codes, faces, f);
}

/// All faces of a list have a given label.
spec fn only_labelled(list: Seq<(Handle, u32)>, m: LabelMap, id: SegmentId) -> bool {
    forall|k: int|
        0 <= k < list.len() ==> label_in(m, (#[trigger] list[k]).0, list[k].1 as int) == id
}

impl FaceTable {
    /// All faces with a label, for a label that a face can be given.
    fn labelled(&self, id: SegmentId) -> (list: Vec<(Handle, u32)>)
        requires
            self.wf(),
        ensures
            forall|h: Handle, t: u32| #[trigger]
                list@.contains((h, t)) <==> id != UNASSIGNED && label_in(
                    self.labels(),
                    h,
                    t as int,
                ) == id,
    {
        let codes = members(&self.assigned);
        let mut list: Vec<(Handle, u32)> = Vec::new();
        let mut i: usize = 0;
        while i < codes.len()
            invariant
                self.wf(),
                i <= codes.len(),
                codes@.to_set() == self.assigned@,
                list@.len() > 0 ==> id != UNASSIGNED,
                only_labelled(list@, self.labels(), id),
                forall|k: int|
                    0 <= k < i && code_label(self.meshes@, #[trigger] codes@[k]) == id
                        ==> list@.contains((decoded(codes@[k]).0, decoded(codes@[k]).1 as u32)),
            decreases codes.len() - i,
        {
            let f: u128 = codes[i];
            assert(codes@.to_set().contains(codes@[i as int]));
            proof {
                lemma_labelled_code(self.meshes@, f);
            }
            let key: u64 = (f / 0x1_0000_0000) as u64;
            let tri: u32 = (f % 0x1_0000_0000) as u32;
            let ghost before = list@;
            match self.meshes.get(&key) {
                Some(ms) => {
                    if (tri as usize) < ms.labels.len() && ms.labels[tri as usize] == id {
                        list.push((ms.mesh, tri));
                        proof {
                            assert(code_label(self.meshes@, f) == id);
                            assert(list@ == before.push((decoded(f).0, tri)));
                            assert(list@[before.len() as int] == (decoded(f).0, tri));
                            assert forall|x: (Handle, u32)|
                                before.contains(x) implies list@.contains(x) by {
                                let k = choose|k: int| 0 <= k < before.len() && before[k] == x;
                                assert(list@[k] == x);
                            }
                        }
                    }
                },
                None => {},
            }
            i += 1;
        }
        proof {
            assert forall|h: Handle, t: u32|
                id != UNASSIGNED && label_in(self.labels(), h, t as int)
                    == id implies #[trigger] list@.contains((h, t)) by {
                lemma_labelled_face(self.meshes@, h, t as int);
                let c = face_code(h.code(), t as int) as u128;
                assert(codes@.to_set().contains(c));
                let k = choose|k: int| 0 <= k < codes@.len() && codes@[k] == c;
                assert(code_label(self.meshes@, codes@[k]) == id);
            }
        }
        list
    }
}

impl Segmentation {
    /// Gives a face a label. A face that does not exist is ignored.
    pub fn set_face(&mut self, mesh: Handle, tri: u32, id: SegmentId)
        requires
            old(self).wf(),
        ensures
            final(self).wf(),
            final(self).labels() == relabelled(old(self).labels(), mesh, tri as int, id),
            final(self).segments == old(self).segments,
            final(self).active == old(self).active,
            final(self).next_id == old(self).next_id,
            final(self).added == old(self).added,
    {
        self.faces.assign(mesh, tri, id);
    }

    /// Gives all faces of a list a label. Faces that do not exist are ignored.
    pub fn set_faces(&mut self, faces: &Vec<(Handle, u32)>, id: SegmentId)
        requires
            old(self).wf(),
        ensures
            final(self).wf(),
            final(self).labels() == painted(old(self).labels(), faces@, id),
            final(self).segments == old(self).segments,
            final(self).active == old(self).active,
            final(self).next_id == old(self).next_id,
            final(self).added == old(self).added,
    {
        let mut i: usize = 0;
        proof {
            let m = old(self).labels();
            assert forall|h: Handle| m.contains_key(h) implies painted(m, faces@.take(0), id)[h]
                == m[h] by {
                assert(painted(m, faces@.take(0), id)[h] =~= m[h]);
            }
            assert(painted(m, faces@.take(0), id) =~= m);
        }
        while i < faces.len()
            invariant
                i <= faces.len(),
                self.wf(),
                self.labels() == painted(old(self).labels(), faces@.take(i as int), id),
                self.segments == old(self).segments,
                self.active == old(self).active,
                self.next_id == old(self).next_id,
                self.added == old(self).added,
            decreases faces.len() - i,
        {
            let (mesh, tri) = faces[i];
            self.set_face(mesh, tri, id);
            proof {
                lemma_painted_step(
                    old(self).labels(),
                    faces@.take(i as int),
                    faces@[i as int],
                    id,
                );
                assert(faces@.take(i as int).push(faces@[i as int]) =~= faces@.take(i + 1));
            }
            i += 1;
        }
        assert(faces@.take(i as int) =~= faces@);
    }

    /// The number of faces in a segment.
    pub fn face_count(&self, id: SegmentId) -> (n: usize)
        requires
            self.wf(),
        ensures
            n == if id == UNASSIGNED {
                0
            } else {
                faces_in(self.labels(), id).len()
            },
    {
        proof {
            if id != UNASSIGNED {
                lemma_count(self.faces.meshes@, self.faces.assigned@, id);
                assert(counted(self.faces.counts@, id) == faces_in(self.labels(), id).len());
            }
        }
        match self.faces.counts.get(&id) {
            Some(n) => *n,
            None => 0,
        }
    }
}

/// The number of faces without a label among the first `n`.
spec fn spare_count(labels: Seq<SegmentId>, n: int) -> nat
    decreases n,
{
    if n <= 0 {
        0
    } else if labels[n - 1] == UNASSIGNED {
        spare_count(labels, n - 1) + 1
    } else {
        spare_count(labels, n - 1)
    }
}

/// The number of faces without a label in the meshes of a list.
spec fn spare_total(meshes: Map<u64, MeshSeg>, keys: Seq<u64>) -> nat
    decreases keys.len(),
{
    if keys.len() == 0 {
        0
    } else {
        let labels = meshes[keys.last()].labels@;
        spare_total(meshes, keys.drop_last()) + spare_count(labels, labels.len() as int)
    }
}

/// The faces without a label in one mesh, among the first `n`.
spec fn spare_row(h: Handle, labels: Seq<SegmentId>, n: int) -> Set<(Handle, int)> {
    Set::new(|f: (Handle, int)| f.0 == h && 0 <= f.1 < n && labels[f.1] == UNASSIGNED)
}

/// The faces without a label in the meshes of a list.
spec fn spare_faces(meshes: Map<u64, MeshSeg>, keys: Seq<u64>) -> Set<(Handle, int)> {
    Set::new(
        |f: (Handle, int)|
            keys.contains(f.0.code() as u64) && 0 <= f.1 < meshes[f.0.code() as u64].labels@.len()
                && meshes[f.0.code() as u64].labels@[f.1] == UNASSIGNED,
    )
}

proof fn lemma_spare_row(h: Handle, labels: Seq<SegmentId>, n: int)
    requires
        0 <= n <= labels.len(),
    ensures
        spare_row(h, labels, n).finite(),
        spare_row(h, labels, n).len() == spare_count(labels, n),
    decreases n,
{
    if n == 0 {
        assert(spare_row(h, labels, n) =~= Set::empty());
    } else {
        lemma_spare_row(h, labels, n - 1);
        let shorter = spare_row(h, labels, n - 1);
        if labels[n - 1] == UNASSIGNED {
            assert(spare_row(h, labels, n) =~= shorter.insert((h, n - 1)));
        } else {
            assert(spare_row(h, labels, n) =~= shorter);
        }
    }
}

proof fn lemma_spare_faces(meshes: Map<u64, MeshSeg>, keys: Seq<u64>)
    requires
        filed(meshes),
        keys.no_duplicates(),
        forall|i: int| 0 <= i < keys.len() ==> meshes.contains_key(#[trigger] keys[i]),
    ensures
        spare_faces(meshes, keys).finite(),
        spare_faces(meshes, keys).len() == spare_total(meshes, keys),
    decreases keys.len(),
{
    if keys.len() == 0 {
        assert(spare_faces(meshes, keys) =~= Set::empty());
    } else {
        let rest = keys.drop_last();
        let k = keys.last();
        let h = meshes[k].mesh;
        let labels = meshes[k].labels@;
        assert(meshes.contains_key(keys[keys.len() - 1]));
        assert forall|i: int| 0 <= i < rest.len() implies meshes.contains_key(
            #[trigger] rest[i],
        ) by {
            assert(rest[i] == keys[i]);
        }
        lemma_spare_faces(meshes, rest);
        lemma_spare_row(h, labels, labels.len() as int);
        let before = spare_faces(meshes, rest);
        let row = spare_row(h, labels, labels.len() as int);
        assert forall|x: Handle| x.code() as u64 == k implies x == h by {
            lemma_handle_code(x);
            lemma_handle_code(h);
        }
        assert forall|x: u64| keys.contains(x) == (rest.contains(x) || x == k) by {
            if rest.contains(x) {
                let i = choose|i: int| 0 <= i < rest.len() && rest[i] == x;
                assert(keys[i] == x);
            }
            if keys.contains(x) && x != k {
                let i = choose|i: int| 0 <= i < keys.len() && keys[i] == x;
                assert(rest[i] == x);
            }
            assert(keys[keys.len() - 1] == k);
        }
        assert(!rest.contains(k)) by {
            if rest.contains(k) {
                let i = choose|i: int| 0 <= i < rest.len() && rest[i] == k;
                assert(keys[i] == keys[keys.len() - 1]);
            }
        }
        lemma_handle_code(h);
        assert(spare_faces(meshes, keys) =~= before.union(row));
        assert(before.disjoint(row));
        vstd::set_lib::lemma_set_disjoint_lens(before, row);
    }
}

proof fn lemma_spare_count_grows(labels: Seq<SegmentId>, i: int, j: int)
    requires
        0 <= i <= j,
    ensures
        spare_count(labels, i) <= spare_count(labels, j),
    decreases j - i,
{
    if i < j {
        lemma_spare_count_grows(labels, i, j - 1);
    }
}

proof fn lemma_spare_total_grows(meshes: Map<u64, MeshSeg>, keys: Seq<u64>, i: int, j: int)
    requires
        0 <= i <= j <= keys.len(),
    ensures
        spare_total(meshes, keys.take(i)) <= spare_total(meshes, keys.take(j)),
    decreases j - i,
{
    if i < j {
        lemma_spare_total_grows(meshes, keys, i, j - 1);
        assert(keys.take(j).drop_last() =~= keys.take(j - 1));
    }
}

impl Segmentation {
    /// The number of faces that are in no segment.
    pub fn leftover_faces(&self) -> (n: usize)
        requires
            self.wf(),
            faces_in(self.labels(), UNASSIGNED).len() <= usize::MAX,
        ensures
            n == faces_in(self.labels(), UNASSIGNED).len(),
    {
        let keys = keys_of(&self.faces.meshes);
        let ghost meshes = self.faces.meshes@;
        let mut n: usize = 0;
        let mut i: usize = 0;
        proof {
            assert forall|k: int| 0 <= k < keys@.len() implies meshes.contains_key(
                #[trigger] keys@[k],
            ) by {
                assert(keys@.to_set().contains(keys@[k]));
            }
            assert forall|k: u64| keys@.contains(k) == meshes.contains_key(k) by {
                assert(keys@.to_set().contains(k) == meshes.dom().contains(k));
            }
            lemma_spare_faces(meshes, keys@);
            assert(spare_faces(meshes, keys@) =~= faces_in(self.labels(), UNASSIGNED));
            assert(keys@.take(keys@.len() as int) =~= keys@);
        }
        while i < keys.len()
            invariant
                i <= keys.len(),
                meshes == self.faces.meshes@,
                forall|k: int| 0 <= k < keys@.len() ==> meshes.contains_key(#[trigger] keys@[k]),
                n == spare_total(meshes, keys@.take(i as int)),
                spare_total(meshes, keys@) <= usize::MAX,
                keys@.take(keys@.len() as int) == keys@,
            decreases keys.len() - i,
        {
            let key: u64 = keys[i];
            let ghost sofar = n;
            let ghost labels = meshes[key].labels@;
            proof {
                assert(meshes.contains_key(keys@[i as int]));
                assert(keys@.take(i + 1).drop_last() =~= keys@.take(i as int));
                assert(keys@.take(i + 1).last() == key);
                lemma_spare_total_grows(meshes, keys@, i + 1, keys@.len() as int);
            }
            match self.faces.meshes.get(&key) {
                Some(ms) => {
                    let mut j: usize = 0;
                    while j < ms.labels.len()
                        invariant
                            j <= ms.labels.len(),
                            ms.labels@ == labels,
                            n == sofar + spare_count(labels, j as int),
                            sofar + spare_count(labels, labels.len() as int) <= usize::MAX,
                        decreases ms.labels.len() - j,
                    {
                        proof {
                            lemma_spare_count_grows(labels, j + 1, labels.len() as int);
                        }
                        if ms.labels[j] == UNASSIGNED {
                            n += 1;
                        }
                        j += 1;
                    }
                },
                None => {},
            }
            i += 1;
        }
        n
    }

    /// The faces that are in a segment, each with the colour of its segment. Faces whose label
    /// belongs to no segment are left out.
    pub fn overlay_faces(&self) -> (out: Vec<(Handle, u32, Rgba)>)
        requires
            self.wf(),
        ensures
            out@.no_duplicates(),
            forall|h: Handle, t: u32, c: Rgba| #[trigger]
                out@.contains((h, t, c)) <==> {
                    &&& label_in(self.labels(), h, t as int) != UNASSIGNED
                    &&& color_in(self.segments@, label_in(self.labels(), h, t as int)) == Some(c)
                },
    {
        let codes = members(&self.faces.assigned);
        let ghost meshes = self.faces.meshes@;
        let mut out: Vec<(Handle, u32, Rgba)> = Vec::new();
        let mut i: usize = 0;
        while i < codes.len()
            invariant
                self.wf(),
                meshes == self.faces.meshes@,
                i <= codes.len(),
                codes@.no_duplicates(),
                codes@.to_set() == self.faces.assigned@,
                overlay_of(out@, self.segments@, meshes, codes@.take(i as int)),
            decreases codes.len() - i,
        {
            let f: u128 = codes[i];
            assert(codes@.to_set().contains(codes@[i as int]));
            proof {
                lemma_labelled_code(meshes, f);
            }
            let key: u64 = (f / 0x1_0000_0000) as u64;
            let tri: u32 = (f % 0x1_0000_0000) as u32;
            let ghost before = out@;
            match self.faces.meshes.get(&key) {
                Some(ms) => {
                    if (tri as usize) < ms.labels.len() {
                        let id: SegmentId = ms.labels[tri as usize];
                        if id != UNASSIGNED {
                            match self.color_of(id) {
                                Some(color) => {
                                    out.push((ms.mesh, tri, color));
                                },
                                None => {},
                            }
                        }
                    }
                },
                None => {},
            }
            proof {
                assert forall|k: int| 0 <= k < i implies code_label(
                    meshes,
                    #[trigger] codes@.take(i as int)[k],
                ) != UNASSIGNED by {
                    assert(codes@.to_set().contains(codes@[k]));
                }
                lemma_overlay_step(
                    before,
                    self.segments@,
                    meshes,
                    codes@.take(i as int),
                    f,
                );
                assert(codes@.take(i + 1) =~= codes@.take(i as int).push(f));
                assert(!codes@.take(i as int).contains(f));
                assert(decoded(f).1 == tri);
            }
            i += 1;
        }
        proof {
            assert(codes@.take(codes@.len() as int) =~= codes@);
            lemma_overlay_whole(out@, self.segments@, meshes, codes@, self.faces.assigned@);
        }
        out
    }
}

/// The overlay entry of the face with code `f`, if it has one.
spec fn overlay_entry(
    segments: Seq<Segment>,
    meshes: Map<u64, MeshSeg>,
    f: u128,
) -> Option<(Handle, u32, Rgba)> {
    match color_in(segments, code_label(meshes, f)) {
        Some(c) => Some((decoded(f).0, decoded(f).1 as u32, c)),
        None => None,
    }
}

/// The list holds the overlay entries of the codes, each once.
spec fn overlay_of(
    out: Seq<(Handle, u32, Rgba)>,
    segments: Seq<Segment>,
    meshes: Map<u64, MeshSeg>,
    codes: Seq<u128>,
) -> bool {
    &&& out.no_duplicates()
    &&& forall|e: (Handle, u32, Rgba)| #[trigger]
        out.contains(e) <==> exists|k: int|
            0 <= k < codes.len() && overlay_entry(segments, meshes, #[trigger] codes[k]) == Some(e)
}

proof fn lemma_overlay_step(
    out: Seq<(Handle, u32, Rgba)>,
    segments: Seq<Segment>,
    meshes: Map<u64, MeshSeg>,
    codes: Seq<u128>,
    f: u128,
)
    requires
        filed(meshes),
        overlay_of(out, segments, meshes, codes),
        forall|k: int|
            0 <= k < codes.len() ==> code_label(meshes, #[trigger] codes[k]) != UNASSIGNED,
        code_label(meshes, f) != UNASSIGNED,
        !codes.contains(f),
    ensures
        match overlay_entry(segments, meshes, f) {
            Some(e) => overlay_of(out.push(e), segments, meshes, codes.push(f)),
            None => overlay_of(out, segments, meshes, codes.push(f)),
        },
{
    let longer = codes.push(f);
    assert(longer[codes.len() as int] == f);
    assert(forall|k: int| 0 <= k < codes.len() ==> #[trigger] longer[k] == codes[k]);
    assert(forall|k: int| 0 <= k < codes.len() ==> #[trigger] codes[k] == longer[k]);
    match overlay_entry(segments, meshes, f) {
        Some(e) => {
            let grown = out.push(e);
            if out.contains(e) {
                let k = choose|k: int|
                    0 <= k < codes.len() && overlay_entry(
                        segments,
                        meshes,
                        #[trigger] codes[k],
                    ) == Some(e);
                lemma_labelled_code(meshes, codes[k]);
                lemma_labelled_code(meshes, f);
                assert(codes[k] == f);
            }
            assert forall|x: (Handle, u32, Rgba)| #[trigger]
                grown.contains(x) <==> exists|k: int|
                    0 <= k < longer.len() && overlay_entry(
                        segments,
                        meshes,
                        #[trigger] longer[k],
                    ) == Some(x) by {
                assert(grown[out.len() as int] == e);
                if grown.contains(x) {
                    let j = choose|j: int| 0 <= j < grown.len() && grown[j] == x;
                    if j < out.len() {
                        assert(out[j] == x);
                        assert(out.contains(x));
                        let k = choose|k: int|
                            0 <= k < codes.len() && overlay_entry(
                                segments,
                                meshes,
                                #[trigger] codes[k],
                            ) == Some(x);
                        assert(longer[k] == codes[k]);
                    }
                }
                if exists|k: int|
                    0 <= k < longer.len() && overlay_entry(
                        segments,
                        meshes,
                        #[trigger] longer[k],
                    ) == Some(x) {
                    let k = choose|k: int|
                        0 <= k < longer.len() && overlay_entry(
                            segments,
                            meshes,
                            #[trigger] longer[k],
                        ) == Some(x);
                    if k < codes.len() {
                        assert(codes[k] == longer[k]);
                        assert(out.contains(x));
                        let j = choose|j: int| 0 <= j < out.len() && out[j] == x;
                        assert(grown[j] == x);
                    }
                }
            }
        },
        None => {
            assert forall|x: (Handle, u32, Rgba)| #[trigger]
                out.contains(x) <==> exists|k: int|
                    0 <= k < longer.len() && overlay_entry(
                        segments,
                        meshes,
                        #[trigger] longer[k],
                    ) == Some(x) by {
                if out.contains(x) {
                    let k = choose|k: int|
                        0 <= k < codes.len() && overlay_entry(
                            segments,
                            meshes,
                            #[trigger] codes[k],
                        ) == Some(x);
                    assert(longer[k] == codes[k]);
                }
            }
        },
    }
}

proof fn lemma_overlay_whole(
    out: Seq<(Handle, u32, Rgba)>,
    segments: Seq<Segment>,
    meshes: Map<u64, MeshSeg>,
    codes: Seq<u128>,
    assigned: Set<u128>,
)
    requires
        filed(meshes),
        indexed(meshes, assigned),
        codes.to_set() == assigned,
        overlay_of(out, segments, meshes, codes),
    ensures
        forall|h: Handle, t: u32, c: Rgba| #[trigger]
            out.contains((h, t, c)) <==> {
                &&& label_in(label_map(meshes), h, t as int) != UNASSIGNED
                &&& color_in(segments, label_in(label_map(meshes), h, t as int)) == Some(c)
            },
{
    assert forall|h: Handle, t: u32, c: Rgba| #[trigger]
        out.contains((h, t, c)) <==> {
            &&& label_in(label_map(meshes), h, t as int) != UNASSIGNED
            &&& color_in(segments, label_in(label_map(meshes), h, t as int)) == Some(c)
        } by {
        if out.contains((h, t, c)) {
            let k = choose|k: int|
                0 <= k < codes.len() && overlay_entry(segments, meshes, #[trigger] codes[k])
                    == Some((h, t, c));
            assert(codes.to_set().contains(codes[k]));
            lemma_labelled_code(meshes, codes[k]);
        }
        if label_in(label_map(meshes), h, t as int) != UNASSIGNED && color_in(
            segments,
            label_in(label_map(meshes), h, t as int),
        ) == Some(c) {
            lemma_labelled_face(meshes, h, t as int);
            let f = face_code(h.code(), t as int) as u128;
            assert(codes.to_set().contains(f));
            let k = choose|k: int| 0 <= k < codes.len() && codes[k] == f;
            assert(overlay_entry(segments, meshes, codes[k]) == Some((h, t, c)));
        }
    }
}

/// The segments of a list that have another id.
pub open spec fn other_segments(segments: Seq<Segment>, id: SegmentId) -> Seq<Segment> {
    segments.filter(|s: Segment| s.id != id)
}

impl Segmentation {
    /// Deletes the active segment and gives back its faces. The last of the remaining segments
    /// becomes the active one. Without an active segment nothing happens.
    pub fn remove_active(&mut self)
        requires
            old(self).wf(),
        ensures
            final(self).wf(),
            final(self).next_id == old(self).next_id,
            final(self).added == old(self).added,
            match old(self).active {
                Some(id) => {
                    &&& final(self).labels() == without_segment(old(self).labels(), id)
                    &&& final(self).segments@ == other_segments(old(self).segments@, id)
                    &&& final(self).active == if final(self).segments@.len() > 0 {
                        Some(final(self).segments@.last().id)
                    } else {
                        None
                    }
                },
                None => *final(self) == *old(self),
            },
    {
        let id: SegmentId = match self.active {
            Some(id) => id,
            None => {
                return ;
            },
        };
        self.drop_segments(id);
        let doomed = self.faces.labelled(id);
        let ghost m = self.labels();
        self.set_faces(&doomed, UNASSIGNED);
        proof {
            let p = painted(m, doomed@, UNASSIGNED);
            let w = without_segment(m, id);
            assert forall|h: Handle| m.contains_key(h) implies p[h] == w[h] by {
                assert forall|t: int| 0 <= t < m[h].len() implies p[h][t] == w[h][t] by {
                    if t <= u32::MAX {
                        assert(doomed@.contains((h, t as u32)) <==> id != UNASSIGNED && label_in(
                            m,
                            h,
                            t,
                        ) == id);
                    } else {
                        if label_in(m, h, t) != UNASSIGNED {
                            lemma_labelled_face(old(self).faces.meshes@, h, t);
                        }
                    }
                }
                assert(p[h] =~= w[h]);
            }
            assert(p =~= w);
            if id != UNASSIGNED {
                lemma_count(self.faces.meshes@, self.faces.assigned@, id);
                assert(faces_in(self.labels(), id) =~= Set::empty());
                assert(counted(self.faces.counts@, id) == 0);
            }
        }
        let ghost counts = self.faces.counts@;
        self.faces.counts.remove(&id);
        proof {
            assert forall|x: SegmentId| x != UNASSIGNED implies #[trigger] counted(
                self.faces.counts@,
                x,
            ) == codes_with(self.faces.meshes@, self.faces.assigned@, x).len() by {
                assert(counted(counts, x) == codes_with(
                    self.faces.meshes@,
                    self.faces.assigned@,
                    x,
                ).len());
            }
        }
        let n: usize = self.segments.len();
        self.active = if n > 0 {
            Some(self.segments[n - 1].id)
        } else {
            None
        };
    }

    /// Takes the segments with a given id off the list.
    fn drop_segments(&mut self, id: SegmentId)
        requires
            old(self).wf(),
        ensures
            final(self).wf(),
            final(self).faces == old(self).faces,
            final(self).active == old(self).active,
            final(self).next_id == old(self).next_id,
            final(self).added == old(self).added,
            final(self).segments@ == other_segments(old(self).segments@, id),
    {
        let ghost whole = self.segments@;
        let ghost keep = |s: Segment| s.id != id;
        let mut i: usize = 0;
        let ghost mut done: int = 0;
        proof {
            assert(whole.take(0).filter(keep) =~= Seq::<Segment>::empty()) by {
                reveal(Seq::filter);
            }
            assert(self.segments@ =~= Seq::<Segment>::empty() + whole.skip(0));
        }
        while i < self.segments.len()
            invariant
                self.wf(),
                self.faces == old(self).faces,
                self.active == old(self).active,
                self.next_id == old(self).next_id,
                self.added == old(self).added,
                keep == (|s: Segment| s.id != id),
                0 <= done <= whole.len(),
                i == whole.take(done).filter(keep).len(),
                self.segments@ == whole.take(done).filter(keep) + whole.skip(done),
            decreases whole.len() - done,
        {
            let ghost before = self.segments@;
            proof {
                assert(before.len() == i + (whole.len() - done));
                assert(before[i as int] == whole.skip(done)[0]);
                assert(before[i as int] == whole[done]);
                assert(whole.take(done + 1).drop_last() =~= whole.take(done));
                reveal(Seq::filter);
            }
            if self.segments[i].id == id {
                let gone = self.segments.remove(i);
                proof {
                    assert(self.segments@ =~= whole.take(done + 1).filter(keep) + whole.skip(
                        done + 1,
                    ));
                }
            } else {
                proof {
                    assert(self.segments@ =~= whole.take(done + 1).filter(keep) + whole.skip(
                        done + 1,
                    ));
                }
                i += 1;
            }
            proof {
                done = done + 1;
            }
        }
        proof {
            assert(whole.take(whole.len() as int) =~= whole);
            assert(self.segments@ =~= whole.filter(keep));
        }
    }

    /// Takes over the meshes that the nodes show: their faces keep their labels as long as the
    /// number of faces is the same, and have none otherwise. Other meshes are forgotten.
    pub fn sync(&mut self, scene: &Scene, paintable: &Vec<Handle>)
        requires
            old(self).wf(),
        ensures
            final(self).wf(),
            final(self).labels() == synced(old(self).labels(), *scene, paintable@),
            final(self).segments == old(self).segments,
            final(self).active == old(self).active,
            final(self).next_id == old(self).next_id,
            final(self).added == old(self).added,
    {
        self.faces.sync(scene, paintable);
    }
}

impl FaceTable {
    fn sync(&mut self, scene: &Scene, paintable: &Vec<Handle>)
        requires
            old(self).wf(),
        ensures
            final(self).wf(),
            final(self).labels() == synced(old(self).labels(), *scene, paintable@),
    {
        let ghost m0 = self.meshes@;
        let ghost was = self.labels();
        let mut fresh: HashMap<u64, MeshSeg> = HashMap::new();
        let mut i: usize = 0;
        while i < paintable.len()
            invariant
                i <= paintable.len(),
                filed(m0),
                was == label_map(m0),
                self.assigned@ == old(self).assigned@,
                forall|k: u64| #[trigger]
                    self.meshes@.contains_key(k) <==> m0.contains_key(k) && !fresh@.contains_key(k),
                forall|k: u64| #[trigger] self.meshes@.contains_key(k) ==> self.meshes@[k] == m0[k],
                forall|k: u64| #[trigger]
                    fresh@.contains_key(k) ==> is_shown(
                        *scene,
                        paintable@.take(i as int),
                        Handle::from_code(k as int),
                    ) && fresh@[k].mesh == Handle::from_code(k as int) && fresh@[k].mesh.code()
                        == k && fresh@[k].labels@ == fitted(
                        was,
                        fresh@[k].mesh,
                        tri_count(*scene, fresh@[k].mesh),
                    ),
                forall|h: Handle| #[trigger]
                    is_shown(*scene, paintable@.take(i as int), h) ==> fresh@.contains_key(
                        h.code() as u64,
                    ),
            decreases paintable.len() - i,
        {
            let node = paintable[i];
            proof {
                lemma_shown_step(*scene, paintable@, i as int);
            }
            match scene.mesh_of(node) {
                Some(info) => {
                    proof {
                        lemma_shown_info(*scene, node);
                        lemma_handle_code(info.handle);
                    }
                    let mesh = info.handle;
                    let n: usize = info.index_count / 3;
                    let key: u64 = mesh.packed();
                    if !fresh.contains_key(&key) {
                        let kept: Option<MeshSeg> = self.meshes.remove(&key);
                        let labels: Vec<SegmentId> = match kept {
                            Some(ms) => if ms.labels.len() == n {
                                ms.labels
                            } else {
                                vec![UNASSIGNED; n]
                            },
                            None => vec![UNASSIGNED; n],
                        };
                        assert(labels@ =~= fitted(was, mesh, n as nat));
                        fresh.insert(key, MeshSeg { mesh, labels });
                    }
                    proof {
                        assert forall|h: Handle|
                            is_shown(*scene, paintable@.take(i + 1), h) implies fresh@.contains_key(
                            h.code() as u64,
                        ) by {
                            if h != mesh {
                                assert(is_shown(*scene, paintable@.take(i as int), h));
                            }
                        }
                    }
                },
                None => {},
            }
            i += 1;
        }
        self.meshes = fresh;
        proof {
            assert(paintable@.take(paintable@.len() as int) =~= paintable@);
            let now = label_map(fresh@);
            let want = synced(was, *scene, paintable@);
            assert forall|h: Handle| now.contains_key(h) <==> want.contains_key(h) by {
                lemma_handle_code(h);
            }
            assert forall|h: Handle| now.contains_key(h) implies now[h] == want[h] by {
                lemma_handle_code(h);
            }
            assert(now =~= want);
        }
        proof {
            assert forall|f: u128|
                code_label(self.meshes@, f) != UNASSIGNED implies #[trigger] self.assigned@.contains(
                f,
            ) by {
                let key = (f as int / 0x1_0000_0000) as u64;
                assert(self.meshes@.contains_key(key));
                assert(code_label(m0, f) != UNASSIGNED);
            }
        }
        self.rebuild_counts();
    }

    /// Keeps the codes of the labelled faces and counts the faces anew.
    fn rebuild_counts(&mut self)
        requires
            filed(old(self).meshes@),
            forall|f: u128|
                code_label(old(self).meshes@, f) != UNASSIGNED ==> #[trigger] old(
                    self,
                ).assigned@.contains(f),
        ensures
            final(self).wf(),
            final(self).meshes == old(self).meshes,
    {
        let codes = members(&self.assigned);
        let mut set: HashSet<u128> = HashSet::new();
        let mut counts: HashMap<SegmentId, usize> = HashMap::new();
        let ghost meshes = self.meshes@;
        let mut i: usize = 0;
        proof {
            assert forall|x: SegmentId| x != UNASSIGNED implies #[trigger] counted(counts@, x)
                == codes_with(meshes, set@, x).len() by {
                assert(codes_with(meshes, set@, x) =~= Set::empty());
            }
        }
        while i < codes.len()
            invariant
                i <= codes.len(),
                meshes == self.meshes@,
                self.meshes == old(self).meshes,
                codes@.no_duplicates(),
                set@.finite(),
                forall|f: u128| #[trigger]
                    set@.contains(f) <==> codes@.take(i as int).contains(f) && code_label(meshes, f)
                        != UNASSIGNED,
                tallied(meshes, set@, counts@),
            decreases codes.len() - i,
        {
            let f: u128 = codes[i];
            let id: SegmentId = self.label_at(f);
            proof {
                crate::tables::lemma_take_contains(codes@, i as int);
                assert(!codes@.take(i as int).contains(f));
            }
            if id != UNASSIGNED {
                let ghost set0 = set@;
                let ghost counts0 = counts@;
                set.insert(f);
                let all: usize = set.len();
                let count: usize = match counts.get(&id) {
                    Some(c) => *c,
                    None => 0,
                };
                proof {
                    assert(codes_with(meshes, set@, id) =~= codes_with(meshes, set0, id).insert(f));
                    lemma_len_subset(codes_with(meshes, set@, id), set@);
                    assert(counted(counts0, id) == codes_with(meshes, set0, id).len());
                }
                counts.insert(id, count + 1);
                proof {
                    assert forall|x: SegmentId| x != UNASSIGNED implies #[trigger] counted(
                        counts@,
                        x,
                    ) == codes_with(meshes, set@, x).len() by {
                        assert(counted(counts0, x) == codes_with(meshes, set0, x).len());
                        if x != id {
                            assert(codes_with(meshes, set@, x) =~= codes_with(meshes, set0, x));
                        }
                    }
                }
            }
            i += 1;
        }
        proof {
            assert(codes@.take(codes@.len() as int) =~= codes@);
            assert forall|f: u128| #[trigger]
                set@.contains(f) <==> code_label(meshes, f) != UNASSIGNED by {
                assert(codes@.to_set().contains(f) <==> old(self).assigned@.contains(f));
            }
        }
        self.assigned = set;
        self.counts = counts;
    }

    /// The label of the face with a given code.
    fn label_at(&self, f: u128) -> (id: SegmentId)
        ensures
            id == code_label(self.meshes@, f),
    {
        let high: u128 = f / 0x1_0000_0000;
        let tri: u32 = (f % 0x1_0000_0000) as u32;
        if high > 0xffff_ffff_ffff_ffff {
            return UNASSIGNED;
        }
        match self.meshes.get(&(high as u64)) {
            Some(ms) => if (tri as usize) < ms.labels.len() {
                ms.labels[tri as usize]
            } else {
                UNASSIGNED
            },
            None => UNASSIGNED,
        }
    }
}

/// What a node shows is found under its own handle.
proof fn lemma_shown_info(scene: Scene, node: Handle)
    ensures
        match scene.shown(node) {
            Some(info) => scene.mesh(info.handle) == Some(info),
            None => true,
        },
{
    match scene.node(node) {
        Some(n) => match n.mesh {
            Some(m) => {
                crate::scene::lemma_mesh_at(scene.meshes@, m);
            },
            None => {},
        },
        None => {},
    }
}

/// One more node.
proof fn lemma_shown_step(scene: Scene, nodes: Seq<Handle>, i: int)
    requires
        0 <= i < nodes.len(),
    ensures
        forall|h: Handle| #[trigger]
            is_shown(scene, nodes.take(i + 1), h) <==> is_shown(scene, nodes.take(i), h) || shows(
                scene,
                nodes[i],
                h,
            ),
{
    let a = nodes.take(i);
    let b = nodes.take(i + 1);
    assert(b[i] == nodes[i]);
    assert forall|h: Handle| #[trigger]
        is_shown(scene, b, h) <==> is_shown(scene, a, h) || shows(scene, nodes[i], h) by {
        if is_shown(scene, a, h) {
            let k = choose|k: int| 0 <= k < a.len() && shows(scene, #[trigger] a[k], h);
            assert(b[k] == a[k]);
        }
        if is_shown(scene, b, h) {
            let k = choose|k: int| 0 <= k < b.len() && shows(scene, #[trigger] b[k], h);
            if k < i {
                assert(a[k] == b[k]);
            }
        }
    }
}

/// No face is in two segments, and every face is in the group of its own label: the segments and
/// the leftover faces divide the faces among them.
pub proof fn law_labels_divide_faces(m: LabelMap, a: SegmentId, b: SegmentId)
    requires
        a != b,
    ensures
        faces_in(m, a).disjoint(faces_in(m, b)),
        faces_in(m, a).subset_of(all_faces(m)),
        forall|f: (Handle, int)| #[trigger]
            all_faces(m).contains(f) ==> faces_in(m, label_in(m, f.0, f.1)).contains(f),
{
}

/// A face reads back the label that it was given, and no other face changes.
pub proof fn law_read_after_write(
    m: LabelMap,
    mesh: Handle,
    tri: int,
    id: SegmentId,
    h: Handle,
    t: int,
)
    requires
        all_faces(m).contains((mesh, tri)),
    ensures
        label_in(relabelled(m, mesh, tri, id), h, t) == if (h, t) == (mesh, tri) {
            id
        } else {
            label_in(m, h, t)
        },
{
}

/// Giving a face a new label takes it away from its old segment and from no other: the old
/// segment loses one face, the new one gains one.
pub proof fn law_steal(m: LabelMap, mesh: Handle, tri: int, id: SegmentId, x: SegmentId)
    requires
        all_faces(m).contains((mesh, tri)),
        label_in(m, mesh, tri) != id,
    ensures
        faces_in(relabelled(m, mesh, tri, id), x) == if x == id {
            faces_in(m, x).insert((mesh, tri))
        } else {
            faces_in(m, x).remove((mesh, tri))
        },
        faces_in(m, x).finite() ==> faces_in(relabelled(m, mesh, tri, id), x).len() == faces_in(
            m,
            x,
        ).len() + (if x == id {
            1int
        } else {
            0
        }) - (if x == label_in(m, mesh, tri) {
            1int
        } else {
            0
        }),
{
    let after = faces_in(relabelled(m, mesh, tri, id), x);
    if x == id {
        assert(after =~= faces_in(m, x).insert((mesh, tri)));
    } else {
        assert(after =~= faces_in(m, x).remove((mesh, tri)));
    }
}

/// Of two labels given to a face one after the other, the last one counts.
pub proof fn law_last_label_wins(
    m: LabelMap,
    mesh: Handle,
    tri: int,
    first: SegmentId,
    last: SegmentId,
)
    ensures
        relabelled(relabelled(m, mesh, tri, first), mesh, tri, last) == relabelled(
            m,
            mesh,
            tri,
            last,
        ),
{
    let a = relabelled(relabelled(m, mesh, tri, first), mesh, tri, last);
    let b = relabelled(m, mesh, tri, last);
    if all_faces(m).contains((mesh, tri)) {
        assert(a[mesh] =~= b[mesh]);
    }
    assert(a =~= b);
}

/// For a list of faces neither the order nor repetitions matter, only which faces are in it.
pub proof fn law_face_order_is_free(
    m: LabelMap,
    a: Seq<(Handle, u32)>,
    b: Seq<(Handle, u32)>,
    id: SegmentId,
)
    requires
        forall|f: (Handle, u32)| #[trigger] a.contains(f) <==> b.contains(f),
    ensures
        painted(m, a, id) == painted(m, b, id),
{
    assert forall|h: Handle| m.contains_key(h) implies painted(m, a, id)[h] == painted(
        m,
        b,
        id,
    )[h] by {
        assert(painted(m, a, id)[h] =~= painted(m, b, id)[h]);
    }
    assert(painted(m, a, id) =~= painted(m, b, id));
}

/// Selecting faces and deselecting the same faces leaves them in no segment, whatever they were
/// in before, and touches nothing else.
pub proof fn law_deselect_clears(
    m: LabelMap,
    faces: Seq<(Handle, u32)>,
    id: SegmentId,
    h: Handle,
    t: u32,
)
    ensures
        label_in(painted(painted(m, faces, id), faces, UNASSIGNED), h, t as int)
            == if faces.contains((h, t)) {
            UNASSIGNED
        } else {
            label_in(m, h, t as int)
        },
{
}

/// Deleting a segment gives its faces back and leaves all other segments as they are.
pub proof fn law_delete_gives_back(m: LabelMap, id: SegmentId, x: SegmentId)
    requires
        id != UNASSIGNED,
    ensures
        faces_in(without_segment(m, id), id) == Set::<(Handle, int)>::empty(),
        x != id && x != UNASSIGNED ==> faces_in(without_segment(m, id), x) == faces_in(m, x),
        faces_in(without_segment(m, id), UNASSIGNED) == faces_in(m, UNASSIGNED).union(
            faces_in(m, id),
        ),
        all_faces(without_segment(m, id)) == all_faces(m),
{
    let w = without_segment(m, id);
    assert(faces_in(w, id) =~= Set::<(Handle, int)>::empty());
    if x != id && x != UNASSIGNED {
        assert(faces_in(w, x) =~= faces_in(m, x));
    }
    assert(faces_in(w, UNASSIGNED) =~= faces_in(m, UNASSIGNED).union(faces_in(m, id)));
    assert(all_faces(w) =~= all_faces(m));
}

/// As long as fewer segments were added than there are ids, a new segment gets an id that no
/// segment has, larger than every id that was given out before, even to segments that are gone.
pub proof fn law_new_ids_are_fresh(s: Segmentation, i: int, k: nat)
    requires
        s.wf(),
        s.added@ < SegmentId::MAX,
    ensures
        s.next_id != UNASSIGNED,
        0 <= i < s.segments@.len() ==> s.segments@[i].id < s.next_id,
        1 <= k <= s.added@ ==> id_of(k) < s.next_id,
{
}

/// A row of faces.
pub open spec fn row(h: Handle, n: nat) -> Set<(Handle, int)> {
    Set::new(|f: (Handle, int)| f.0 == h && 0 <= f.1 < n)
}

/// A row has as many faces as it is long.
pub proof fn lemma_row(h: Handle, n: nat)
    ensures
        row(h, n).finite(),
        row(h, n).len() == n,
    decreases n,
{
    if n == 0 {
        assert(row(h, n) =~= Set::empty());
    } else {
        lemma_row(h, (n - 1) as nat);
        assert(row(h, n) =~= row(h, (n - 1) as nat).insert((h, n - 1)));
    }
}

proof fn lemma_all_finite(m: LabelMap)
    requires
        m.dom().finite(),
    ensures
        all_faces(m).finite(),
    decreases m.dom().len(),
{
    if m.dom().len() == 0 {
        assert(m.dom() =~= Set::empty());
        assert forall|f: (Handle, int)| !#[trigger] all_faces(m).contains(f) by {
            assert(!m.dom().contains(f.0));
        }
        assert(all_faces(m) =~= Set::empty());
    } else {
        let h = m.dom().choose();
        let rest = m.remove(h);
        lemma_all_finite(rest);
        lemma_row(h, m[h].len());
        assert(all_faces(m) =~= all_faces(rest).union(row(h, m[h].len())));
    }
}

/// There are only so many faces, in all and with each label.
pub proof fn law_faces_are_finite(s: Segmentation, id: SegmentId)
    requires
        s.wf(),
    ensures
        all_faces(s.labels()).finite(),
        faces_in(s.labels(), id).finite(),
{
    let m = s.labels();
    let meshes = s.faces.meshes@;
    let f = |k: u64| Handle::from_code(k as int);
    assert(m.dom() =~= meshes.dom().map(f)) by {
        assert forall|h: Handle| #[trigger] m.dom().contains(h) implies meshes.dom().map(
            f,
        ).contains(h) by {
            lemma_handle_code(h);
            let k = h.code() as u64;
            assert(meshes.dom().contains(k) && f(k) == h);
        }
        assert forall|h: Handle| #[trigger] meshes.dom().map(f).contains(h) implies m.dom().contains(
            h,
        ) by {
            let k = choose|k: u64| meshes.dom().contains(k) && f(k) == h;
            lemma_key_code(k);
        }
    }
    meshes.dom().lemma_map_finite(f);
    lemma_all_finite(m);
    lemma_len_subset(faces_in(m, id), all_faces(m));
}

proof fn lemma_key_code(k: u64)
    ensures
        Handle::from_code(k as int).code() == k,
{
}

/// Deleting a segment makes the leftover faces more by the number of its faces; the other
/// segments keep theirs.
pub proof fn law_delete_counts(s: Segmentation, id: SegmentId, x: SegmentId)
    requires
        s.wf(),
        id != UNASSIGNED,
    ensures
        faces_in(without_segment(s.labels(), id), UNASSIGNED).len() == faces_in(
            s.labels(),
            UNASSIGNED,
        ).len() + faces_in(s.labels(), id).len(),
        faces_in(without_segment(s.labels(), id), id).len() == 0,
        x != id && x != UNASSIGNED ==> faces_in(without_segment(s.labels(), id), x).len()
            == faces_in(s.labels(), x).len(),
{
    let m = s.labels();
    law_faces_are_finite(s, id);
    law_faces_are_finite(s, UNASSIGNED);
    law_delete_gives_back(m, id, x);
    let a = faces_in(m, UNASSIGNED);
    let b = faces_in(m, id);
    vstd::set_lib::lemma_set_disjoint_lens(a, b);
}

/// Labelling leaves the faces as they are; only their labels change.
pub proof fn law_faces_stay(
    m: LabelMap,
    mesh: Handle,
    tri: int,
    faces: Seq<(Handle, u32)>,
    id: SegmentId,
)
    ensures
        all_faces(relabelled(m, mesh, tri, id)) == all_faces(m),
        all_faces(painted(m, faces, id)) == all_faces(m),
{
    assert(all_faces(relabelled(m, mesh, tri, id)) =~= all_faces(m));
    assert(all_faces(painted(m, faces, id)) =~= all_faces(m));
}

/// The faces of the segments with the ids from one to `n`, counted one segment after the other.
pub open spec fn segment_total(m: LabelMap, n: nat) -> nat
    decreases n,
{
    if n == 0 {
        0
    } else {
        segment_total(m, (n - 1) as nat) + faces_in(m, n as SegmentId).len()
    }
}

spec fn faces_up_to(m: LabelMap, n: nat) -> Set<(Handle, int)> {
    Set::new(
        |f: (Handle, int)| m.contains_key(f.0) && 0 <= f.1 < m[f.0].len() && m[f.0][f.1] <= n,
    )
}

proof fn lemma_up_to(m: LabelMap, n: nat)
    requires
        all_faces(m).finite(),
        n <= SegmentId::MAX,
    ensures
        faces_up_to(m, n).finite(),
        faces_up_to(m, n).len() == faces_in(m, UNASSIGNED).len() + segment_total(m, n),
    decreases n,
{
    lemma_len_subset(faces_up_to(m, n), all_faces(m));
    if n == 0 {
        assert(faces_up_to(m, n) =~= faces_in(m, UNASSIGNED));
    } else {
        let id = n as SegmentId;
        lemma_up_to(m, (n - 1) as nat);
        let a = faces_up_to(m, (n - 1) as nat);
        let b = faces_in(m, id);
        lemma_len_subset(b, all_faces(m));
        assert(faces_up_to(m, n) =~= a.union(b));
        assert(a.disjoint(b));
        vstd::set_lib::lemma_set_disjoint_lens(a, b);
    }
}

/// The leftover faces and the faces of all segments together are all faces.
pub proof fn law_counts_add_up(s: Segmentation)
    requires
        s.wf(),
    ensures
        faces_in(s.labels(), UNASSIGNED).len() + segment_total(s.labels(), SegmentId::MAX as nat)
            == all_faces(s.labels()).len(),
{
    law_faces_are_finite(s, UNASSIGNED);
    lemma_up_to(s.labels(), SegmentId::MAX as nat);
    assert(faces_up_to(s.labels(), SegmentId::MAX as nat) =~= all_faces(s.labels()));
}

/// The id is that of a segment of the list.
pub open spec fn has_id(segments: Seq<Segment>, id: SegmentId) -> bool {
    exists|i: int| 0 <= i < segments.len() && (#[trigger] segments[i]).id == id
}

/// Every face that has a label is in a segment of the list.
pub open spec fn are_listed(segments: Seq<Segment>, m: LabelMap) -> bool {
    forall|f: (Handle, int)| #[trigger]
        all_faces(m).contains(f) ==> m[f.0][f.1] == UNASSIGNED || has_id(segments, m[f.0][f.1])
}

/// No two segments of the list have the same id.
pub open spec fn ids_differ(segments: Seq<Segment>) -> bool {
    forall|i: int, j: int|
        0 <= i < j < segments.len() ==> (#[trigger] segments[i]).id != (#[trigger] segments[j]).id
}

/// The faces of the segments of the list, counted one segment after the other.
pub open spec fn listed_total(segments: Seq<Segment>, m: LabelMap) -> nat
    decreases segments.len(),
{
    if segments.len() == 0 {
        0
    } else {
        listed_total(segments.drop_last(), m) + faces_in(m, segments.last().id).len()
    }
}

spec fn listed_faces(segments: Seq<Segment>, m: LabelMap) -> Set<(Handle, int)> {
    all_faces(m).filter(
        |f: (Handle, int)| m[f.0][f.1] == UNASSIGNED || has_id(segments, m[f.0][f.1]),
    )
}

proof fn lemma_listed(segments: Seq<Segment>, m: LabelMap)
    requires
        all_faces(m).finite(),
        ids_differ(segments),
        !has_id(segments, UNASSIGNED),
    ensures
        listed_faces(segments, m).finite(),
        listed_faces(segments, m).len() == faces_in(m, UNASSIGNED).len() + listed_total(
            segments,
            m,
        ),
    decreases segments.len(),
{
    lemma_len_subset(listed_faces(segments, m), all_faces(m));
    if segments.len() == 0 {
        assert(listed_faces(segments, m) =~= faces_in(m, UNASSIGNED));
    } else {
        let rest = segments.drop_last();
        let id = segments.last().id;
        assert(segments[segments.len() - 1].id == id);
        assert forall|x: SegmentId| #[trigger]
            has_id(segments, x) <==> has_id(rest, x) || x == id by {
            if has_id(segments, x) {
                let i = choose|i: int| 0 <= i < segments.len() && (#[trigger] segments[i]).id == x;
                if i < rest.len() {
                    assert(rest[i].id == x);
                }
            }
            if has_id(rest, x) {
                let i = choose|i: int| 0 <= i < rest.len() && (#[trigger] rest[i]).id == x;
                assert(segments[i].id == x);
            }
        }
        assert(!has_id(rest, id)) by {
            if has_id(rest, id) {
                let i = choose|i: int| 0 <= i < rest.len() && (#[trigger] rest[i]).id == id;
                assert(segments[i].id == segments[segments.len() - 1].id);
            }
        }
        lemma_listed(rest, m);
        let a = listed_faces(rest, m);
        let b = faces_in(m, id);
        lemma_len_subset(b, all_faces(m));
        assert(listed_faces(segments, m) =~= a.union(b));
        assert(a.disjoint(b));
        vstd::set_lib::lemma_set_disjoint_lens(a, b);
    }
}

/// Where every labelled face is in a segment of the list, and no two segments share an id, the
/// leftover faces and the faces of the segments of the list together are all faces.
pub proof fn law_listed_counts_add_up(s: Segmentation)
    requires
        s.wf(),
        ids_differ(s.segments@),
        are_listed(s.segments@, s.labels()),
    ensures
        faces_in(s.labels(), UNASSIGNED).len() + listed_total(s.segments@, s.labels())
            == all_faces(s.labels()).len(),
{
    law_faces_are_finite(s, UNASSIGNED);
    lemma_listed(s.segments@, s.labels());
    assert(listed_faces(s.segments@, s.labels()) =~= all_faces(s.labels()));
}

/// Labelled faces stay in segments of the list: when a segment is added, when faces get the label
/// of a segment of the list or lose theirs, when a segment is deleted, and when the meshes of a
/// scene are taken over.
pub proof fn law_labels_stay_listed(
    segments: Seq<Segment>,
    m: LabelMap,
    more: Segment,
    faces: Seq<(Handle, u32)>,
    id: SegmentId,
    scene: Scene,
    nodes: Seq<Handle>,
)
    requires
        are_listed(segments, m),
    ensures
        are_listed(segments.push(more), m),
        id == UNASSIGNED || has_id(segments, id) ==> are_listed(segments, painted(m, faces, id)),
        are_listed(other_segments(segments, id), without_segment(m, id)),
        are_listed(segments, synced(m, scene, nodes)),
{
    assert forall|x: SegmentId| has_id(segments, x) implies #[trigger] has_id(
        segments.push(more),
        x,
    ) by {
        let i = choose|i: int| 0 <= i < segments.len() && (#[trigger] segments[i]).id == x;
        assert(segments.push(more)[i].id == x);
    }
    assert(are_listed(segments.push(more), m)) by {
        assert forall|f: (Handle, int)| #[trigger] all_faces(m).contains(f) implies m[f.0][f.1]
            == UNASSIGNED || has_id(segments.push(more), m[f.0][f.1]) by {}
    }
    let p = painted(m, faces, id);
    if id == UNASSIGNED || has_id(segments, id) {
        assert forall|f: (Handle, int)| #[trigger] all_faces(p).contains(f) implies p[f.0][f.1]
            == UNASSIGNED || has_id(segments, p[f.0][f.1]) by {
            assert(all_faces(m).contains(f));
        }
    }
    let w = without_segment(m, id);
    let others = other_segments(segments, id);
    assert forall|f: (Handle, int)| #[trigger] all_faces(w).contains(f) implies w[f.0][f.1]
        == UNASSIGNED || has_id(others, w[f.0][f.1]) by {
        assert(all_faces(m).contains(f));
        let x = m[f.0][f.1];
        if x != id && x != UNASSIGNED {
            let i = choose|i: int| 0 <= i < segments.len() && (#[trigger] segments[i]).id == x;
            let keep = |s: Segment| s.id != id;
            broadcast use vstd::seq_lib::group_filter_ensures;

            assert(segments.filter(keep).contains(segments[i]));
            let j = choose|j: int|
                0 <= j < others.len() && others[j] == segments[i];
            assert(others[j].id == x);
        }
    }
    let y = synced(m, scene, nodes);
    assert forall|f: (Handle, int)| #[trigger] all_faces(y).contains(f) implies y[f.0][f.1]
        == UNASSIGNED || has_id(segments, y[f.0][f.1]) by {
        if m.contains_key(f.0) && m[f.0].len() == tri_count(scene, f.0) {
            assert(all_faces(m).contains(f));
        }
    }
}

proof fn lemma_other_ids(segments: Seq<Segment>, id: SegmentId)
    requires
        ids_differ(segments),
    ensures
        ids_differ(other_segments(segments, id)),
        forall|x: SegmentId| #[trigger]
            has_id(other_segments(segments, id), x) ==> has_id(segments, x),
    decreases segments.len(),
{
    reveal(Seq::filter);
    if segments.len() > 0 {
        let rest = segments.drop_last();
        lemma_other_ids(rest, id);
        let before = other_segments(rest, id);
        let now = other_segments(segments, id);
        let last = segments[segments.len() - 1];
        assert forall|x: SegmentId| has_id(rest, x) implies #[trigger] has_id(segments, x) && x
            != last.id by {
            let i = choose|i: int| 0 <= i < rest.len() && (#[trigger] rest[i]).id == x;
            assert(segments[i].id == x);
        }
        if last.id != id {
            assert(now == before.push(last));
            assert forall|i: int, j: int| 0 <= i < j < now.len() implies (#[trigger] now[i]).id
                != (#[trigger] now[j]).id by {
                assert(now[i] == before[i]);
                assert(has_id(before, now[i].id));
                assert(has_id(rest, now[i].id));
                if j < before.len() {
                    assert(now[j] == before[j]);
                }
            }
            assert forall|x: SegmentId| #[trigger] has_id(now, x) implies has_id(segments, x) by {
                let i = choose|i: int| 0 <= i < now.len() && (#[trigger] now[i]).id == x;
                if i < before.len() {
                    assert(before[i].id == x);
                    assert(has_id(before, x));
                } else {
                    assert(last.id == x);
                }
            }
        }
    }
}

/// No two segments come to share an id: not when a segment is deleted, and not when one is added,
/// as long as fewer segments were added than there are ids.
pub proof fn law_ids_stay_different(s: Segmentation, more: Segment, id: SegmentId)
    requires
        s.wf(),
        ids_differ(s.segments@),
    ensures
        s.added@ < SegmentId::MAX && more.id == s.next_id ==> ids_differ(s.segments@.push(more)),
        ids_differ(other_segments(s.segments@, id)),
{
    lemma_other_ids(s.segments@, id);
    if s.added@ < SegmentId::MAX && more.id == s.next_id {
        let now = s.segments@.push(more);
        assert forall|i: int, j: int| 0 <= i < j < now.len() implies (#[trigger] now[i]).id != (
        #[trigger] now[j]).id by {
            assert(now[i] == s.segments@[i]);
            if j < s.segments@.len() {
                assert(now[j] == s.segments@[j]);
            }
        }
    }
}

/// Taking over the same scene a second time changes nothing.
pub proof fn law_sync_is_idempotent(m: LabelMap, scene: Scene, nodes: Seq<Handle>)
    ensures
        synced(synced(m, scene, nodes), scene, nodes) == synced(m, scene, nodes),
{
    let once = synced(m, scene, nodes);
    let twice = synced(once, scene, nodes);
    assert forall|h: Handle| once.contains_key(h) implies twice[h] == once[h] by {
        assert(once[h].len() == tri_count(scene, h));
    }
    assert(twice =~= once);
}

/// The colour of a segment is that of the first one with its id; an id that no segment has has
/// no colour.
pub proof fn law_colours_go_by_id(segments: Seq<Segment>, id: SegmentId) -> (i: int)
    ensures
        match color_in(segments, id) {
            Some(c) => {
                &&& 0 <= i < segments.len()
                &&& segments[i].id == id && segments[i].color == c
                &&& forall|k: int| 0 <= k < i ==> (#[trigger] segments[k]).id != id
            },
            None => forall|k: int| 0 <= k < segments.len() ==> (#[trigger] segments[k]).id != id,
        },
    decreases segments.len(),
{
    if segments.len() == 0 || segments[0].id == id {
        0
    } else {
        let rest = segments.drop_first();
        let j = law_colours_go_by_id(rest, id);
        assert forall|k: int|
            0 <= k < segments.len() && (color_in(segments, id) is None || k < j + 1) implies (
        #[trigger] segments[k]).id != id by {
            if k > 0 {
                assert(rest[k - 1] == segments[k]);
            }
        }
        j + 1
    }
}

/// Taking a scene over keeps exactly the meshes that its nodes show. A mesh that still has as many
/// faces as labels keeps its labels; any other begins with all faces in no segment.
pub proof fn law_a_scene_keeps_what_fits(
    m: LabelMap,
    scene: Scene,
    nodes: Seq<Handle>,
    info: crate::scene::MeshInfo,
    tri: int,
)
    requires
        scene.mesh(info.handle) == Some(info),
        0 <= tri < info.index_count as int / 3,
    ensures
        ({
            let h = info.handle;
            let n = info.index_count as int / 3;
            let s = synced(m, scene, nodes);
            &&& s.contains_key(h) <==> exists|i: int|
                0 <= i < nodes.len() && (match scene.shown(#[trigger] nodes[i]) {
                    Some(x) => x.handle == h,
                    None => false,
                })
            &&& s.contains_key(h) ==> s[h].len() == n
            &&& s.contains_key(h) && m.contains_key(h) && m[h].len() == n ==> s[h][tri]
                == m[h][tri]
            &&& s.contains_key(h) && !(m.contains_key(h) && m[h].len() == n) ==> s[h][tri] == 0
        }),
{
    let h = info.handle;
    if is_shown(scene, nodes, h) {
        let i = choose|i: int| 0 <= i < nodes.len() && shows(scene, #[trigger] nodes[i], h);
        assert(match scene.shown(nodes[i]) {
            Some(x) => x.handle == h,
            None => false,
        });
    }
    if exists|i: int|
        0 <= i < nodes.len() && (match scene.shown(#[trigger] nodes[i]) {
            Some(x) => x.handle == h,
            None => false,
        }) {
        let i = choose|i: int|
            0 <= i < nodes.len() && (match scene.shown(#[trigger] nodes[i]) {
                Some(x) => x.handle == h,
                None => false,
            });
        assert(shows(scene, nodes[i], h));
    }
}

/// Segments are told apart by their colours, eight in turn, all half seen through.
pub proof fn law_colours_take_turns(n: nat, k: nat)
    requires
        0 < k < 8,
    ensures
        palette(n + 8) == palette(n),
        palette(n + k) != palette(n),
        palette(n).a == 0x3f00_0000,
{
    let a = n % 8;
    let b = (n + k) % 8;
    assert(a != b);
    assert((n + 8) % 8 == a);
    assert(a == 0 || a == 1 || a == 2 || a == 3 || a == 4 || a == 5 || a == 6 || a == 7);
    assert(b == 0 || b == 1 || b == 2 || b == 3 || b == 4 || b == 5 || b == 6 || b == 7);
}

} // verus!
