//! Mesh data as columns of bit patterns, and the splitting of shared vertices.

use vstd::prelude::*;

use crate::bits::{ONE, ZERO};
use crate::uv::Uv;

verus! {

/// One morph target.
pub struct MorphTarget {
    pub position_deltas: Vec<[u32; 3]>,
    pub normal_deltas: Vec<[u32; 3]>,
}

/// The columns of a triangle mesh, all numbers by their bit patterns. Three indices in a row make
/// a triangle.
pub struct Mesh {
    pub positions: Vec<[u32; 3]>,
    pub normals: Vec<[u32; 3]>,
    pub tangents: Vec<[u32; 4]>,
    pub uvs: Vec<Vec<Uv>>,
    pub colors: Vec<Vec<[u32; 4]>>,
    pub joints: Vec<Vec<[u16; 4]>>,
    pub weights: Vec<Vec<[u32; 4]>>,
    pub indices: Vec<u32>,
    pub basis_positions: Vec<[u32; 3]>,
    pub basis_normals: Vec<[u32; 3]>,
    pub morph_targets: Vec<MorphTarget>,
}

/// A column read along a list of indices; where it is too short, the fallback is taken.
pub open spec fn expanded<T>(src: Seq<T>, indices: Seq<u32>, fallback: T) -> Seq<T> {
    indices.map_values(
        |i: u32|
            if i < src.len() {
                src[i as int]
            } else {
                fallback
            },
    )
}

/// Several columns, each read along a list of indices.
pub open spec fn all_expanded<T>(
    new: Seq<Vec<T>>,
    src: Seq<Vec<T>>,
    indices: Seq<u32>,
    fallback: T,
) -> bool {
    &&& new.len() == src.len()
    &&& forall|c: int|
        0 <= c < src.len() ==> (#[trigger] new[c])@ == expanded(src[c]@, indices, fallback)
}

/// An optional column: it stays empty, or is read along a list of indices.
pub open spec fn expanded_if_any<T>(src: Seq<T>, indices: Seq<u32>, fallback: T) -> Seq<T> {
    if src.len() == 0 {
        src
    } else {
        expanded(src, indices, fallback)
    }
}

/// Reads a column along a list of indices.
pub fn expand<T: Copy>(src: &Vec<T>, indices: &Vec<u32>, fallback: T) -> (out: Vec<T>)
    ensures
        out@ == expanded(src@, indices@, fallback),
{
    let mut out: Vec<T> = Vec::new();
    let mut i: usize = 0;
    while i < indices.len()
        invariant
            i <= indices@.len(),
            out@ =~= expanded(src@, indices@, fallback).take(i as int),
        decreases indices@.len() - i,
    {
        let at: usize = indices[i] as usize;
        if at < src.len() {
            out.push(src[at]);
        } else {
            out.push(fallback);
        }
        i += 1;
    }
    assert(out@ =~= expanded(src@, indices@, fallback));
    out
}

fn expand_all<T: Copy>(src: &Vec<Vec<T>>, indices: &Vec<u32>, fallback: T) -> (out: Vec<Vec<T>>)
    ensures
        all_expanded(out@, src@, indices@, fallback),
{
    let mut out: Vec<Vec<T>> = Vec::new();
    let mut c: usize = 0;
    while c < src.len()
        invariant
            c <= src@.len(),
            out@.len() == c,
            forall|k: int|
                0 <= k < c ==> (#[trigger] out@[k])@ == expanded(src@[k]@, indices@, fallback),
        decreases src@.len() - c,
    {
        out.push(expand(&src[c], indices, fallback));
        c += 1;
    }
    out
}

fn expand_if_any<T: Copy>(src: &Vec<T>, indices: &Vec<u32>, fallback: T) -> (out: Vec<T>)
    ensures
        out@ == expanded_if_any(src@, indices@, fallback),
{
    if src.len() == 0 {
        let out: Vec<T> = Vec::new();
        assert(out@ =~= src@);
        out
    } else {
        expand(src, indices, fallback)
    }
}

fn first<T: Copy>(src: &Vec<T>, n: usize) -> (out: Vec<T>)
    requires
        n <= src@.len(),
    ensures
        out@ == src@.take(n as int),
{
    let mut out: Vec<T> = Vec::new();
    let mut i: usize = 0;
    while i < n
        invariant
            i <= n,
            n <= src@.len(),
            out@ =~= src@.take(i as int),
        decreases n - i,
    {
        out.push(src[i]);
        i += 1;
    }
    out
}

/// Several morph targets, each read along a list of indices.
pub open spec fn targets_expanded(
    new: Seq<MorphTarget>,
    src: Seq<MorphTarget>,
    indices: Seq<u32>,
) -> bool {
    &&& new.len() == src.len()
    &&& forall|t: int|
        0 <= t < src.len() ==> {
            &&& (#[trigger] new[t]).position_deltas@ == expanded_if_any(
                src[t].position_deltas@,
                indices,
                [ZERO, ZERO, ZERO],
            )
            &&& new[t].normal_deltas@ == expanded_if_any(
                src[t].normal_deltas@,
                indices,
                [ZERO, ZERO, ZERO],
            )
        }
}

/// The texture coordinates of a split mesh: the first set is new, the others are read along the
/// indices.
pub open spec fn uvs_expanded(
    new: Seq<Vec<Uv>>,
    src: Seq<Vec<Uv>>,
    indices: Seq<u32>,
    corner_uv: Seq<Uv>,
) -> bool {
    &&& new.len() == if src.len() == 0 {
        1
    } else {
        src.len()
    }
    &&& new[0]@ == corner_uv
    &&& forall|c: int|
        1 <= c < src.len() ==> (#[trigger] new[c])@ == expanded(src[c]@, indices, [ZERO, ZERO])
}

/// The numbers from zero on.
pub open spec fn counting(n: nat) -> Seq<u32> {
    Seq::new(n, |i: int| i as u32)
}

impl Mesh {
    /// The mesh `new` is this mesh with a vertex of its own for each of the first corners, and
    /// with the given texture coordinates.
    pub open spec fn split_into(self, corner_uv: Seq<Uv>, new: Mesh) -> bool {
        let n = if corner_uv.len() < self.indices@.len() {
            corner_uv.len()
        } else {
            self.indices@.len()
        };
        let idx = self.indices@.take(n as int);
        &&& new.positions@ == expanded(self.positions@, idx, [ZERO, ZERO, ZERO])
        &&& new.normals@ == expanded(self.normals@, idx, [ZERO, ONE, ZERO])
        &&& new.tangents@ == expanded(self.tangents@, idx, [ONE, ZERO, ZERO, ONE])
        &&& uvs_expanded(new.uvs@, self.uvs@, idx, corner_uv.take(n as int))
        &&& all_expanded(new.colors@, self.colors@, idx, [ONE, ONE, ONE, ONE])
        &&& all_expanded(new.joints@, self.joints@, idx, [0u16, 0u16, 0u16, 0u16])
        &&& all_expanded(new.weights@, self.weights@, idx, [ZERO, ZERO, ZERO, ZERO])
        &&& new.basis_positions@ == expanded_if_any(
            self.basis_positions@,
            idx,
            [ZERO, ZERO, ZERO],
        )
        &&& new.basis_normals@ == expanded_if_any(self.basis_normals@, idx, [ZERO, ONE, ZERO])
        &&& targets_expanded(new.morph_targets@, self.morph_targets@, idx)
        &&& new.indices@ == counting((n as u32) as nat)
    }
}

fn count_up(n: u32) -> (out: Vec<u32>)
    ensures
        out@ == counting(n as nat),
{
    let mut out: Vec<u32> = Vec::new();
    let mut i: u32 = 0;
    while i < n
        invariant
            i <= n,
            out@ =~= counting(i as nat),
        decreases n - i,
    {
        out.push(i);
        i += 1;
    }
    out
}

/// Gives each of the first corners a vertex of its own, with the given texture coordinates. Says
/// whether the mesh changed: without corners it does not.
pub fn expand_mesh(mesh: &mut Mesh, corner_uv: &Vec<Uv>) -> (changed: bool)
    ensures
        changed == (corner_uv@.len() > 0 && old(mesh).indices@.len() > 0),
        !changed ==> *final(mesh) == *old(mesh),
        changed ==> old(mesh).split_into(corner_uv@, *final(mesh)),
{
    let all: usize = mesh.indices.len();
    let n: usize = if corner_uv.len() < all {
        corner_uv.len()
    } else {
        all
    };
    if n == 0 {
        return false;
    }
    let idx: Vec<u32> = first(&mesh.indices, n);
    let corners: Vec<Uv> = first(corner_uv, n);
    let positions = expand(&mesh.positions, &idx, [ZERO, ZERO, ZERO]);
    let normals = expand(&mesh.normals, &idx, [ZERO, ONE, ZERO]);
    let tangents = expand(&mesh.tangents, &idx, [ONE, ZERO, ZERO, ONE]);
    let mut uvs: Vec<Vec<Uv>> = Vec::new();
    uvs.push(corners);
    let mut c: usize = 1;
    while c < mesh.uvs.len()
        invariant
            1 <= c,
            c <= mesh.uvs@.len() || c == 1,
            uvs@.len() == c,
            uvs@[0]@ == corner_uv@.take(n as int),
            forall|k: int|
                1 <= k < c ==> (#[trigger] uvs@[k])@ == expanded(
                    mesh.uvs@[k]@,
                    idx@,
                    [ZERO, ZERO],
                ),
        decreases mesh.uvs@.len() - c,
    {
        uvs.push(expand(&mesh.uvs[c], &idx, [ZERO, ZERO]));
        c += 1;
    }
    let colors = expand_all(&mesh.colors, &idx, [ONE, ONE, ONE, ONE]);
    let joints = expand_all(&mesh.joints, &idx, [0u16, 0u16, 0u16, 0u16]);
    let weights = expand_all(&mesh.weights, &idx, [ZERO, ZERO, ZERO, ZERO]);
    let basis_positions = expand_if_any(&mesh.basis_positions, &idx, [ZERO, ZERO, ZERO]);
    let basis_normals = expand_if_any(&mesh.basis_normals, &idx, [ZERO, ONE, ZERO]);
    let mut morph_targets: Vec<MorphTarget> = Vec::new();
    let mut t: usize = 0;
    while t < mesh.morph_targets.len()
        invariant
            t <= mesh.morph_targets@.len(),
            morph_targets@.len() == t,
            forall|k: int|
                0 <= k < t ==> {
                    &&& (#[trigger] morph_targets@[k]).position_deltas@ == expanded_if_any(
                        mesh.morph_targets@[k].position_deltas@,
                        idx@,
                        [ZERO, ZERO, ZERO],
                    )
                    &&& morph_targets@[k].normal_deltas@ == expanded_if_any(
                        mesh.morph_targets@[k].normal_deltas@,
                        idx@,
                        [ZERO, ZERO, ZERO],
                    )
                },
        decreases mesh.morph_targets@.len() - t,
    {
        let target = MorphTarget {
            position_deltas: expand_if_any(
                &mesh.morph_targets[t].position_deltas,
                &idx,
                [ZERO, ZERO, ZERO],
            ),
            normal_deltas: expand_if_any(
                &mesh.morph_targets[t].normal_deltas,
                &idx,
                [ZERO, ZERO, ZERO],
            ),
        };
        morph_targets.push(target);
        t += 1;
    }
    let indices = count_up(n as u32);
    *mesh = Mesh {
        positions,
        normals,
        tangents,
        uvs,
        colors,
        joints,
        weights,
        indices,
        basis_positions,
        basis_normals,
        morph_targets,
    };
    true
}

/// Splitting a mesh keeps its triangles: corner `c` of the new mesh is where corner `c` was.
pub proof fn law_split_keeps_corners(mesh: Mesh, corner_uv: Seq<Uv>, new: Mesh, c: int)
    requires
        mesh.split_into(corner_uv, new),
        0 <= c < corner_uv.len(),
        corner_uv.len() <= mesh.indices@.len() <= u32::MAX,
        mesh.indices@[c] < mesh.positions@.len(),
    ensures
        new.indices@.len() == corner_uv.len(),
        new.indices@[c] == c,
        new.positions@[new.indices@[c] as int] == mesh.positions@[mesh.indices@[c] as int],
        new.uvs@[0]@[new.indices@[c] as int] == corner_uv[c],
{
}

/// A corner of a split mesh is what its vertex was, in every column: where a column is too short,
/// it points up, its tangent runs along the first axis, it is white, and no bone moves it. A column
/// that was empty and is not needed stays empty.
pub proof fn law_split_corners_are_what_their_vertices_were(
    mesh: Mesh,
    corner_uv: Seq<Uv>,
    new: Mesh,
    c: int,
    set: int,
)
    requires
        mesh.split_into(corner_uv, new),
        0 <= c < corner_uv.len(),
        corner_uv.len() <= mesh.indices@.len(),
    ensures
        ({
            let v = mesh.indices@[c] as int;
            &&& new.positions@.len() == corner_uv.len()
            &&& new.positions@[c] == (if v < mesh.positions@.len() {
                mesh.positions@[v]
            } else {
                [0u32, 0, 0]
            })
            &&& new.normals@[c] == (if v < mesh.normals@.len() {
                mesh.normals@[v]
            } else {
                [0u32, 0x3f80_0000, 0]
            })
            &&& new.tangents@[c] == (if v < mesh.tangents@.len() {
                mesh.tangents@[v]
            } else {
                [0x3f80_0000u32, 0, 0, 0x3f80_0000]
            })
            &&& new.uvs@[0]@[c] == corner_uv[c]
            &&& 1 <= set < mesh.uvs@.len() ==> new.uvs@[set]@[c] == (if v
                < mesh.uvs@[set]@.len() {
                mesh.uvs@[set]@[v]
            } else {
                [0u32, 0]
            })
            &&& 0 <= set < mesh.colors@.len() ==> new.colors@[set]@[c] == (if v
                < mesh.colors@[set]@.len() {
                mesh.colors@[set]@[v]
            } else {
                [0x3f80_0000u32, 0x3f80_0000, 0x3f80_0000, 0x3f80_0000]
            })
            &&& 0 <= set < mesh.joints@.len() ==> new.joints@[set]@[c] == (if v
                < mesh.joints@[set]@.len() {
                mesh.joints@[set]@[v]
            } else {
                [0u16, 0, 0, 0]
            })
            &&& 0 <= set < mesh.weights@.len() ==> new.weights@[set]@[c] == (if v
                < mesh.weights@[set]@.len() {
                mesh.weights@[set]@[v]
            } else {
                [0u32, 0, 0, 0]
            })
            &&& mesh.basis_positions@.len() == 0 ==> new.basis_positions@.len() == 0
            &&& v < mesh.basis_positions@.len() ==> new.basis_positions@[c]
                == mesh.basis_positions@[v]
            &&& mesh.basis_normals@.len() == 0 ==> new.basis_normals@.len() == 0
            &&& v < mesh.basis_normals@.len() ==> new.basis_normals@[c] == mesh.basis_normals@[v]
            &&& 0 < mesh.basis_normals@.len() <= v ==> new.basis_normals@[c] == [
                0u32,
                0x3f80_0000,
                0,
            ]
            &&& 0 <= set < mesh.morph_targets@.len() ==> {
                let a = mesh.morph_targets@[set];
                let b = new.morph_targets@[set];
                &&& v < a.position_deltas@.len() ==> b.position_deltas@[c] == a.position_deltas@[v]
                &&& v < a.normal_deltas@.len() ==> b.normal_deltas@[c] == a.normal_deltas@[v]
                &&& 0 < a.position_deltas@.len() <= v ==> b.position_deltas@[c] == [0u32, 0, 0]
                &&& 0 < a.normal_deltas@.len() <= v ==> b.normal_deltas@[c] == [0u32, 0, 0]
                &&& a.position_deltas@.len() == 0 ==> b.position_deltas@.len() == 0
                &&& a.normal_deltas@.len() == 0 ==> b.normal_deltas@.len() == 0
            }
            &&& new.uvs@.len() == (if mesh.uvs@.len() == 0 {
                1
            } else {
                mesh.uvs@.len()
            })
            &&& new.colors@.len() == mesh.colors@.len() && new.joints@.len() == mesh.joints@.len()
            &&& new.weights@.len() == mesh.weights@.len() && new.morph_targets@.len()
                == mesh.morph_targets@.len()
        }),
{
    let n = corner_uv.len() as int;
    let idx = mesh.indices@.take(n);
    assert(idx[c] == mesh.indices@[c]);
    assert(corner_uv.take(n)[c] == corner_uv[c]);
}

} // verus!
