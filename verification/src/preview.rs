//! The view of the texture plane: which tiles it shows, their borders, and the edges of the
//! triangles.

use std::collections::HashMap;

use vstd::prelude::*;

use crate::mesh::Mesh;
use crate::paint::{PaintMap, Tile, FIRST_TILE};
use crate::painter::UvView;
use crate::scene::Handle;
use crate::uv::{udim_origin, Uv};

verus! {

broadcast use vstd::std_specs::hash::group_hash_axioms;

impl Default for UvView {
    /// The view at the start: the first mesh, with its edges, and everything in sight.
    fn default() -> (v: UvView)
        ensures
            v == (UvView { mesh_idx: 0, show_uv: true, needs_fit: true }),
    {
        UvView { mesh_idx: 0, show_uv: true, needs_fit: true }
    }
}

/// The tiles that are shown: those of a list, or the first one if there are none.
pub open spec fn shown_tiles(ids: Seq<u32>) -> Seq<u32> {
    if ids.len() == 0 {
        seq![FIRST_TILE]
    } else {
        ids
    }
}

/// The least and the greatest column and row of some tiles.
#[derive(Clone, Copy, Debug, PartialEq, Eq, Structural)]
pub struct TileSpan {
    pub left: u32,
    pub bottom: u32,
    pub right: u32,
    pub top: u32,
}

/// A span holds every tile of a list, and each of its sides is that of some tile.
pub open spec fn spans(s: TileSpan, ids: Seq<u32>) -> bool {
    &&& forall|i: int|
        0 <= i < ids.len() ==> {
            let o = crate::uv::origin_of(#[trigger] ids[i]);
            s.left <= o.0 <= s.right && s.bottom <= o.1 <= s.top
        }
    &&& exists|i: int| 0 <= i < ids.len() && crate::uv::origin_of(#[trigger] ids[i]).0 == s.left
    &&& exists|i: int| 0 <= i < ids.len() && crate::uv::origin_of(#[trigger] ids[i]).0 == s.right
    &&& exists|i: int| 0 <= i < ids.len() && crate::uv::origin_of(#[trigger] ids[i]).1 == s.bottom
    &&& exists|i: int| 0 <= i < ids.len() && crate::uv::origin_of(#[trigger] ids[i]).1 == s.top
}

proof fn lemma_spans_step(s: TileSpan, t: TileSpan, ids: Seq<u32>, i: int)
    requires
        0 < i < ids.len(),
        spans(s, ids.take(i)),
        ({
            let o = crate::uv::origin_of(ids[i]);
            &&& t.left == if o.0 < s.left { o.0 } else { s.left as int }
            &&& t.right == if o.0 > s.right { o.0 } else { s.right as int }
            &&& t.bottom == if o.1 < s.bottom { o.1 } else { s.bottom as int }
            &&& t.top == if o.1 > s.top { o.1 } else { s.top as int }
        }),
    ensures
        spans(t, ids.take(i + 1)),
{
    let was = ids.take(i);
    let now = ids.take(i + 1);
    assert(now[i] == ids[i]);
    let a = choose|k: int| 0 <= k < was.len() && crate::uv::origin_of(#[trigger] was[k]).0 == s.left;
    let b = choose|k: int| 0 <= k < was.len() && crate::uv::origin_of(#[trigger] was[k]).0 == s.right;
    let c = choose|k: int|
        0 <= k < was.len() && crate::uv::origin_of(#[trigger] was[k]).1 == s.bottom;
    let d = choose|k: int| 0 <= k < was.len() && crate::uv::origin_of(#[trigger] was[k]).1 == s.top;
    assert(now[a] == was[a] && now[b] == was[b] && now[c] == was[c] && now[d] == was[d]);
    assert forall|k: int| 0 <= k < now.len() implies {
        let o = crate::uv::origin_of(#[trigger] now[k]);
        t.left <= o.0 <= t.right && t.bottom <= o.1 <= t.top
    } by {
        if k < i {
            assert(now[k] == was[k]);
        }
    }
}

/// The span of the tiles that are shown.
pub fn tile_span(ids: &Vec<u32>) -> (s: TileSpan)
    ensures
        spans(s, shown_tiles(ids@)),
{
    if ids.len() == 0 {
        let o: [u32; 2] = udim_origin(FIRST_TILE);
        let ghost all = shown_tiles(ids@);
        assert(crate::uv::origin_of(all[0]) == (o[0] as int, o[1] as int));
        return TileSpan { left: o[0], bottom: o[1], right: o[0], top: o[1] };
    }
    let o: [u32; 2] = udim_origin(ids[0]);
    let mut s = TileSpan { left: o[0], bottom: o[1], right: o[0], top: o[1] };
    assert(spans(s, ids@.take(1))) by {
        assert(crate::uv::origin_of(ids@.take(1)[0]) == (o[0] as int, o[1] as int));
    }
    let mut i: usize = 1;
    while i < ids.len()
        invariant
            0 < i <= ids@.len(),
            spans(s, ids@.take(i as int)),
        decreases ids@.len() - i,
    {
        let o: [u32; 2] = udim_origin(ids[i]);
        let ghost before = s;
        if o[0] < s.left {
            s.left = o[0];
        }
        if o[0] > s.right {
            s.right = o[0];
        }
        if o[1] < s.bottom {
            s.bottom = o[1];
        }
        if o[1] > s.top {
            s.top = o[1];
        }
        proof {
            lemma_spans_step(before, s, ids@, i as int);
        }
        i += 1;
    }
    assert(ids@.take(i as int) =~= ids@);
    s
}

/// A corner of a tile: its origin, or one further to the right or up.
#[derive(Clone, Copy, Debug, PartialEq, Eq, Structural)]
pub struct Corner {
    pub column: u32,
    pub row: u32,
    pub right: bool,
    pub up: bool,
}

/// A corner of a tile.
pub open spec fn corner_of(id: u32, right: bool, up: bool) -> Corner {
    Corner {
        column: crate::uv::origin_of(id).0 as u32,
        row: crate::uv::origin_of(id).1 as u32,
        right,
        up,
    }
}

/// The two triangles of a tile.
pub open spec fn quad_of(id: u32) -> Seq<Corner> {
    seq![
        corner_of(id, false, false),
        corner_of(id, true, false),
        corner_of(id, true, true),
        corner_of(id, false, false),
        corner_of(id, true, true),
        corner_of(id, false, true),
    ]
}

/// The two triangles of a tile.
pub fn tile_quad(id: u32) -> (quad: Vec<Corner>)
    ensures
        quad@ == quad_of(id),
{
    let o: [u32; 2] = udim_origin(id);
    let a = Corner { column: o[0], row: o[1], right: false, up: false };
    let b = Corner { column: o[0], row: o[1], right: true, up: false };
    let c = Corner { column: o[0], row: o[1], right: true, up: true };
    let d = Corner { column: o[0], row: o[1], right: false, up: true };
    let mut quad: Vec<Corner> = Vec::new();
    quad.push(a);
    quad.push(b);
    quad.push(c);
    quad.push(a);
    quad.push(c);
    quad.push(d);
    assert(quad@ =~= quad_of(id));
    quad
}

/// The four sides of a tile, by their ends.
pub open spec fn outline_of(id: u32) -> Seq<Corner> {
    let a = corner_of(id, false, false);
    let b = corner_of(id, true, false);
    let c = corner_of(id, true, true);
    let d = corner_of(id, false, true);
    seq![a, b, b, c, c, d, d, a]
}

/// The sides of some tiles, by their ends.
pub open spec fn outlines(ids: Seq<u32>) -> Seq<Corner>
    decreases ids.len(),
{
    if ids.len() == 0 {
        Seq::empty()
    } else {
        outlines(ids.drop_last()) + outline_of(ids.last())
    }
}

/// The sides of some tiles, by their ends.
pub fn tile_borders(ids: &Vec<u32>) -> (ends: Vec<Corner>)
    ensures
        ends@ == outlines(ids@),
{
    let mut ends: Vec<Corner> = Vec::new();
    let mut i: usize = 0;
    assert(outlines(ids@.take(0)) =~= Seq::empty());
    while i < ids.len()
        invariant
            i <= ids@.len(),
            ends@ == outlines(ids@.take(i as int)),
        decreases ids@.len() - i,
    {
        assert(ids@.take(i + 1).drop_last() =~= ids@.take(i as int));
        let o: [u32; 2] = udim_origin(ids[i]);
        let a = Corner { column: o[0], row: o[1], right: false, up: false };
        let b = Corner { column: o[0], row: o[1], right: true, up: false };
        let c = Corner { column: o[0], row: o[1], right: true, up: true };
        let d = Corner { column: o[0], row: o[1], right: false, up: true };
        let ghost before = ends@;
        ends.push(a);
        ends.push(b);
        ends.push(b);
        ends.push(c);
        ends.push(c);
        ends.push(d);
        ends.push(d);
        ends.push(a);
        assert(ends@ =~= before + outline_of(ids@[i as int]));
        i += 1;
    }
    assert(ids@.take(i as int) =~= ids@);
    ends
}

/// The edges of a triangle, by their ends: none if one of its corners has no texture coordinates.
pub open spec fn edges_of(uvs: Seq<Uv>, indices: Seq<u32>, tri: int) -> Seq<Uv> {
    let a = indices[3 * tri];
    let b = indices[3 * tri + 1];
    let c = indices[3 * tri + 2];
    if a < uvs.len() && b < uvs.len() && c < uvs.len() {
        let a = uvs[a as int];
        let b = uvs[b as int];
        let c = uvs[c as int];
        seq![a, b, b, c, c, a]
    } else {
        Seq::empty()
    }
}

/// The edges of the first `n` triangles.
pub open spec fn edges_upto(uvs: Seq<Uv>, indices: Seq<u32>, n: nat) -> Seq<Uv>
    decreases n,
{
    if n == 0 {
        Seq::empty()
    } else {
        edges_upto(uvs, indices, (n - 1) as nat) + edges_of(uvs, indices, n - 1)
    }
}

/// The edges of all triangles of a mesh on the texture plane.
pub open spec fn all_edges(mesh: Mesh) -> Seq<Uv> {
    if mesh.uvs@.len() == 0 {
        Seq::empty()
    } else {
        edges_upto(mesh.uvs@[0]@, mesh.indices@, mesh.indices@.len() / 3)
    }
}

/// The edges of all triangles of a mesh on the texture plane, by their ends.
pub fn uv_wires(mesh: &Mesh) -> (ends: Vec<Uv>)
    ensures
        ends@ == all_edges(*mesh),
{
    let mut ends: Vec<Uv> = Vec::new();
    if mesh.uvs.len() == 0 {
        return ends;
    }
    let uvs: &Vec<Uv> = &mesh.uvs[0];
    let n: usize = mesh.indices.len() / 3;
    let mut t: usize = 0;
    while t < n
        invariant
            t <= n,
            n == mesh.indices@.len() / 3,
            ends@ == edges_upto(uvs@, mesh.indices@, t as nat),
        decreases n - t,
    {
        assert(3 * t + 2 < mesh.indices.len());
        let a: usize = mesh.indices[3 * t] as usize;
        let b: usize = mesh.indices[3 * t + 1] as usize;
        let c: usize = mesh.indices[3 * t + 2] as usize;
        let ghost before = ends@;
        if a < uvs.len() && b < uvs.len() && c < uvs.len() {
            ends.push(uvs[a]);
            ends.push(uvs[b]);
            ends.push(uvs[b]);
            ends.push(uvs[c]);
            ends.push(uvs[c]);
            ends.push(uvs[a]);
        }
        assert(ends@ =~= before + edges_of(uvs@, mesh.indices@, t as int));
        t += 1;
    }
    ends
}

/// Whether the edges of a mesh have to be made anew: they are not there in its version. The
/// version is taken down.
pub fn sync_wires(have: &mut HashMap<u64, u64>, mesh: Handle, version: u64) -> (rebuild: bool)
    ensures
        final(have)@ == old(have)@.insert(mesh.code() as u64, version),
        rebuild == !(old(have)@.contains_key(mesh.code() as u64) && old(have)@[mesh.code() as u64]
            == version),
{
    let code: u64 = mesh.packed();
    let current = match have.get(&code) {
        Some(v) => *v == version,
        None => false,
    };
    have.insert(code, version);
    !current
}

/// Which channel of a texture is shown: all, or the one that holds the number.
pub open spec fn shown_channel(map: PaintMap) -> u32 {
    match map {
        PaintMap::Roughness => 1u32,
        PaintMap::Metallic => 2u32,
        _ => 0u32,
    }
}

/// Which channel of a texture is shown: all, or the one that holds the number.
pub fn preview_channel(map: PaintMap) -> (c: u32)
    ensures
        c == shown_channel(map),
{
    match map {
        PaintMap::Roughness => 1,
        PaintMap::Metallic => 2,
        _ => 0,
    }
}

/// The tiles that are shown, each with its texture if it has one.
pub fn preview_tiles(ids: &Vec<u32>, tiles: &Vec<Tile>) -> (out: Vec<(u32, Option<Handle>)>)
    ensures
        out@ == shown_tiles(ids@).map_values(
            |id: u32| (id, crate::frame::tile_texture(tiles@, id)),
        ),
{
    let mut out: Vec<(u32, Option<Handle>)> = Vec::new();
    if ids.len() == 0 {
        out.push((FIRST_TILE, crate::frame::find_tile(tiles, FIRST_TILE)));
    }
    let mut i: usize = 0;
    while i < ids.len()
        invariant
            i <= ids@.len(),
            out@.len() == if ids@.len() == 0 { 1 } else { i as nat },
            forall|k: int|
                0 <= k < out@.len() ==> #[trigger] out@[k] == (
                    shown_tiles(ids@)[k],
                    crate::frame::tile_texture(tiles@, shown_tiles(ids@)[k]),
                ),
        decreases ids@.len() - i,
    {
        out.push((ids[i], crate::frame::find_tile(tiles, ids[i])));
        i += 1;
    }
    assert(out@ =~= shown_tiles(ids@).map_values(
        |id: u32| (id, crate::frame::tile_texture(tiles@, id)),
    ));
    out
}

/// The corners of the two triangles of a tile lie at its column and row, which count from 1001
/// in rows of ten: both triangles go around the tile from its origin in the same sense, and share
/// their long side.
pub proof fn law_a_tile_is_two_triangles(id: u32, i: int)
    requires
        id >= 1001,
        0 <= i < 6,
    ensures
        ({
            let q = quad_of(id);
            &&& q.len() == 6
            &&& q[i].column == (id - 1001) % 10 && q[i].row == (id - 1001) / 10
            &&& !q[0].right && !q[0].up && q[3] == q[0]
            &&& q[1].right && !q[1].up
            &&& q[2].right && q[2].up && q[4] == q[2]
            &&& !q[5].right && q[5].up
        }),
{
}

/// The border of a tile is a closed line of four sides around it: each side begins where the last
/// one ended, and runs along one direction only.
pub proof fn law_borders_are_closed(id: u32, k: int)
    requires
        id >= 1001,
        0 <= k < 4,
    ensures
        ({
            let o = outline_of(id);
            let a = o[2 * k];
            let b = o[2 * k + 1];
            &&& o.len() == 8
            &&& b == o[(2 * k + 2) % 8]
            &&& a.column == (id - 1001) % 10 && a.row == (id - 1001) / 10
            &&& b.column == a.column && b.row == a.row
            &&& (a.right != b.right) != (a.up != b.up)
            &&& k == 0 ==> !a.right && !a.up && b.right
            &&& k == 1 ==> b.up
        }),
{
    if k == 0 {
    } else if k == 1 {
    } else if k == 2 {
    } else {
        assert(k == 3);
    }
}

/// The borders of two lists of tiles are those of the first and then those of the second.
pub proof fn law_borders_follow_the_tiles(a: Seq<u32>, b: Seq<u32>)
    ensures
        outlines(a + b) == outlines(a) + outlines(b),
    decreases b.len(),
{
    if b.len() == 0 {
        assert(a + b =~= a);
        assert(outlines(a) + outlines(b) =~= outlines(a));
    } else {
        law_borders_follow_the_tiles(a, b.drop_last());
        assert((a + b).drop_last() =~= a + b.drop_last());
        assert((a + b).last() == b.last());
        assert(outlines(a) + (outlines(b.drop_last()) + outline_of(b.last())) =~= (outlines(a)
            + outlines(b.drop_last())) + outline_of(b.last()));
    }
}

/// Where every corner has texture coordinates, each triangle has three edges, which run around it
/// from corner to corner, and the edges of the triangles follow each other.
pub proof fn law_edges_run_around_triangles(mesh: Mesh, t: int, c: int)
    requires
        mesh.uvs@.len() > 0,
        forall|i: int|
            0 <= i < mesh.indices@.len() ==> (#[trigger] mesh.indices@[i]) < mesh.uvs@[0]@.len(),
        0 <= t < mesh.indices@.len() / 3,
        0 <= c < 3,
    ensures
        ({
            let e = all_edges(mesh);
            let uv = mesh.uvs@[0]@;
            &&& e.len() == 6 * (mesh.indices@.len() / 3)
            &&& e[6 * t + 2 * c] == uv[mesh.indices@[3 * t + c] as int]
            &&& e[6 * t + 2 * c + 1] == uv[mesh.indices@[3 * t + (c + 1) % 3] as int]
        }),
{
    lemma_edges(mesh.uvs@[0]@, mesh.indices@, mesh.indices@.len() / 3, t, c);
}

proof fn lemma_edges(uvs: Seq<Uv>, indices: Seq<u32>, n: nat, t: int, c: int)
    requires
        forall|i: int| 0 <= i < indices.len() ==> (#[trigger] indices[i]) < uvs.len(),
        n <= indices.len() / 3,
        0 <= c < 3,
    ensures
        edges_upto(uvs, indices, n).len() == 6 * n,
        0 <= t < n ==> {
            let e = edges_upto(uvs, indices, n);
            &&& e[6 * t + 2 * c] == uvs[indices[3 * t + c] as int]
            &&& e[6 * t + 2 * c + 1] == uvs[indices[3 * t + (c + 1) % 3] as int]
        },
    decreases n,
{
    if n > 0 {
        lemma_edges(uvs, indices, (n - 1) as nat, t, c);
        let k = n - 1;
        assert(indices[3 * k] < uvs.len());
        assert(indices[3 * k + 1] < uvs.len());
        assert(indices[3 * k + 2] < uvs.len());
        if t == k {
            if c == 0 {
            } else if c == 1 {
            } else {
                assert(c == 2);
            }
        }
    }
}

/// A map that writes one channel is shown by that channel; a map that writes all of them is shown
/// whole.
pub proof fn law_what_is_written_is_shown(map: PaintMap)
    ensures
        ({
            let c = map.channels();
            let one = 0x3f80_0000u32;
            &&& c.r == one && c.g == one && c.b == one <==> shown_channel(map) == 0
            &&& c.r != one && c.g == one && c.b != one <==> shown_channel(map) == 1
            &&& c.r != one && c.g != one && c.b == one <==> shown_channel(map) == 2
        }),
{
}

/// The tiles that are shown are those of the list, or the tile 1001 where there are none.
pub proof fn law_some_tile_is_shown(ids: Seq<u32>)
    ensures
        shown_tiles(ids).len() > 0,
        ids.len() > 0 ==> shown_tiles(ids) == ids,
        ids.len() == 0 ==> shown_tiles(ids) == seq![1001u32],
{
}

} // verus!
