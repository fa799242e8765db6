//! The automatic unwrap: every triangle is laid flat on its own, and the flat triangles of a tile
//! are packed in rows.

use std::collections::HashMap;

use vstd::prelude::*;

use crate::bits::{larger, less, order_key, upper, HALF, ZERO};
use crate::mesh::{expand_mesh, Mesh};
use crate::sort::descending_order;
use crate::tables::keys_of;
use crate::uv::{udim_origin, Uv};

verus! {

broadcast use vstd::std_specs::hash::group_hash_axioms;

/// Sizes below this, 1e-12, count as nothing.
pub const TINY: u32 = 0x2b8c_bccc;

/// A triangle laid flat: its corners and the room it takes.
#[derive(Clone, Copy)]
pub struct Island {
    pub uv: [Uv; 3],
    pub size: Uv,
}

/// The arithmetic that the unwrap needs, on bit patterns.
pub trait TriMath {
    /// Lays a triangle flat.
    fn project(&self, p: [[u32; 3]; 3]) -> Island;

    /// How wide the rows are in which islands of these sizes are packed.
    fn bin_width(&self, sizes: &Vec<Uv>) -> u32;

    /// The sum of two numbers.
    fn plus(&self, a: u32, b: u32) -> u32;

    /// The factor that brings what was used of the plane into a tile.
    fn scale(&self, used: Uv) -> u32;

    /// A corner of an island moved to its place and scaled.
    fn place(&self, uv: Uv, origin: Uv, scale: u32) -> Uv;
}

/// A way to unwrap triangles.
pub trait UnwrapAlgo {
    /// The name of the way.
    fn name(&self) -> &'static str;

    /// Texture coordinates from zero to one for the given triangles, in their order.
    fn unwrap_tris(
        &self,
        positions: &Vec<[u32; 3]>,
        indices: &Vec<u32>,
        tris: &Vec<u32>,
    ) -> Vec<[Uv; 3]>;
}

/// Packs every triangle on its own, in rows.
pub struct TriPack<M: TriMath> {
    pub math: M,
}

/// The centre of a tile.
pub open spec fn centre() -> Uv {
    [HALF, HALF]
}

/// An island that takes no room.
pub open spec fn no_island() -> Island {
    Island { uv: [centre(), centre(), centre()], size: [ZERO, ZERO] }
}

/// The corners of a triangle, if all of them exist.
pub open spec fn corners_of(positions: Seq<[u32; 3]>, indices: Seq<u32>, tri: int) -> Option<
    [[u32; 3]; 3],
> {
    if 0 <= tri && 3 * tri + 2 < indices.len() && indices[3 * tri] < positions.len() && indices[3
        * tri + 1] < positions.len() && indices[3 * tri + 2] < positions.len() {
        Some(
            [
                positions[indices[3 * tri] as int],
                positions[indices[3 * tri + 1] as int],
                positions[indices[3 * tri + 2] as int],
            ],
        )
    } else {
        None
    }
}

/// The corners of a triangle, if all of them exist.
pub fn tri_pts(positions: &Vec<[u32; 3]>, indices: &Vec<u32>, ti: u32) -> (p: Option<[[u32; 3]; 3]>)
    ensures
        p == corners_of(positions@, indices@, ti as int),
{
    let n: usize = indices.len();
    let base: usize = match (ti as usize).checked_mul(3) {
        Some(b) => b,
        None => {
            return None;
        },
    };
    if n < 3 || base > n - 3 {
        return None;
    }
    let i0: usize = indices[base] as usize;
    let i1: usize = indices[base + 1] as usize;
    let i2: usize = indices[base + 2] as usize;
    if i0 < positions.len() && i1 < positions.len() && i2 < positions.len() {
        Some([positions[i0], positions[i1], positions[i2]])
    } else {
        None
    }
}

/// An island of a triangle: the triangle laid flat, or nothing if a corner is missing.
pub open spec fn is_island<M: TriMath>(
    math: M,
    positions: Seq<[u32; 3]>,
    indices: Seq<u32>,
    tri: u32,
    island: Island,
) -> bool {
    match corners_of(positions, indices, tri as int) {
        Some(p) => call_ensures(M::project, (&math, p), island),
        None => island == no_island(),
    }
}

/// Both sides of an island are tiny.
pub open spec fn is_tiny(size: Uv) -> bool {
    crate::bits::is_less(crate::bits::upper_of(size[0], size[1]), TINY)
}

/// The pen with which islands are laid out: where the row goes on, where it is, how high it is,
/// and how much of the plane was used.
#[derive(Clone, Copy, Debug, PartialEq, Eq, Structural)]
pub struct Shelf {
    pub x: u32,
    pub y: u32,
    pub row: u32,
    pub used_x: u32,
    pub used_y: u32,
}

/// The pen at the beginning.
pub open spec fn empty_shelf() -> Shelf {
    Shelf { x: ZERO, y: ZERO, row: ZERO, used_x: ZERO, used_y: ZERO }
}

/// A sum that the arithmetic gives.
pub open spec fn sums<M: TriMath>(math: M, a: u32, b: u32, r: u32) -> bool {
    call_ensures(M::plus, (&math, a, b), r)
}

/// The pen before an island is laid down: an island that would stick out of a row that has been
/// begun starts a new one.
pub open spec fn breaks_row<M: TriMath>(
    math: M,
    before: Shelf,
    size: Uv,
    bin: u32,
    start: Shelf,
) -> bool {
    if crate::bits::is_less(ZERO, before.x) {
        exists|end: u32| #[trigger]
            sums(math, before.x, size[0], end) && if crate::bits::is_less(bin, end) {
                start.x == ZERO && start.row == ZERO && start.used_x == before.used_x
                    && start.used_y == before.used_y && sums(math, before.y, before.row, start.y)
            } else {
                start == before
            }
    } else {
        start == before
    }
}

/// The pen after an island was laid down at its start.
pub open spec fn lays_down<M: TriMath>(math: M, start: Shelf, size: Uv, after: Shelf) -> bool {
    &&& after.y == start.y
    &&& sums(math, start.x, size[0], after.x)
    &&& after.row == crate::bits::larger_of(start.row, size[1])
    &&& after.used_x == crate::bits::larger_of(start.used_x, after.x)
    &&& exists|top: u32| #[trigger]
        sums(math, start.y, after.row, top) && after.used_y == crate::bits::larger_of(
            start.used_y,
            top,
        )
}

/// One island is laid out. A tiny one is left in the centre and takes no room.
pub open spec fn shelf_step<M: TriMath>(
    math: M,
    before: Shelf,
    size: Uv,
    bin: u32,
    origin: Uv,
    after: Shelf,
) -> bool {
    if is_tiny(size) {
        after == before && origin == centre()
    } else {
        exists|start: Shelf| #[trigger]
            breaks_row(math, before, size, bin, start) && lays_down(math, start, size, after)
                && origin == [start.x, start.y]
    }
}

/// The pens between the islands of a layout, in the order in which they are laid out.
pub open spec fn is_layout<M: TriMath>(
    math: M,
    pens: Seq<Shelf>,
    order: Seq<usize>,
    sizes: Seq<Uv>,
    bin: u32,
    origins: Seq<Uv>,
) -> bool {
    &&& pens.len() == order.len() + 1
    &&& pens[0] == empty_shelf()
    &&& forall|k: int|
        0 <= k < order.len() ==> shelf_step(
            math,
            #[trigger] pens[k],
            sizes[order[k] as int],
            bin,
            origins[order[k] as int],
            pens[k + 1],
        )
}

/// The heights by which the islands are ordered.
pub open spec fn heights(sizes: Seq<Uv>) -> Seq<i32> {
    sizes.map_values(|s: Uv| crate::bits::key_of(s[1]) as i32)
}

/// The corners of an island in the tile.
pub open spec fn is_placed<M: TriMath>(
    math: M,
    island: Island,
    origin: Uv,
    factor: u32,
    out: [Uv; 3],
) -> bool {
    if is_tiny(island.size) {
        out == [centre(), centre(), centre()]
    } else {
        forall|c: int|
            0 <= c < 3 ==> call_ensures(
                M::place,
                (&math, island.uv[c], origin, factor),
                #[trigger] out[c],
            )
    }
}

/// The sizes of islands.
pub open spec fn sizes_of(islands: Seq<Island>) -> Seq<Uv> {
    islands.map_values(|i: Island| i.size)
}

/// How islands are packed: from the highest to the lowest, in rows.
pub open spec fn is_packing<M: TriMath>(
    math: M,
    islands: Seq<Island>,
    order: Seq<usize>,
    pens: Seq<Shelf>,
    bin: u32,
    origins: Seq<Uv>,
    factor: u32,
    out: Seq<[Uv; 3]>,
) -> bool {
    let sizes = sizes_of(islands);
    &&& out.len() == islands.len()
    &&& origins.len() == islands.len()
    &&& crate::sort::is_descending_order(order, heights(sizes))
    &&& is_layout(math, pens, order, sizes, bin, origins)
    &&& exists|list: Vec<Uv>| list@ == sizes && #[trigger] call_ensures(
        M::bin_width,
        (&math, &list),
        bin,
    )
    &&& call_ensures(
        M::scale,
        (&math, [pens.last().used_x, pens.last().used_y]),
        factor,
    )
    &&& forall|i: int|
        0 <= i < islands.len() ==> is_placed(
            math,
            islands[i],
            origins[i],
            factor,
            #[trigger] out[i],
        )
}

/// Islands packed into a tile.
pub open spec fn are_packed<M: TriMath>(math: M, islands: Seq<Island>, out: Seq<[Uv; 3]>) -> bool {
    islands.len() > 0 ==> exists|
        order: Seq<usize>,
        pens: Seq<Shelf>,
        bin: u32,
        origins: Seq<Uv>,
        factor: u32,
    | #[trigger]
        is_packing(math, islands, order, pens, bin, origins, factor, out)
}

/// Triangles unwrapped on their own and packed.
pub open spec fn are_unwrapped<M: TriMath>(
    math: M,
    positions: Seq<[u32; 3]>,
    indices: Seq<u32>,
    tris: Seq<u32>,
    out: Seq<[Uv; 3]>,
) -> bool {
    &&& out.len() == tris.len()
    &&& exists|islands: Seq<Island>|
        islands.len() == tris.len() && (forall|i: int|
            0 <= i < tris.len() ==> is_island(
                math,
                positions,
                indices,
                tris[i],
                #[trigger] islands[i],
            )) && #[trigger] are_packed(math, islands, out)
}

fn tiny(size: Uv) -> (r: bool)
    ensures
        r == is_tiny(size),
{
    less(upper(size[0], size[1]), TINY)
}

/// Lays out one island.
fn lay_out<M: TriMath>(math: &M, pen: Shelf, size: Uv, bin: u32) -> (r: (Uv, Shelf))
    ensures
        shelf_step(*math, pen, size, bin, r.0, r.1),
{
    if tiny(size) {
        return ([HALF, HALF], pen);
    }
    let mut start = pen;
    if less(ZERO, pen.x) {
        let end: u32 = math.plus(pen.x, size[0]);
        assert(sums(*math, pen.x, size[0], end));
        if less(bin, end) {
            start.x = ZERO;
            start.y = math.plus(pen.y, pen.row);
            start.row = ZERO;
        }
    }
    assert(breaks_row(*math, pen, size, bin, start));
    let x: u32 = math.plus(start.x, size[0]);
    let row: u32 = larger(start.row, size[1]);
    let top: u32 = math.plus(start.y, row);
    assert(sums(*math, start.y, row, top));
    let after = Shelf {
        x,
        y: start.y,
        row,
        used_x: larger(start.used_x, x),
        used_y: larger(start.used_y, top),
    };
    assert(lays_down(*math, start, size, after));
    ([start.x, start.y], after)
}

/// Packs islands into a tile.
fn pack<M: TriMath>(math: &M, islands: &Vec<Island>) -> (out: Vec<[Uv; 3]>)
    ensures
        out@.len() == islands@.len(),
        are_packed(*math, islands@, out@),
{
    let n: usize = islands.len();
    let mut out: Vec<[Uv; 3]> = Vec::new();
    if n == 0 {
        return out;
    }
    let ghost sizes_spec = sizes_of(islands@);
    let mut sizes: Vec<Uv> = Vec::new();
    let mut keys: Vec<i32> = Vec::new();
    let mut origins: Vec<Uv> = Vec::new();
    let mut i: usize = 0;
    while i < n
        invariant
            i <= n,
            n == islands@.len(),
            sizes@ =~= sizes_of(islands@).take(i as int),
            keys@ =~= heights(sizes_of(islands@)).take(i as int),
            origins@.len() == i,
        decreases n - i,
    {
        let size: Uv = islands[i].size;
        sizes.push(size);
        keys.push(order_key(size[1]));
        origins.push([ZERO, ZERO]);
        i += 1;
    }
    assert(sizes@ =~= sizes_spec);
    assert(keys@ =~= heights(sizes_spec));
    let order = descending_order(&keys);
    let bin: u32 = math.bin_width(&sizes);
    let mut pen = Shelf { x: ZERO, y: ZERO, row: ZERO, used_x: ZERO, used_y: ZERO };
    let ghost mut pens: Seq<Shelf> = seq![pen];
    let mut k: usize = 0;
    while k < n
        invariant
            k <= n,
            n == islands@.len(),
            n == order@.len(),
            n == origins@.len(),
            sizes@ == sizes_spec,
            sizes_spec.len() == n,
            crate::sort::is_descending_order(order@, heights(sizes_spec)),
            pens.len() == k + 1,
            pens[0] == empty_shelf(),
            pens[k as int] == pen,
            forall|j: int|
                0 <= j < k ==> shelf_step(
                    *math,
                    #[trigger] pens[j],
                    sizes_spec[order@[j] as int],
                    bin,
                    origins@[order@[j] as int],
                    pens[j + 1],
                ),
        decreases n - k,
    {
        let at: usize = order[k];
        let (origin, next) = lay_out(math, pen, sizes[at], bin);
        let ghost before = origins@;
        origins.set(at, origin);
        proof {
            let grown = pens.push(next);
            assert forall|j: int| 0 <= j < k + 1 implies shelf_step(
                *math,
                #[trigger] grown[j],
                sizes_spec[order@[j] as int],
                bin,
                origins@[order@[j] as int],
                grown[j + 1],
            ) by {
                if j < k {
                    assert(order@[j] != order@[k as int]);
                    assert(grown[j] == pens[j]);
                    assert(grown[j + 1] == pens[j + 1]);
                    assert(origins@[order@[j] as int] == before[order@[j] as int]);
                }
            }
            pens = grown;
        }
        pen = next;
        k += 1;
    }
    let factor: u32 = math.scale([pen.used_x, pen.used_y]);
    let mut j: usize = 0;
    while j < n
        invariant
            j <= n,
            n == islands@.len(),
            n == origins@.len(),
            out@.len() == j,
            forall|i: int|
                0 <= i < j ==> is_placed(
                    *math,
                    islands@[i],
                    origins@[i],
                    factor,
                    #[trigger] out@[i],
                ),
        decreases n - j,
    {
        let island = islands[j];
        if tiny(island.size) {
            out.push([[HALF, HALF], [HALF, HALF], [HALF, HALF]]);
        } else {
            let a: Uv = math.place(island.uv[0], origins[j], factor);
            let b: Uv = math.place(island.uv[1], origins[j], factor);
            let c: Uv = math.place(island.uv[2], origins[j], factor);
            out.push([a, b, c]);
        }
        j += 1;
    }
    proof {
        assert(pens.last() == pen);
        assert(is_layout(*math, pens, order@, sizes_spec, bin, origins@));
        assert(call_ensures(M::bin_width, (math, &sizes), bin));
        assert(is_packing(*math, islands@, order@, pens, bin, origins@, factor, out@));
    }
    out
}

impl<M: TriMath> UnwrapAlgo for TriPack<M> {
    fn name(&self) -> (s: &'static str)
        ensures
            s@ == "tri-pack"@,
    {
        "tri-pack"
    }

    fn unwrap_tris(
        &self,
        positions: &Vec<[u32; 3]>,
        indices: &Vec<u32>,
        tris: &Vec<u32>,
    ) -> (out: Vec<[Uv; 3]>)
        ensures
            are_unwrapped(self.math, positions@, indices@, tris@, out@),
    {
        let mut islands: Vec<Island> = Vec::new();
        let mut i: usize = 0;
        while i < tris.len()
            invariant
                i <= tris@.len(),
                islands@.len() == i,
                forall|k: int|
                    0 <= k < i ==> is_island(
                        self.math,
                        positions@,
                        indices@,
                        tris@[k],
                        #[trigger] islands@[k],
                    ),
            decreases tris@.len() - i,
        {
            match tri_pts(positions, indices, tris[i]) {
                Some(p) => {
                    let island = self.math.project(p);
                    islands.push(island);
                },
                None => {
                    islands.push(
                        Island {
                            uv: [[HALF, HALF], [HALF, HALF], [HALF, HALF]],
                            size: [ZERO, ZERO],
                        },
                    );
                },
            }
            i += 1;
        }
        pack(&self.math, &islands)
    }
}

/// The triangles among the first `n` that belong to a tile, in ascending order.
pub open spec fn bucket(face_udim: Seq<u32>, udim: u32, n: nat) -> Seq<u32>
    decreases n,
{
    if n == 0 {
        Seq::empty()
    } else {
        let before = bucket(face_udim, udim, (n - 1) as nat);
        if face_udim[n - 1] == udim {
            before.push((n - 1) as u32)
        } else {
            before
        }
    }
}

/// What the unwrap gave for the triangles of each tile.
pub open spec fn answers<A: UnwrapAlgo>(
    algo: A,
    mesh: Mesh,
    face_udim: Seq<u32>,
    n: nat,
    packed: Map<u32, Seq<[Uv; 3]>>,
) -> bool {
    forall|udim: u32|
        bucket(face_udim, udim, n).len() > 0 ==> answer(
            algo,
            mesh,
            bucket(face_udim, udim, n),
            #[trigger] packed[udim],
        )
}

/// What the unwrap gives for a list of triangles.
pub open spec fn answer<A: UnwrapAlgo>(
    algo: A,
    mesh: Mesh,
    tris: Seq<u32>,
    packed: Seq<[Uv; 3]>,
) -> bool {
    exists|list: Vec<u32>, out: Vec<[Uv; 3]>|
        list@ == tris && out@ == packed && #[trigger] call_ensures(
            A::unwrap_tris,
            (&algo, &mesh.positions, &mesh.indices, &list),
            out,
        )
}

/// The texture coordinates of a corner: those of the unwrap, moved into the tile, or the centre
/// where the unwrap gave none.
pub open spec fn corner_fits<F: Fn(Uv, [u32; 2]) -> Uv>(
    into_tile: F,
    face_udim: Seq<u32>,
    packed: Map<u32, Seq<[Uv; 3]>>,
    tri: int,
    corner: int,
    uv: Uv,
) -> bool {
    let udim = face_udim[tri];
    let place = bucket(face_udim, udim, tri as nat).len();
    if place < packed[udim].len() {
        exists|tile: [u32; 2]|
            (tile[0] as int, tile[1] as int) == crate::uv::origin_of(udim)
                && #[trigger] call_ensures(
                into_tile,
                (packed[udim][place as int][corner], tile),
                uv,
            )
    } else {
        uv == centre()
    }
}

/// The texture coordinates of all corners of a triangle.
pub open spec fn tri_fits<F: Fn(Uv, [u32; 2]) -> Uv>(
    into_tile: F,
    face_udim: Seq<u32>,
    packed: Map<u32, Seq<[Uv; 3]>>,
    tri: int,
    uvs: [Uv; 3],
) -> bool {
    forall|c: int|
        0 <= c < 3 ==> corner_fits(into_tile, face_udim, packed, tri, c, #[trigger] uvs[c])
}

proof fn lemma_bucket(face_udim: Seq<u32>, udim: u32, n: nat)
    requires
        n <= face_udim.len(),
        n <= u32::MAX + 1,
    ensures
        bucket(face_udim, udim, n).len() <= n,
        forall|i: int|
            0 <= i < bucket(face_udim, udim, n).len() ==> {
                &&& (#[trigger] bucket(face_udim, udim, n)[i]) < n
                &&& face_udim[bucket(face_udim, udim, n)[i] as int] == udim
                &&& bucket(face_udim, udim, bucket(face_udim, udim, n)[i] as nat).len() == i
            },
        forall|t: int|
            0 <= t < n && face_udim[t] == udim ==> bucket(face_udim, udim, n).contains(
                #[trigger] (t as u32),
            ),
    decreases n,
{
    if n > 0 {
        lemma_bucket(face_udim, udim, (n - 1) as nat);
        let before = bucket(face_udim, udim, (n - 1) as nat);
        let now = bucket(face_udim, udim, n);
        assert forall|t: int| 0 <= t < n && face_udim[t] == udim implies now.contains(
            #[trigger] (t as u32),
        ) by {
            if t == n - 1 {
                assert(now[before.len() as int] == (n - 1) as u32);
            } else {
                assert(before.contains(t as u32));
                let i = choose|i: int| 0 <= i < before.len() && before[i] == t as u32;
                assert(now[i] == t as u32);
            }
        }
    }
}

/// The triangles that get texture coordinates: as many as there are tiles for.
pub open spec fn unwrapped_count(mesh: Mesh, face_udim: Seq<u32>) -> nat {
    let tris = mesh.indices@.len() / 3;
    if tris < face_udim.len() {
        tris
    } else {
        face_udim.len()
    }
}

/// Three texture coordinates per triangle in one list.
pub open spec fn flattened(tris: Seq<[Uv; 3]>) -> Seq<Uv> {
    Seq::new(3 * tris.len(), |i: int| tris[i / 3][i % 3])
}

/// All corners in the centre.
pub open spec fn unplaced() -> [Uv; 3] {
    [centre(), centre(), centre()]
}

/// Texture coordinates for the triangles of a mesh, from what the unwrap gave per tile. A
/// triangle whose number does not fit in 32 bits stays in the centre.
pub open spec fn is_unwrap<A: UnwrapAlgo, F: Fn(Uv, [u32; 2]) -> Uv>(
    algo: A,
    into_tile: F,
    mesh: Mesh,
    face_udim: Seq<u32>,
    packed: Map<u32, Seq<[Uv; 3]>>,
    tris: Seq<[Uv; 3]>,
) -> bool {
    let n = unwrapped_count(mesh, face_udim);
    let numbered = (n as u32) as nat;
    &&& tris.len() == n
    &&& answers(algo, mesh, face_udim, numbered, packed)
    &&& forall|t: int|
        0 <= t < n ==> if t < numbered {
            tri_fits(into_tile, face_udim, packed, t, #[trigger] tris[t])
        } else {
            tris[t] == unplaced()
        }
}

/// The triangles of a tile, with the tile and the count of those that have been placed.
spec fn tile_progress<F: Fn(Uv, [u32; 2]) -> Uv>(
    into_tile: F,
    face_udim: Seq<u32>,
    packed: Map<u32, Seq<[Uv; 3]>>,
    local: Seq<[Uv; 3]>,
    udim: u32,
    placed: int,
    m: nat,
) -> bool {
    forall|t: int|
        0 <= t < m && face_udim[t] == udim ==> if bucket(face_udim, udim, t as nat).len() < placed {
            tri_fits(into_tile, face_udim, packed, t, #[trigger] local[t])
        } else {
            local[t] == unplaced()
        }
}

/// Places the triangles of one tile.
fn place_tile<F: Fn(Uv, [u32; 2]) -> Uv>(
    local: &mut Vec<[Uv; 3]>,
    tris: &Vec<u32>,
    out: &Vec<[Uv; 3]>,
    face_udim: &Vec<u32>,
    udim: u32,
    into_tile: &F,
    m: u32,
    Ghost(packed): Ghost<Map<u32, Seq<[Uv; 3]>>>,
)
    requires
        forall|uv: Uv, tile: [u32; 2]| call_requires(*into_tile, (uv, tile)),
        m <= old(local)@.len() <= face_udim@.len(),
        tris@ == bucket(face_udim@, udim, m as nat),
        packed[udim] == out@,
        tile_progress(*into_tile, face_udim@, packed, old(local)@, udim, 0, m as nat),
    ensures
        final(local)@.len() == old(local)@.len(),
        forall|t: int|
            0 <= t < final(local)@.len() && (t >= m || face_udim@[t] != udim)
                ==> #[trigger] final(local)@[t] == old(local)@[t],
        forall|t: int|
            0 <= t < m && face_udim@[t] == udim ==> tri_fits(
                *into_tile,
                face_udim@,
                packed,
                t,
                #[trigger] final(local)@[t],
            ),
{
    let tile: [u32; 2] = udim_origin(udim);
    let mut i: usize = 0;
    proof {
        lemma_bucket(face_udim@, udim, m as nat);
    }
    while i < tris.len() && i < out.len()
        invariant
            forall|uv: Uv, tile: [u32; 2]| call_requires(*into_tile, (uv, tile)),
            i <= tris@.len(),
            i <= out@.len(),
            m <= local@.len() <= face_udim@.len(),
            local@.len() == old(local)@.len(),
            tris@ == bucket(face_udim@, udim, m as nat),
            packed[udim] == out@,
            (tile[0] as int, tile[1] as int) == crate::uv::origin_of(udim),
            forall|k: int|
                0 <= k < tris@.len() ==> {
                    &&& (#[trigger] tris@[k]) < m
                    &&& face_udim@[tris@[k] as int] == udim
                    &&& bucket(face_udim@, udim, tris@[k] as nat).len() == k
                },
            tile_progress(*into_tile, face_udim@, packed, local@, udim, i as int, m as nat),
            forall|t: int|
                0 <= t < local@.len() && (t >= m || face_udim@[t] != udim)
                    ==> #[trigger] local@[t] == old(local)@[t],
        decreases tris@.len() - i,
    {
        let t: usize = tris[i] as usize;
        let a: Uv = into_tile(out[i][0], tile);
        let b: Uv = into_tile(out[i][1], tile);
        let c: Uv = into_tile(out[i][2], tile);
        let ghost before = local@;
        local.set(t, [a, b, c]);
        proof {
            assert(bucket(face_udim@, udim, t as nat).len() == i);
            let uvs = local@[t as int];
            assert forall|k: int| 0 <= k < 3 implies corner_fits(
                *into_tile,
                face_udim@,
                packed,
                t as int,
                k,
                #[trigger] uvs[k],
            ) by {
                assert(call_ensures(*into_tile, (packed[udim][i as int][k], tile), uvs[k]));
            }
            assert(tri_fits(*into_tile, face_udim@, packed, t as int, local@[t as int]));
            assert forall|x: int| 0 <= x < m && face_udim@[x] == udim implies if bucket(
                face_udim@,
                udim,
                x as nat,
            ).len() < i + 1 {
                tri_fits(*into_tile, face_udim@, packed, x, #[trigger] local@[x])
            } else {
                local@[x] == unplaced()
            } by {
                if x != t {
                    assert(local@[x] == before[x]);
                    lemma_bucket(face_udim@, udim, m as nat);
                    assert(tris@.contains(x as u32));
                    let at = choose|at: int| 0 <= at < tris@.len() && tris@[at] == x as u32;
                    assert(at != i);
                }
            }
        }
        i += 1;
    }
    proof {
        lemma_bucket(face_udim@, udim, m as nat);
        assert forall|t: int| 0 <= t < m && face_udim@[t] == udim implies tri_fits(
            *into_tile,
            face_udim@,
            packed,
            t,
            #[trigger] local@[t],
        ) by {
            assert(tris@.contains(t as u32));
            let at = choose|at: int| 0 <= at < tris@.len() && tris@[at] == t as u32;
            assert(bucket(face_udim@, udim, tris@[at] as nat).len() == at);
            if at >= i {
                assert(at >= out@.len());
                assert(local@[t] == unplaced());
                let uvs = local@[t];
                assert forall|k: int| 0 <= k < 3 implies corner_fits(
                    *into_tile,
                    face_udim@,
                    packed,
                    t,
                    k,
                    #[trigger] uvs[k],
                ) by {
                    assert(uvs[k] == centre());
                }
            }
        }
    }
}

/// The triangles of each tile.
fn buckets_of(face_udim: &Vec<u32>, m: u32) -> (buckets: HashMap<u64, Vec<u32>>)
    requires
        m <= face_udim@.len(),
    ensures
        are_buckets(buckets@, face_udim@, m as nat),
{
    let mut buckets: HashMap<u64, Vec<u32>> = HashMap::new();
    let mut t: u32 = 0;
    while t < m
        invariant
            t <= m,
            m <= face_udim@.len(),
            are_buckets(buckets@, face_udim@, t as nat),
        decreases m - t,
    {
        let key: u64 = face_udim[t as usize] as u64;
        let mut list: Vec<u32> = match buckets.remove(&key) {
            Some(l) => l,
            None => Vec::new(),
        };
        let ghost before = list@;
        proof {
            assert(before =~= bucket(face_udim@, key as u32, t as nat));
        }
        list.push(t);
        buckets.insert(key, list);
        t += 1;
    }
    buckets
}

/// A table of the triangles of each tile.
spec fn are_buckets(buckets: Map<u64, Vec<u32>>, face_udim: Seq<u32>, n: nat) -> bool {
    forall|k: u64|
        if k <= u32::MAX && bucket(face_udim, k as u32, n).len() > 0 {
            #[trigger] buckets.contains_key(k) && buckets[k]@ == bucket(face_udim, k as u32, n)
        } else {
            !buckets.contains_key(k)
        }
}

/// Gives the first triangles vertices of their own and texture coordinates in their tiles. The
/// triangles keep their order. Says whether the mesh changed: without triangles, or without
/// tiles, it does not.
pub fn apply_unwrap<A: UnwrapAlgo, F: Fn(Uv, [u32; 2]) -> Uv>(
    mesh: &mut Mesh,
    face_udim: &Vec<u32>,
    algo: &A,
    into_tile: F,
) -> (changed: bool)
    requires
        forall|uv: Uv, tile: [u32; 2]| call_requires(into_tile, (uv, tile)),
    ensures
        changed == (unwrapped_count(*old(mesh), face_udim@) > 0),
        !changed ==> *final(mesh) == *old(mesh),
        changed ==> exists|packed: Map<u32, Seq<[Uv; 3]>>, tris: Seq<[Uv; 3]>| #[trigger]
            is_unwrap(*algo, into_tile, *old(mesh), face_udim@, packed, tris) && old(
                mesh,
            ).split_into(flattened(tris), *final(mesh)),
{
    let tri_count: usize = mesh.indices.len() / 3;
    if tri_count == 0 {
        return false;
    }
    let n: usize = if tri_count < face_udim.len() {
        tri_count
    } else {
        face_udim.len()
    };
    let m: u32 = n as u32;
    assert(m <= n);
    let buckets = buckets_of(face_udim, m);
    let keys = keys_of(&buckets);
    let mut local: Vec<[Uv; 3]> = Vec::new();
    let mut f: usize = 0;
    while f < n
        invariant
            f <= n,
            local@.len() == f,
            forall|t: int| 0 <= t < f ==> #[trigger] local@[t] == unplaced(),
        decreases n - f,
    {
        local.push([[HALF, HALF], [HALF, HALF], [HALF, HALF]]);
        f += 1;
    }
    let ghost mut packed: Map<u32, Seq<[Uv; 3]>> = Map::empty();
    let mut j: usize = 0;
    while j < keys.len()
        invariant
            forall|uv: Uv, tile: [u32; 2]| call_requires(into_tile, (uv, tile)),
            j <= keys@.len(),
            keys@.no_duplicates(),
            keys@.to_set() == buckets@.dom(),
            are_buckets(buckets@, face_udim@, m as nat),
            *mesh == *old(mesh),
            n == local@.len(),
            m <= n <= face_udim@.len(),
            forall|t: int| m <= t < n ==> #[trigger] local@[t] == unplaced(),
            forall|t: int|
                0 <= t < m ==> if keys@.take(j as int).contains(face_udim@[t] as u64) {
                    tri_fits(into_tile, face_udim@, packed, t, #[trigger] local@[t])
                } else {
                    local@[t] == unplaced()
                },
            forall|k: int|
                0 <= k < j ==> answer(
                    *algo,
                    *mesh,
                    bucket(face_udim@, #[trigger] keys@[k] as u32, m as nat),
                    packed[keys@[k] as u32],
                ),
        decreases keys@.len() - j,
    {
        let key: u64 = keys[j];
        let udim: u32 = key as u32;
        let ghost fresh = packed;
        proof {
            assert(keys@.to_set().contains(keys@[j as int]));
            assert(buckets@.contains_key(key));
            assert(!keys@.take(j as int).contains(key)) by {
                if keys@.take(j as int).contains(key) {
                    let k = choose|k: int|
                        0 <= k < j && keys@.take(j as int)[k] == key;
                    assert(keys@[k] == keys@[j as int]);
                }
            }
            assert forall|k: int| 0 <= k < j implies #[trigger] (keys@[k] as u32) != udim by {
                assert(keys@.to_set().contains(keys@[k]));
                assert(buckets@.contains_key(keys@[k]));
            }
        }
        match buckets.get(&key) {
            Some(tris) => {
                let out: Vec<[Uv; 3]> = algo.unwrap_tris(&mesh.positions, &mesh.indices, tris);
                let ghost before = local@;
                proof {
                    packed = packed.insert(udim, out@);
                    assert(call_ensures(
                        A::unwrap_tris,
                        (algo, &mesh.positions, &mesh.indices, tris),
                        out,
                    ));
                    assert(answer(
                        *algo,
                        *mesh,
                        bucket(face_udim@, udim, m as nat),
                        packed[udim],
                    ));
                    assert forall|t: int|
                        0 <= t < m && face_udim@[t] == udim implies #[trigger] local@[t]
                        == unplaced() by {
                        assert(face_udim@[t] as u64 == key);
                    }
                }
                place_tile(
                    &mut local,
                    tris,
                    &out,
                    face_udim,
                    udim,
                    &into_tile,
                    m,
                    Ghost(packed),
                );
                proof {
                    crate::tables::lemma_take_contains(keys@, j as int);
                    assert forall|t: int| 0 <= t < m implies if keys@.take(j + 1).contains(
                        face_udim@[t] as u64,
                    ) {
                        tri_fits(into_tile, face_udim@, packed, t, #[trigger] local@[t])
                    } else {
                        local@[t] == unplaced()
                    } by {
                        if face_udim@[t] != udim {
                            assert(local@[t] == before[t]);
                            assert(packed[face_udim@[t]] == fresh[face_udim@[t]]);
                            if keys@.take(j as int).contains(face_udim@[t] as u64) {
                                let uvs = local@[t];
                                assert forall|c: int| 0 <= c < 3 implies corner_fits(
                                    into_tile,
                                    face_udim@,
                                    packed,
                                    t,
                                    c,
                                    #[trigger] uvs[c],
                                ) by {
                                    assert(corner_fits(
                                        into_tile,
                                        face_udim@,
                                        fresh,
                                        t,
                                        c,
                                        before[t][c],
                                    ));
                                }
                            }
                        }
                    }
                    assert forall|k: int| 0 <= k < j + 1 implies answer(
                        *algo,
                        *mesh,
                        bucket(face_udim@, #[trigger] keys@[k] as u32, m as nat),
                        packed[keys@[k] as u32],
                    ) by {
                        if k < j {
                            assert(keys@[k] as u32 != udim);
                        }
                    }
                }
            },
            None => {},
        }
        j += 1;
    }
    let mut corner_uv: Vec<Uv> = Vec::new();
    let mut t: usize = 0;
    while t < n
        invariant
            t <= n,
            n == local@.len(),
            corner_uv@ =~= flattened(local@.take(t as int)),
        decreases n - t,
    {
        let uvs = local[t];
        let ghost before = corner_uv@;
        corner_uv.push(uvs[0]);
        corner_uv.push(uvs[1]);
        corner_uv.push(uvs[2]);
        proof {
            let longer = local@.take(t + 1);
            assert forall|i: int| 0 <= i < 3 * longer.len() implies corner_uv@[i] == flattened(
                longer,
            )[i] by {
                if i < 3 * t {
                    assert(i / 3 < t);
                    assert(corner_uv@[i] == before[i]);
                } else {
                    assert(i / 3 == t);
                }
            }
        }
        t += 1;
    }
    proof {
        assert(local@.take(n as int) =~= local@);
        assert forall|udim: u32|
            bucket(face_udim@, udim, m as nat).len() > 0 implies answer(
            *algo,
            *mesh,
            bucket(face_udim@, udim, m as nat),
            #[trigger] packed[udim],
        ) by {
            assert(buckets@.contains_key(udim as u64));
            assert(keys@.to_set().contains(udim as u64));
            let k = choose|k: int| 0 <= k < keys@.len() && keys@[k] == udim as u64;
            assert(keys@[k] as u32 == udim);
        }
        assert(keys@.take(keys@.len() as int) =~= keys@);
        assert forall|x: int| 0 <= x < n implies if x < m {
            tri_fits(into_tile, face_udim@, packed, x, #[trigger] local@[x])
        } else {
            local@[x] == unplaced()
        } by {
            if x < m {
                lemma_bucket(face_udim@, face_udim@[x], m as nat);
                assert(bucket(face_udim@, face_udim@[x], m as nat).contains(x as u32));
                assert(buckets@.contains_key(face_udim@[x] as u64));
                assert(keys@.to_set().contains(face_udim@[x] as u64));
            }
        }
        assert(is_unwrap(*algo, into_tile, *old(mesh), face_udim@, packed, local@));
    }
    expand_mesh(mesh, &corner_uv)
}

/// A point of the unit square that keeps a thousandth from the far sides.
pub open spec fn in_unit(uv: Uv) -> bool {
    forall|k: int|
        0 <= k < 2 ==> crate::bits::is_ordered(#[trigger] uv[k]) && 0 <= crate::bits::value(uv[k])
            <= crate::bits::value(crate::uv::ALMOST_ONE)
}

/// Moving a point of the unit square into one of the first hundred tiles gives it the tile's
/// column and row as whole parts.
pub open spec fn moves_into_tiles<F: Fn(Uv, [u32; 2]) -> Uv>(into_tile: F) -> bool {
    forall|uv: Uv, tile: [u32; 2], r: Uv|
        in_unit(uv) && tile[0] <= 9 && tile[1] <= 9 && #[trigger] call_ensures(
            into_tile,
            (uv, tile),
            r,
        ) ==> crate::uv::floor_of(r[0]) == tile[0] && crate::uv::floor_of(r[1]) == tile[1]
}

/// Moving a point of the unit square into one of the first hundred tiles adds the tile's column and
/// row, up to rounding.
pub open spec fn adds_the_tile<F: Fn(Uv, [u32; 2]) -> Uv>(into_tile: F) -> bool {
    forall|uv: Uv, tile: [u32; 2], r: Uv|
        in_unit(uv) && tile[0] <= 9 && tile[1] <= 9 && #[trigger] call_ensures(
            into_tile,
            (uv, tile),
            r,
        ) ==> crate::uv::is_rounded_sum(tile[0] as int, uv[0], r[0]) && crate::uv::is_rounded_sum(
            tile[1] as int,
            uv[1],
            r[1],
        )
}

/// Adding the tile's column and row moves points into the tile, also where the sums are rounded.
pub proof fn law_rounded_sums_move_into_tiles<F: Fn(Uv, [u32; 2]) -> Uv>(into_tile: F)
    requires
        adds_the_tile(into_tile),
    ensures
        moves_into_tiles(into_tile),
{
    assert forall|uv: Uv, tile: [u32; 2], r: Uv|
        in_unit(uv) && tile[0] <= 9 && tile[1] <= 9 && #[trigger] call_ensures(
            into_tile,
            (uv, tile),
            r,
        ) implies crate::uv::floor_of(r[0]) == tile[0] && crate::uv::floor_of(r[1]) == tile[1] by {
        crate::uv::lemma_rounded_whole(tile[0] as int, uv[0], r[0]);
        crate::uv::lemma_rounded_whole(tile[1] as int, uv[1], r[1]);
    }
}

/// All packed coordinates lie in the unit square.
pub open spec fn are_in_unit(packed: Seq<[Uv; 3]>) -> bool {
    forall|i: int, c: int| 0 <= i < packed.len() && 0 <= c < 3 ==> in_unit(#[trigger] packed[i][c])
}

/// Every corner of an unwrapped triangle lies in the tile that was asked for, provided that the
/// unwrap gave coordinates in the unit square for every triangle of the tile.
pub proof fn law_corners_lie_in_the_tile<A: UnwrapAlgo, F: Fn(Uv, [u32; 2]) -> Uv>(
    algo: A,
    into_tile: F,
    mesh: Mesh,
    face_udim: Seq<u32>,
    packed: Map<u32, Seq<[Uv; 3]>>,
    tris: Seq<[Uv; 3]>,
    t: int,
    c: int,
)
    requires
        is_unwrap(algo, into_tile, mesh, face_udim, packed, tris),
        moves_into_tiles(into_tile),
        unwrapped_count(mesh, face_udim) <= u32::MAX,
        0 <= t < unwrapped_count(mesh, face_udim),
        0 <= c < 3,
        1001 <= face_udim[t] <= 1100,
        packed[face_udim[t]].len() >= bucket(
            face_udim,
            face_udim[t],
            unwrapped_count(mesh, face_udim),
        ).len(),
        are_in_unit(packed[face_udim[t]]),
    ensures
        flattened(tris)[3 * t + c] == tris[t][c],
        crate::uv::tile_at(
            crate::uv::floor_of(tris[t][c][0]),
            crate::uv::floor_of(tris[t][c][1]),
        ) == face_udim[t],
{
    assert((3 * t + c) / 3 == t && (3 * t + c) % 3 == c);
    let n = unwrapped_count(mesh, face_udim);
    let udim = face_udim[t];
    let all = bucket(face_udim, udim, n);
    lemma_bucket(face_udim, udim, n);
    assert(all.contains(t as u32));
    let at = choose|at: int| 0 <= at < all.len() && all[at] == t as u32;
    assert(bucket(face_udim, udim, all[at] as nat).len() == at);
    assert(tri_fits(into_tile, face_udim, packed, t, tris[t]));
    assert(corner_fits(into_tile, face_udim, packed, t, c, tris[t][c]));
    assert(in_unit(packed[udim][at][c]));
    crate::uv::law_origin_comes_back(udim, tris[t][c]);
}

/// Packing gives coordinates for every triangle of a tile.
pub proof fn law_packing_leaves_out_nothing<M: TriMath>(
    algo: TriPack<M>,
    mesh: Mesh,
    tris: Seq<u32>,
    packed: Seq<[Uv; 3]>,
)
    requires
        answer(algo, mesh, tris, packed),
    ensures
        packed.len() == tris.len(),
        are_unwrapped(algo.math, mesh.positions@, mesh.indices@, tris, packed),
{
    let (list, out) = choose|list: Vec<u32>, out: Vec<[Uv; 3]>|
        list@ == tris && out@ == packed && #[trigger] call_ensures(
            <TriPack<M> as UnwrapAlgo>::unwrap_tris,
            (&algo, &mesh.positions, &mesh.indices, &list),
            out,
        );
}

/// Every corner of a triangle that was packed lies in the tile that was asked for, provided that
/// the packed coordinates lie in the unit square.
pub proof fn law_packed_corners_lie_in_the_tile<M: TriMath, F: Fn(Uv, [u32; 2]) -> Uv>(
    algo: TriPack<M>,
    into_tile: F,
    mesh: Mesh,
    face_udim: Seq<u32>,
    packed: Map<u32, Seq<[Uv; 3]>>,
    tris: Seq<[Uv; 3]>,
    t: int,
    c: int,
)
    requires
        is_unwrap(algo, into_tile, mesh, face_udim, packed, tris),
        moves_into_tiles(into_tile),
        unwrapped_count(mesh, face_udim) <= u32::MAX,
        0 <= t < unwrapped_count(mesh, face_udim),
        0 <= c < 3,
        1001 <= face_udim[t] <= 1100,
        are_in_unit(packed[face_udim[t]]),
    ensures
        crate::uv::tile_at(
            crate::uv::floor_of(tris[t][c][0]),
            crate::uv::floor_of(tris[t][c][1]),
        ) == face_udim[t],
{
    let n = unwrapped_count(mesh, face_udim);
    let udim = face_udim[t];
    let all = bucket(face_udim, udim, n);
    lemma_bucket(face_udim, udim, n);
    assert(all.contains(t as u32));
    assert(all.len() > 0);
    law_packing_leaves_out_nothing(algo, mesh, all, packed[udim]);
    law_corners_lie_in_the_tile(algo, into_tile, mesh, face_udim, packed, tris, t, c);
}

/// In the mesh that an unwrap leaves, every corner of a triangle lies in the tile that was asked
/// for, provided that the packed coordinates lie in the unit square.
pub proof fn law_unwrapped_mesh_lies_in_its_tiles<M: TriMath, F: Fn(Uv, [u32; 2]) -> Uv>(
    algo: TriPack<M>,
    into_tile: F,
    mesh: Mesh,
    after: Mesh,
    face_udim: Seq<u32>,
    packed: Map<u32, Seq<[Uv; 3]>>,
    tris: Seq<[Uv; 3]>,
    t: int,
    c: int,
)
    requires
        is_unwrap(algo, into_tile, mesh, face_udim, packed, tris),
        mesh.split_into(flattened(tris), after),
        moves_into_tiles(into_tile),
        unwrapped_count(mesh, face_udim) <= u32::MAX,
        0 <= t < unwrapped_count(mesh, face_udim),
        0 <= c < 3,
        1001 <= face_udim[t] <= 1100,
        are_in_unit(packed[face_udim[t]]),
    ensures
        after.uvs@.len() > 0,
        3 * t + c < after.uvs@[0]@.len(),
        crate::uv::tile_at(
            crate::uv::floor_of(after.uvs@[0]@[3 * t + c][0]),
            crate::uv::floor_of(after.uvs@[0]@[3 * t + c][1]),
        ) == face_udim[t],
{
    law_packed_corners_lie_in_the_tile(algo, into_tile, mesh, face_udim, packed, tris, t, c);
    assert((3 * t + c) / 3 == t && (3 * t + c) % 3 == c);
    assert(flattened(tris)[3 * t + c] == tris[t][c]);
}

/// Two numbers are added up without rounding.
pub open spec fn adds_exactly<M: TriMath>(math: M, a: u32, b: u32) -> bool {
    forall|r: u32| #[trigger]
        sums(math, a, b, r) ==> crate::bits::is_ordered(r) && crate::bits::value(r)
            == crate::bits::value(a) + crate::bits::value(b)
}

/// All sums of a layout are made without rounding.
pub open spec fn is_exact<M: TriMath>(
    math: M,
    pens: Seq<Shelf>,
    order: Seq<usize>,
    sizes: Seq<Uv>,
) -> bool {
    forall|k: int|
        0 <= k < order.len() ==> {
            &&& adds_exactly(math, (#[trigger] pens[k]).x, sizes[order[k] as int][0])
            &&& adds_exactly(math, ZERO, sizes[order[k] as int][0])
            &&& adds_exactly(math, pens[k].y, pens[k].row)
            &&& adds_exactly(math, pens[k + 1].y, pens[k + 1].row)
        }
}

/// A size that can be measured: two numbers, neither below zero.
pub open spec fn is_size(size: Uv) -> bool {
    &&& crate::bits::is_ordered(size[0]) && crate::bits::value(size[0]) >= 0
    &&& crate::bits::is_ordered(size[1]) && crate::bits::value(size[1]) >= 0
}

/// The room of the island that is laid out as number `a`: left, bottom, right and top.
pub open spec fn room(order: Seq<usize>, sizes: Seq<Uv>, origins: Seq<Uv>, a: int) -> (
    int,
    int,
    int,
    int,
) {
    let i = order[a] as int;
    let x = crate::bits::value(origins[i][0]);
    let y = crate::bits::value(origins[i][1]);
    (x, y, x + crate::bits::value(sizes[i][0]), y + crate::bits::value(sizes[i][1]))
}

/// Two rooms have no inner point in common.
pub open spec fn are_apart(a: (int, int, int, int), b: (int, int, int, int)) -> bool {
    a.2 <= b.0 || b.2 <= a.0 || a.3 <= b.1 || b.3 <= a.1
}

/// A pen that stands somewhere in the used part of the plane.
pub open spec fn is_pen(pen: Shelf) -> bool {
    &&& crate::bits::is_ordered(pen.x) && crate::bits::value(pen.x) >= 0
    &&& crate::bits::is_ordered(pen.y) && crate::bits::value(pen.y) >= 0
    &&& crate::bits::is_ordered(pen.row) && crate::bits::value(pen.row) >= 0
    &&& crate::bits::is_ordered(pen.used_x)
    &&& crate::bits::is_ordered(pen.used_y)
}

/// The room is in the pen's row, left of the pen and not higher than the row, or below the row;
/// and it is in the used part of the plane.
spec fn is_behind(r: (int, int, int, int), pen: Shelf) -> bool {
    &&& 0 <= r.0 && 0 <= r.1
    &&& r.2 <= crate::bits::value(pen.used_x)
    &&& r.3 <= crate::bits::value(pen.used_y)
    &&& {
        ||| r.1 == crate::bits::value(pen.y) && r.2 <= crate::bits::value(pen.x) && r.3
            <= crate::bits::value(pen.y) + crate::bits::value(pen.row)
        ||| r.3 <= crate::bits::value(pen.y)
    }
}

proof fn lemma_larger(a: u32, b: u32)
    requires
        crate::bits::is_ordered(a),
        crate::bits::is_ordered(b),
    ensures
        crate::bits::is_ordered(crate::bits::larger_of(a, b)),
        crate::bits::value(crate::bits::larger_of(a, b)) >= crate::bits::value(a),
        crate::bits::value(crate::bits::larger_of(a, b)) >= crate::bits::value(b),
{
    crate::bits::law_keys_order_numbers(a, b);
}

proof fn lemma_step<M: TriMath>(
    math: M,
    before: Shelf,
    size: Uv,
    bin: u32,
    origin: Uv,
    after: Shelf,
)
    requires
        shelf_step(math, before, size, bin, origin, after),
        !is_tiny(size),
        is_pen(before),
        is_size(size),
        adds_exactly(math, before.x, size[0]),
        adds_exactly(math, ZERO, size[0]),
        adds_exactly(math, before.y, before.row),
        adds_exactly(math, after.y, after.row),
    ensures
        is_pen(after),
        ({
            let x = crate::bits::value(origin[0]);
            let y = crate::bits::value(origin[1]);
            let new = (
                x,
                y,
                x + crate::bits::value(size[0]),
                y + crate::bits::value(size[1]),
            );
            &&& is_behind(new, after)
            &&& forall|r: (int, int, int, int)| #[trigger]
                is_behind(r, before) ==> is_behind(r, after) && (r.2 <= x || r.3 <= y)
        }),
{
    let start = choose|start: Shelf| #[trigger]
        breaks_row(math, before, size, bin, start) && lays_down(math, start, size, after) && origin
            == [start.x, start.y];
    assert(crate::bits::value(ZERO) == 0) by {
        assert(crate::bits::magnitude(ZERO) == 0);
    }
    assert(crate::bits::is_ordered(start.row) && crate::bits::value(start.row) >= 0);
    assert(crate::bits::is_ordered(start.y) && crate::bits::value(start.y) >= 0);
    assert(start.used_x == before.used_x && start.used_y == before.used_y);
    lemma_larger(start.row, size[1]);
    lemma_larger(start.used_x, after.x);
    let top = choose|top: u32| #[trigger]
        sums(math, start.y, after.row, top) && after.used_y == crate::bits::larger_of(
            start.used_y,
            top,
        );
    lemma_larger(start.used_y, top);
}

proof fn lemma_behind<M: TriMath>(
    math: M,
    pens: Seq<Shelf>,
    order: Seq<usize>,
    sizes: Seq<Uv>,
    bin: u32,
    origins: Seq<Uv>,
    n: int,
)
    requires
        is_layout(math, pens, order, sizes, bin, origins),
        is_exact(math, pens, order, sizes),
        forall|k: int| 0 <= k < order.len() ==> is_size(sizes[#[trigger] order[k] as int]),
        0 <= n <= order.len(),
    ensures
        is_pen(pens[n]),
        forall|a: int|
            0 <= a < n && !is_tiny(sizes[#[trigger] order[a] as int]) ==> is_behind(
                room(order, sizes, origins, a),
                pens[n],
            ),
    decreases n,
{
    if n == 0 {
        assert(crate::bits::magnitude(ZERO) == 0);
    } else {
        let k = n - 1;
        lemma_behind(math, pens, order, sizes, bin, origins, k);
        let i = order[k] as int;
        assert(shelf_step(math, pens[k], sizes[i], bin, origins[i], pens[k + 1]));
        if !is_tiny(sizes[i]) {
            lemma_step(math, pens[k], sizes[i], bin, origins[i], pens[k + 1]);
            assert forall|a: int|
                0 <= a < n && !is_tiny(sizes[#[trigger] order[a] as int]) implies is_behind(
                room(order, sizes, origins, a),
                pens[n],
            ) by {
                if a < k {
                    assert(is_behind(room(order, sizes, origins, a), pens[k]));
                }
            }
        }
    }
}

/// Packed islands do not overlap: where the sums of the layout are made without rounding, the
/// rooms of two islands that take room have no inner point in common.
pub proof fn law_islands_do_not_overlap<M: TriMath>(
    math: M,
    pens: Seq<Shelf>,
    order: Seq<usize>,
    sizes: Seq<Uv>,
    bin: u32,
    origins: Seq<Uv>,
    a: int,
    b: int,
)
    requires
        is_layout(math, pens, order, sizes, bin, origins),
        is_exact(math, pens, order, sizes),
        forall|k: int| 0 <= k < order.len() ==> is_size(sizes[#[trigger] order[k] as int]),
        0 <= a < b < order.len(),
        !is_tiny(sizes[order[a] as int]),
        !is_tiny(sizes[order[b] as int]),
    ensures
        are_apart(room(order, sizes, origins, a), room(order, sizes, origins, b)),
{
    lemma_behind(math, pens, order, sizes, bin, origins, b);
    let i = order[b] as int;
    assert(shelf_step(math, pens[b], sizes[i], bin, origins[i], pens[b + 1]));
    lemma_step(math, pens[b], sizes[i], bin, origins[i], pens[b + 1]);
    assert(is_behind(room(order, sizes, origins, a), pens[b]));
}

/// Packed islands lie in the part of the plane that counts as used.
pub proof fn law_islands_are_in_the_used_part<M: TriMath>(
    math: M,
    pens: Seq<Shelf>,
    order: Seq<usize>,
    sizes: Seq<Uv>,
    bin: u32,
    origins: Seq<Uv>,
    a: int,
)
    requires
        is_layout(math, pens, order, sizes, bin, origins),
        is_exact(math, pens, order, sizes),
        forall|k: int| 0 <= k < order.len() ==> is_size(sizes[#[trigger] order[k] as int]),
        0 <= a < order.len(),
        !is_tiny(sizes[order[a] as int]),
    ensures
        0 <= room(order, sizes, origins, a).0,
        0 <= room(order, sizes, origins, a).1,
        room(order, sizes, origins, a).2 <= crate::bits::value(pens.last().used_x),
        room(order, sizes, origins, a).3 <= crate::bits::value(pens.last().used_y),
{
    lemma_behind(math, pens, order, sizes, bin, origins, order.len() as int);
}

/// An island whose corners lie in its room.
pub open spec fn is_flat(island: Island) -> bool {
    &&& is_size(island.size)
    &&& forall|c: int, k: int|
        0 <= c < 3 && 0 <= k < 2 ==> 0 <= crate::bits::value(#[trigger] island.uv[c][k])
            <= crate::bits::value(island.size[k])
}

/// Scaled by the factor, every point of the used part of the plane comes into the unit square.
pub open spec fn scales_into_unit<M: TriMath>(math: M, used: Uv, factor: u32) -> bool {
    forall|uv: Uv, origin: Uv, r: Uv| #[trigger]
        call_ensures(M::place, (&math, uv, origin, factor), r) && is_in_used(uv, origin, used)
            ==> in_unit(r)
}

/// A point, moved by an origin, is in the used part of the plane.
pub open spec fn is_in_used(uv: Uv, origin: Uv, used: Uv) -> bool {
    forall|k: int|
        0 <= k < 2 ==> 0 <= crate::bits::value(#[trigger] uv[k]) + crate::bits::value(origin[k])
            <= crate::bits::value(used[k])
}

proof fn lemma_order_reaches_all(order: Seq<usize>, keys: Seq<i32>, i: int)
    requires
        crate::sort::is_descending_order(order, keys),
        0 <= i < keys.len(),
    ensures
        exists|a: int| 0 <= a < order.len() && order[a] == i,
{
    let places = order.map_values(|p: usize| p as int);
    let n = keys.len() as int;
    assert(places.no_duplicates());
    places.unique_seq_to_set();
    let all = vstd::set_lib::set_int_range(0, n);
    vstd::set_lib::lemma_int_range(0, n);
    assert forall|x: int| places.to_set().contains(x) implies all.contains(x) by {
        let a = choose|a: int| 0 <= a < places.len() && places[a] == x;
        assert(order[a] < keys.len());
    }
    vstd::set_lib::lemma_subset_equality(places.to_set(), all);
    assert(places.to_set().contains(i));
    let a = choose|a: int| 0 <= a < places.len() && places[a] == i;
    assert(order[a] == i);
}

proof fn lemma_centre()
    ensures
        in_unit(centre()),
{
    crate::bits::law_keys_order_numbers(HALF, crate::uv::ALMOST_ONE);
    crate::bits::law_keys_order_numbers(ZERO, HALF);
    assert(crate::bits::magnitude(ZERO) == 0);
}

/// Packed coordinates lie in the unit square: where the sums of the layout are made without
/// rounding, the islands lie in their rooms and the scale brings the used part of the plane into
/// the unit square.
pub proof fn law_packing_stays_in_the_unit<M: TriMath>(
    math: M,
    islands: Seq<Island>,
    order: Seq<usize>,
    pens: Seq<Shelf>,
    bin: u32,
    origins: Seq<Uv>,
    factor: u32,
    out: Seq<[Uv; 3]>,
)
    requires
        is_packing(math, islands, order, pens, bin, origins, factor, out),
        is_exact(math, pens, order, sizes_of(islands)),
        forall|i: int| 0 <= i < islands.len() ==> is_flat(#[trigger] islands[i]),
        scales_into_unit(math, [pens.last().used_x, pens.last().used_y], factor),
    ensures
        are_in_unit(out),
{
    let sizes = sizes_of(islands);
    let used = [pens.last().used_x, pens.last().used_y];
    lemma_centre();
    assert forall|k: int| 0 <= k < order.len() implies is_size(
        sizes[#[trigger] order[k] as int],
    ) by {
        assert(is_flat(islands[order[k] as int]));
    }
    assert forall|i: int, c: int| 0 <= i < out.len() && 0 <= c < 3 implies in_unit(
        #[trigger] out[i][c],
    ) by {
        assert(is_placed(math, islands[i], origins[i], factor, out[i]));
        assert(is_flat(islands[i]));
        if !is_tiny(islands[i].size) {
            lemma_order_reaches_all(order, heights(sizes), i);
            let a = choose|a: int| 0 <= a < order.len() && order[a] == i;
            law_islands_are_in_the_used_part(math, pens, order, sizes, bin, origins, a);
            lemma_placed_in_unit(math, islands[i], origins[i], used, factor, out[i], c);
        } else {
            assert(out[i][c] == centre());
        }
    }
}

proof fn lemma_placed_in_unit<M: TriMath>(
    math: M,
    island: Island,
    origin: Uv,
    used: Uv,
    factor: u32,
    out: [Uv; 3],
    c: int,
)
    requires
        is_placed(math, island, origin, factor, out),
        !is_tiny(island.size),
        is_flat(island),
        scales_into_unit(math, used, factor),
        0 <= crate::bits::value(origin[0]),
        0 <= crate::bits::value(origin[1]),
        crate::bits::value(origin[0]) + crate::bits::value(island.size[0]) <= crate::bits::value(
            used[0],
        ),
        crate::bits::value(origin[1]) + crate::bits::value(island.size[1]) <= crate::bits::value(
            used[1],
        ),
        0 <= c < 3,
    ensures
        in_unit(out[c]),
{
    let uv = island.uv[c];
    assert(0 <= crate::bits::value(island.uv[c][0]) <= crate::bits::value(island.size[0]));
    assert(0 <= crate::bits::value(island.uv[c][1]) <= crate::bits::value(island.size[1]));
    assert(is_in_used(uv, origin, used));
    assert(call_ensures(M::place, (&math, uv, origin, factor), out[c]));
}

/// The corners of a triangle exist, and stand in the order of its indices.
pub open spec fn has_corners(
    positions: Seq<[u32; 3]>,
    indices: Seq<u32>,
    tri: u32,
    p: [[u32; 3]; 3],
) -> bool {
    &&& 3 * tri + 2 < indices.len()
    &&& forall|c: int|
        0 <= c < 3 ==> indices[3 * tri + c] < positions.len() && #[trigger] p[c]
            == positions[indices[3 * tri + c] as int]
}

/// A size takes room: one of its sides is not below 1e-12.
pub open spec fn takes_room(size: Uv) -> bool {
    crate::bits::value(size[0]) >= crate::bits::value(0x2b8c_bccc) || crate::bits::value(size[1])
        >= crate::bits::value(0x2b8c_bccc)
}

/// A triangle was laid flat, and each of its flat corners placed, with one origin and one factor,
/// as the corner of the same number.
pub open spec fn is_corner_wise<M: TriMath>(
    math: M,
    p: [[u32; 3]; 3],
    island: Island,
    origin: Uv,
    factor: u32,
    out: [Uv; 3],
) -> bool {
    &&& call_ensures(M::project, (&math, p), island)
    &&& is_size(island.size) && takes_room(island.size) ==> forall|c: int|
        0 <= c < 3 ==> call_ensures(
            M::place,
            (&math, island.uv[c], origin, factor),
            #[trigger] out[c],
        )
    &&& is_size(island.size) && !takes_room(island.size) ==> forall|c: int|
        0 <= c < 3 ==> #[trigger] out[c] == [0x3f00_0000u32, 0x3f00_0000u32]
}

/// A triangle was laid flat and placed corner by corner.
pub open spec fn keeps_corners<M: TriMath>(
    math: M,
    p: [[u32; 3]; 3],
    origin: Uv,
    factor: u32,
    out: [Uv; 3],
) -> bool {
    exists|island: Island| #[trigger] is_corner_wise(math, p, island, origin, factor, out)
}

/// Unwrapped triangles keep the order of their corners: for every triangle there is one origin, and
/// for all of them one factor, with which each corner of the flat triangle becomes the corner of the
/// same number. A triangle that takes no room, or lacks a corner, lies in the centre.
pub proof fn law_packed_corners_keep_their_numbers<M: TriMath>(
    math: M,
    positions: Seq<[u32; 3]>,
    indices: Seq<u32>,
    tris: Seq<u32>,
    out: Seq<[Uv; 3]>,
) -> (r: (Seq<Uv>, u32))
    requires
        are_unwrapped(math, positions, indices, tris, out),
    ensures
        out.len() == tris.len(),
        r.0.len() == tris.len(),
        forall|i: int, p: [[u32; 3]; 3]|
            0 <= i < tris.len() && #[trigger] has_corners(positions, indices, tris[i], p)
                ==> keeps_corners(math, p, r.0[i], r.1, out[i]),
        forall|i: int, c: int|
            0 <= i < tris.len() && 0 <= c < 3 && !(exists|p: [[u32; 3]; 3]| #[trigger]
                has_corners(positions, indices, tris[i], p)) ==> #[trigger] out[i][c] == [
                0x3f00_0000u32,
                0x3f00_0000u32,
            ],
{
    if tris.len() == 0 {
        return (Seq::empty(), 0);
    }
    let islands = choose|islands: Seq<Island>|
        islands.len() == tris.len() && (forall|i: int|
            0 <= i < tris.len() ==> is_island(
                math,
                positions,
                indices,
                tris[i],
                #[trigger] islands[i],
            )) && #[trigger] are_packed(math, islands, out);
    let (order, pens, bin, origins, factor) = choose|
        order: Seq<usize>,
        pens: Seq<Shelf>,
        bin: u32,
        origins: Seq<Uv>,
        factor: u32,
    | #[trigger]
        is_packing(math, islands, order, pens, bin, origins, factor, out);
    assert forall|i: int, p: [[u32; 3]; 3]|
        0 <= i < tris.len() && #[trigger] has_corners(
            positions,
            indices,
            tris[i],
            p,
        ) implies keeps_corners(math, p, origins[i], factor, out[i]) by {
        assert(is_island(math, positions, indices, tris[i], islands[i]));
        assert(is_placed(math, islands[i], origins[i], factor, out[i]));
        lemma_corner_wise(
            math,
            positions,
            indices,
            tris[i],
            p,
            islands[i],
            origins[i],
            factor,
            out[i],
        );
    }
    assert forall|i: int, c: int|
        0 <= i < tris.len() && 0 <= c < 3 && !(exists|p: [[u32; 3]; 3]| #[trigger]
            has_corners(positions, indices, tris[i], p)) implies #[trigger] out[i][c] == [
        0x3f00_0000u32,
        0x3f00_0000u32,
    ] by {
        assert(is_island(math, positions, indices, tris[i], islands[i]));
        assert(is_placed(math, islands[i], origins[i], factor, out[i]));
        lemma_nothing_placed(
            math,
            positions,
            indices,
            tris[i],
            islands[i],
            origins[i],
            factor,
            out[i],
        );
    }
    (origins, factor)
}

proof fn lemma_corner_wise<M: TriMath>(
    math: M,
    positions: Seq<[u32; 3]>,
    indices: Seq<u32>,
    tri: u32,
    p: [[u32; 3]; 3],
    island: Island,
    origin: Uv,
    factor: u32,
    out: [Uv; 3],
)
    requires
        is_island(math, positions, indices, tri, island),
        is_placed(math, island, origin, factor, out),
        has_corners(positions, indices, tri, p),
    ensures
        is_corner_wise(math, p, island, origin, factor, out),
{
    let s = island.size;
    assert(p[0] == positions[indices[3 * tri + 0] as int]);
    assert(p[1] == positions[indices[3 * tri + 1] as int]);
    assert(p[2] == positions[indices[3 * tri + 2] as int]);
    let q = corners_of(positions, indices, tri as int)->0;
    assert(p =~= q);
    if is_size(s) {
        crate::bits::law_keys_order_numbers(s[0], s[1]);
        crate::bits::law_keys_order_numbers(s[1], s[0]);
        crate::bits::law_keys_order_numbers(s[0], 0x2b8c_bccc);
        crate::bits::law_keys_order_numbers(s[1], 0x2b8c_bccc);
    }
}

proof fn lemma_nothing_placed<M: TriMath>(
    math: M,
    positions: Seq<[u32; 3]>,
    indices: Seq<u32>,
    tri: u32,
    island: Island,
    origin: Uv,
    factor: u32,
    out: [Uv; 3],
)
    requires
        is_island(math, positions, indices, tri, island),
        is_placed(math, island, origin, factor, out),
        !(exists|p: [[u32; 3]; 3]| #[trigger] has_corners(positions, indices, tri, p)),
    ensures
        forall|c: int| 0 <= c < 3 ==> #[trigger] out[c] == [0x3f00_0000u32, 0x3f00_0000u32],
{
    match corners_of(positions, indices, tri as int) {
        Some(p) => {
            assert(has_corners(positions, indices, tri, p));
        },
        None => {
            assert(crate::bits::magnitude(ZERO) == 0);
            assert(is_tiny(island.size));
        },
    }
}

/// Packing moves and scales a triangle and does nothing else: where placing multiplies by the
/// factor and adds a border without rounding, the way from one packed corner to another is the
/// factor times the way between the flat corners of the same numbers.
pub proof fn law_packing_only_moves_and_scales<M: TriMath>(
    math: M,
    p: [[u32; 3]; 3],
    island: Island,
    origin: Uv,
    factor: u32,
    out: [Uv; 3],
    unit: int,
    border: int,
    a: int,
    b: int,
    k: int,
)
    requires
        is_corner_wise(math, p, island, origin, factor, out),
        is_size(island.size),
        takes_room(island.size),
        forall|uv: Uv, r: Uv| #[trigger]
            call_ensures(M::place, (&math, uv, origin, factor), r) ==> forall|k: int|
                0 <= k < 2 ==> unit * crate::bits::value(#[trigger] r[k]) == (crate::bits::value(
                    uv[k],
                ) + crate::bits::value(origin[k])) * crate::bits::value(factor) + border,
        0 <= a < 3,
        0 <= b < 3,
        0 <= k < 2,
    ensures
        unit * (crate::bits::value(out[a][k]) - crate::bits::value(out[b][k]))
            == crate::bits::value(factor) * (crate::bits::value(island.uv[a][k])
            - crate::bits::value(island.uv[b][k])),
{
    let x = crate::bits::value(out[a][k]);
    let y = crate::bits::value(out[b][k]);
    let u = crate::bits::value(island.uv[a][k]);
    let v = crate::bits::value(island.uv[b][k]);
    let o = crate::bits::value(origin[k]);
    let f = crate::bits::value(factor);
    assert(call_ensures(M::place, (&math, island.uv[a], origin, factor), out[a]));
    assert(call_ensures(M::place, (&math, island.uv[b], origin, factor), out[b]));
    assert(unit * x == (u + o) * f + border);
    assert(unit * y == (v + o) * f + border);
    assert(unit * (x - y) == f * (u - v)) by (nonlinear_arith)
        requires
            unit * x == (u + o) * f + border,
            unit * y == (v + o) * f + border,
    ;
}

/// Where an island goes: on in its row, or, if it would stick out of a row that has been begun, to
/// the start of a new row on top of it. The row grows to the right by the island's width, and is as
/// high as its highest island.
pub proof fn law_rows_go_on_until_they_are_full<M: TriMath>(
    math: M,
    before: Shelf,
    size: Uv,
    bin: u32,
    origin: Uv,
    after: Shelf,
)
    requires
        shelf_step(math, before, size, bin, origin, after),
        is_pen(before),
        is_size(size),
        takes_room(size),
        crate::bits::is_ordered(bin),
        adds_exactly(math, before.x, size[0]),
        adds_exactly(math, ZERO, size[0]),
        adds_exactly(math, before.y, before.row),
        exists|r: u32| sums(math, before.x, size[0], r),
    ensures
        ({
            let v = |x: u32| crate::bits::value(x);
            let full = v(before.x) > 0 && v(before.x) + v(size[0]) > v(bin);
            &&& v(origin[0]) == if full {
                0
            } else {
                v(before.x)
            }
            &&& v(origin[1]) == if full {
                v(before.y) + v(before.row)
            } else {
                v(before.y)
            }
            &&& v(after.x) == v(origin[0]) + v(size[0])
            &&& v(after.y) == v(origin[1])
            &&& v(after.row) == if full || v(before.row) < v(size[1]) {
                v(size[1])
            } else {
                v(before.row)
            }
        }),
{
    crate::bits::law_keys_order_numbers(size[0], size[1]);
    crate::bits::law_keys_order_numbers(size[1], size[0]);
    crate::bits::law_keys_order_numbers(size[0], 0x2b8c_bccc);
    crate::bits::law_keys_order_numbers(size[1], 0x2b8c_bccc);
    assert(!is_tiny(size));
    assert(crate::bits::magnitude(ZERO) == 0 && crate::bits::value(ZERO) == 0);
    let start = choose|start: Shelf| #[trigger]
        breaks_row(math, before, size, bin, start) && lays_down(math, start, size, after) && origin
            == [start.x, start.y];
    crate::bits::law_keys_order_numbers(ZERO, before.x);
    if crate::bits::is_less(ZERO, before.x) {
        let end = choose|end: u32| #[trigger]
            sums(math, before.x, size[0], end) && if crate::bits::is_less(bin, end) {
                start.x == ZERO && start.row == ZERO && start.used_x == before.used_x
                    && start.used_y == before.used_y && sums(math, before.y, before.row, start.y)
            } else {
                start == before
            };
        crate::bits::law_keys_order_numbers(bin, end);
    }
    crate::bits::law_keys_order_numbers(start.row, size[1]);
}

/// Higher islands are laid out before lower ones.
pub proof fn law_higher_islands_come_first(
    order: Seq<usize>,
    sizes: Seq<Uv>,
    a: int,
    b: int,
)
    requires
        crate::sort::is_descending_order(order, heights(sizes)),
        0 <= a < b < order.len(),
        crate::bits::is_ordered(sizes[order[a] as int][1]),
        crate::bits::is_ordered(sizes[order[b] as int][1]),
    ensures
        crate::bits::value(sizes[order[a] as int][1]) >= crate::bits::value(
            sizes[order[b] as int][1],
        ),
{
    let x = sizes[order[a] as int][1];
    let y = sizes[order[b] as int][1];
    crate::bits::law_keys_order_numbers(x, y);
    assert(crate::sort::comes_first(heights(sizes), order[a], order[b]));
}

/// A point was moved to the column and row of a tile.
pub open spec fn is_moved_to<F: Fn(Uv, [u32; 2]) -> Uv>(
    into_tile: F,
    from: Uv,
    udim: u32,
    to: Uv,
) -> bool {
    exists|tile: [u32; 2]|
        tile[0] == (udim - 1001) % 10 && tile[1] == (udim - 1001) / 10 && #[trigger] call_ensures(
            into_tile,
            (from, tile),
            to,
        )
}

/// Every corner of the unwrapped mesh comes from the way of unwrapping: it was asked for a list of
/// triangles that share the tile, the triangle is in that list, and what was given there for the
/// corner of the same number was moved to the column and row of the tile.
pub proof fn law_unwrapped_corners_come_from_the_algorithm<
    A: UnwrapAlgo,
    F: Fn(Uv, [u32; 2]) -> Uv,
>(
    algo: A,
    into_tile: F,
    mesh: Mesh,
    face_udim: Seq<u32>,
    packed: Map<u32, Seq<[Uv; 3]>>,
    tris: Seq<[Uv; 3]>,
    t: int,
) -> (r: (Vec<u32>, Vec<[Uv; 3]>, int))
    requires
        is_unwrap(algo, into_tile, mesh, face_udim, packed, tris),
        unwrapped_count(mesh, face_udim) <= u32::MAX,
        0 <= t < unwrapped_count(mesh, face_udim),
        face_udim[t] >= 1001,
    ensures
        call_ensures(
            A::unwrap_tris,
            (&algo, &mesh.positions, &mesh.indices, &r.0),
            r.1,
        ),
        0 <= r.2 < r.0@.len(),
        r.0@[r.2] == t,
        forall|j: int|
            0 <= j < r.0@.len() ==> #[trigger] r.0@[j] < face_udim.len()
                && face_udim[r.0@[j] as int] == face_udim[t],
        r.2 < r.1@.len() ==> forall|c: int|
            0 <= c < 3 ==> is_moved_to(
                into_tile,
                r.1@[r.2][c],
                face_udim[t],
                #[trigger] tris[t][c],
            ),
{
    let n = unwrapped_count(mesh, face_udim);
    let udim = face_udim[t];
    let all = bucket(face_udim, udim, n);
    lemma_bucket(face_udim, udim, n);
    assert(all.contains(t as u32));
    let at = choose|at: int| 0 <= at < all.len() && all[at] == t as u32;
    assert(bucket(face_udim, udim, all[at] as nat).len() == at);
    assert(answer(algo, mesh, all, packed[udim]));
    let (list, out) = choose|list: Vec<u32>, out: Vec<[Uv; 3]>|
        list@ == all && out@ == packed[udim] && #[trigger] call_ensures(
            A::unwrap_tris,
            (&algo, &mesh.positions, &mesh.indices, &list),
            out,
        );
    assert(tri_fits(into_tile, face_udim, packed, t, tris[t]));
    if at < out@.len() {
        assert forall|c: int| 0 <= c < 3 implies is_moved_to(
            into_tile,
            out@[at][c],
            udim,
            #[trigger] tris[t][c],
        ) by {
            assert(corner_fits(into_tile, face_udim, packed, t, c, tris[t][c]));
            let tile = choose|tile: [u32; 2]|
                (tile[0] as int, tile[1] as int) == crate::uv::origin_of(udim)
                    && #[trigger] call_ensures(
                    into_tile,
                    (packed[udim][at][c], tile),
                    tris[t][c],
                );
            assert(call_ensures(into_tile, (out@[at][c], tile), tris[t][c]));
        }
    }
    (list, out, at)
}

/// The coordinates of the triangles follow each other, three for each, corner by corner.
pub proof fn law_corners_follow_each_other(tris: Seq<[Uv; 3]>, t: int, c: int)
    requires
        0 <= t < tris.len(),
        0 <= c < 3,
    ensures
        flattened(tris).len() == 3 * tris.len(),
        flattened(tris)[3 * t + c] == tris[t][c],
{
    assert((3 * t + c) / 3 == t && (3 * t + c) % 3 == c);
}

/// A triangle that cannot be laid flat takes no room and lies in the centre of its tile, as do all
/// corners that have no place.
pub proof fn law_what_has_no_place_lies_in_the_centre<M: TriMath>(
    math: M,
    positions: Seq<[u32; 3]>,
    indices: Seq<u32>,
    tri: u32,
    island: Island,
    c: int,
)
    requires
        is_island(math, positions, indices, tri, island),
        0 <= c < 3,
    ensures
        3 * tri + 2 >= indices.len() ==> island.size == [0u32, 0u32] && island.uv[c] == [
            0x3f00_0000u32,
            0x3f00_0000u32,
        ],
        3 * tri + 2 < indices.len() && indices[3 * tri + c] >= positions.len() ==> island.size == [
            0u32,
            0u32,
        ] && island.uv[c] == [0x3f00_0000u32, 0x3f00_0000u32],
        unplaced()[c] == [0x3f00_0000u32, 0x3f00_0000u32],
{
    assert(c == 0 || c == 1 || c == 2);
}

} // verus!
