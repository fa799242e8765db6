//! Texture tiles and the automatic unwrap. Tiles are numbered in rows of ten: 1001 is the tile at
//! the origin, 1002 the one to its right, 1011 the one above it.

use std::collections::HashMap;

use vstd::prelude::*;

use crate::bits::{is_number, less, ONE};
use crate::scene::Handle;
use crate::segment::{SegmentId, Segmentation, UNASSIGNED};

verus! {

broadcast use vstd::std_specs::hash::group_hash_axioms;

/// A point of the texture plane, by bit patterns.
pub type Uv = [u32; 2];

/// Bit pattern of 0.999: fractions up to it stay in their tile when they are added to its origin in
/// single precision.
pub const ALMOST_ONE: u32 = 0x3f7f_be77;

/// The column and the row of a tile.
pub open spec fn origin_of(udim: u32) -> (int, int) {
    let n = if udim >= 1001 {
        udim - 1001
    } else {
        0
    };
    (n % 10, n / 10)
}

/// The number of the tile in a column and a row; both are limited to the first ten.
pub open spec fn tile_at(column: int, row: int) -> int {
    1001 + crate::paint::limited(column, 9) + crate::paint::limited(row, 9) * 10
}

/// The column and the row of a tile: 1001 is in column 0 of row 0, 1002 in column 1 of row 0, 1011
/// in column 0 of row 1.
pub fn udim_origin(udim: u32) -> (o: [u32; 2])
    ensures
        (o[0] as int, o[1] as int) == origin_of(udim),
{
    let n: u32 = udim.saturating_sub(1001);
    [n % 10, n / 10]
}

/// The whole part of a number, rounded down. What is not a number counts as zero.
pub open spec fn floor_of(bits: u32) -> int {
    if crate::bits::is_ordered(bits) {
        crate::bits::value(bits) / crate::bits::value(ONE)
    } else {
        0
    }
}

/// The pattern of a whole number from one to nine.
spec fn small_whole(k: int) -> u32 {
    seq![
        0u32,
        0x3f80_0000u32,
        0x4000_0000u32,
        0x4040_0000u32,
        0x4080_0000u32,
        0x40a0_0000u32,
        0x40c0_0000u32,
        0x40e0_0000u32,
        0x4100_0000u32,
        0x4110_0000u32,
    ][k]
}

fn whole_pattern(k: u32) -> (bits: u32)
    requires
        1 <= k <= 9,
    ensures
        bits == small_whole(k as int),
{
    match k {
        1 => 0x3f80_0000,
        2 => 0x4000_0000,
        3 => 0x4040_0000,
        4 => 0x4080_0000,
        5 => 0x40a0_0000,
        6 => 0x40c0_0000,
        7 => 0x40e0_0000,
        8 => 0x4100_0000,
        _ => 0x4110_0000,
    }
}

proof fn lemma_small_whole(k: int)
    requires
        1 <= k <= 9,
    ensures
        crate::bits::is_ordered(small_whole(k)),
        crate::bits::value(small_whole(k)) == k * crate::bits::value(ONE),
        crate::bits::value(ONE) > 0,
{
    vstd::arithmetic::power2::lemma_pow2_pos(126);
    vstd::arithmetic::power2::lemma_pow2_unfold(127);
    vstd::arithmetic::power2::lemma_pow2_unfold(128);
    vstd::arithmetic::power2::lemma_pow2_unfold(129);
    let p = vstd::arithmetic::power2::pow2(126) as int;
    assert(crate::bits::value(ONE) == 0x80_0000 * p);
    assert(vstd::arithmetic::power2::pow2(127) == 2 * p);
    assert(vstd::arithmetic::power2::pow2(128) == 4 * p);
    assert(vstd::arithmetic::power2::pow2(129) == 8 * p);
    if k == 1 {
        let m: int = 0x3f800000;
        assert(m / 0x80_0000 == 127 && m % 0x80_0000 == 0x0);
        assert(crate::bits::value(small_whole(k)) == 0x800000 * (1 * p));
    }
    if k == 2 {
        let m: int = 0x40000000;
        assert(m / 0x80_0000 == 128 && m % 0x80_0000 == 0x0);
        assert(crate::bits::value(small_whole(k)) == 0x800000 * (2 * p));
    }
    if k == 3 {
        let m: int = 0x40400000;
        assert(m / 0x80_0000 == 128 && m % 0x80_0000 == 0x400000);
        assert(crate::bits::value(small_whole(k)) == 0xc00000 * (2 * p));
    }
    if k == 4 {
        let m: int = 0x40800000;
        assert(m / 0x80_0000 == 129 && m % 0x80_0000 == 0x0);
        assert(crate::bits::value(small_whole(k)) == 0x800000 * (4 * p));
    }
    if k == 5 {
        let m: int = 0x40a00000;
        assert(m / 0x80_0000 == 129 && m % 0x80_0000 == 0x200000);
        assert(crate::bits::value(small_whole(k)) == 0xa00000 * (4 * p));
    }
    if k == 6 {
        let m: int = 0x40c00000;
        assert(m / 0x80_0000 == 129 && m % 0x80_0000 == 0x400000);
        assert(crate::bits::value(small_whole(k)) == 0xc00000 * (4 * p));
    }
    if k == 7 {
        let m: int = 0x40e00000;
        assert(m / 0x80_0000 == 129 && m % 0x80_0000 == 0x600000);
        assert(crate::bits::value(small_whole(k)) == 0xe00000 * (4 * p));
    }
    if k == 8 {
        let m: int = 0x41000000;
        assert(m / 0x80_0000 == 130 && m % 0x80_0000 == 0x0);
        assert(crate::bits::value(small_whole(k)) == 0x800000 * (8 * p));
    }
    if k == 9 {
        let m: int = 0x41100000;
        assert(m / 0x80_0000 == 130 && m % 0x80_0000 == 0x100000);
        assert(crate::bits::value(small_whole(k)) == 0x900000 * (8 * p));
    }
}

/// Which of the first ten columns, or rows, a coordinate is in.
fn cell(bits: u32) -> (c: u32)
    ensures
        c == crate::paint::limited(floor_of(bits), 9),
{
    let mut k: u32 = 0;
    let ghost v = crate::bits::value(bits);
    let ghost one = crate::bits::value(ONE);
    if !is_number(bits) {
        return 0;
    }
    proof {
        lemma_small_whole(1);
    }
    while k < 9
        invariant
            k <= 9,
            one == crate::bits::value(ONE),
            one > 0,
            v == crate::bits::value(bits),
            crate::bits::is_ordered(bits),
            k > 0 ==> v >= k * one,
        decreases 9 - k,
    {
        proof {
            lemma_small_whole(k + 1);
        }
        if less(bits, whole_pattern(k + 1)) {
            proof {
                if k > 0 {
                    assert(v / one == k) by (nonlinear_arith)
                        requires
                            k * one <= v < (k + 1) * one,
                            one > 0,
                    ;
                } else {
                    assert(v / one <= 0) by (nonlinear_arith)
                        requires
                            v < (k + 1) * one,
                            k == 0,
                            one > 0,
                    ;
                }
            }
            return k;
        }
        k += 1;
    }
    proof {
        assert(v / one >= 9) by (nonlinear_arith)
            requires
                v >= 9 * one,
                one > 0,
        ;
    }
    9
}

/// The number of the tile that a point lies in.
pub fn udim_from_uv(uv: Uv) -> (udim: u32)
    ensures
        udim == tile_at(floor_of(uv[0]), floor_of(uv[1])),
{
    let u: u32 = cell(uv[0]);
    let v: u32 = cell(uv[1]);
    1001 + u + v * 10
}

/// The tile numbers of the first ten rows and the places of the tiles determine each other.
pub proof fn law_tile_numbers_name_places(udim: u32, column: int, row: int)
    ensures
        1001 <= udim <= 1100 ==> tile_at(origin_of(udim).0, origin_of(udim).1) == udim,
        0 <= column <= 9 && 0 <= row <= 9 ==> origin_of(tile_at(column, row) as u32) == (
            column,
            row,
        ),
{
}

/// A point whose coordinates have the tile's column and row as their whole parts lies in the tile.
pub proof fn law_origin_comes_back(udim: u32, uv: Uv)
    requires
        1001 <= udim <= 1100,
        floor_of(uv[0]) == origin_of(udim).0,
        floor_of(uv[1]) == origin_of(udim).1,
    ensures
        tile_at(floor_of(uv[0]), floor_of(uv[1])) == udim,
{
}

/// The number is a whole number and a fraction below one, added up without rounding.
pub open spec fn is_exact_sum(whole: int, fraction: u32, sum: u32) -> bool {
    &&& crate::bits::is_ordered(sum)
    &&& 0 <= crate::bits::value(fraction) < crate::bits::value(ONE)
    &&& crate::bits::value(sum) == whole * crate::bits::value(ONE) + crate::bits::value(fraction)
}

/// The origin of a tile and a fraction below one, added up without rounding, lie in the tile.
pub proof fn law_sums_lie_in_the_tile(udim: u32, fraction: Uv, uv: Uv)
    requires
        1001 <= udim <= 1100,
        is_exact_sum(origin_of(udim).0, fraction[0], uv[0]),
        is_exact_sum(origin_of(udim).1, fraction[1], uv[1]),
    ensures
        floor_of(uv[0]) == origin_of(udim).0,
        floor_of(uv[1]) == origin_of(udim).1,
        tile_at(floor_of(uv[0]), floor_of(uv[1])) == udim,
{
    lemma_whole_part(origin_of(udim).0, fraction[0], uv[0]);
    lemma_whole_part(origin_of(udim).1, fraction[1], uv[1]);
}

proof fn lemma_whole_part(whole: int, fraction: u32, sum: u32)
    requires
        is_exact_sum(whole, fraction, sum),
    ensures
        floor_of(sum) == whole,
{
    let one = crate::bits::value(ONE);
    let f = crate::bits::value(fraction);
    assert((whole * one + f) / one == whole) by (nonlinear_arith)
        requires
            0 <= f < one,
    ;
}

/// The number is a whole number and a fraction up to 0.999, added up and rounded: it is not below
/// the whole number, and off by less than the fraction keeps from one.
pub open spec fn is_rounded_sum(whole: int, fraction: u32, sum: u32) -> bool {
    let exact = whole * crate::bits::value(ONE) + crate::bits::value(fraction);
    let slack = crate::bits::value(ONE) - crate::bits::value(ALMOST_ONE);
    &&& crate::bits::is_ordered(sum)
    &&& 0 <= crate::bits::value(fraction) <= crate::bits::value(ALMOST_ONE)
    &&& whole * crate::bits::value(ONE) <= crate::bits::value(sum)
    &&& exact - slack < crate::bits::value(sum) < exact + slack
}

/// The origin of a tile and a fraction up to 0.999, added up and rounded, lie in the tile.
pub proof fn law_rounded_sums_lie_in_the_tile(udim: u32, fraction: Uv, uv: Uv)
    requires
        1001 <= udim <= 1100,
        is_rounded_sum(origin_of(udim).0, fraction[0], uv[0]),
        is_rounded_sum(origin_of(udim).1, fraction[1], uv[1]),
    ensures
        floor_of(uv[0]) == origin_of(udim).0,
        floor_of(uv[1]) == origin_of(udim).1,
        tile_at(floor_of(uv[0]), floor_of(uv[1])) == udim,
{
    lemma_rounded_whole(origin_of(udim).0, fraction[0], uv[0]);
    lemma_rounded_whole(origin_of(udim).1, fraction[1], uv[1]);
}

/// A rounded sum keeps its whole part.
pub proof fn lemma_rounded_whole(whole: int, fraction: u32, sum: u32)
    requires
        is_rounded_sum(whole, fraction, sum),
    ensures
        floor_of(sum) == whole,
{
    let one = crate::bits::value(ONE);
    let v = crate::bits::value(sum);
    lemma_small_whole(1);
    assert(v < whole * one + one);
    assert(v / one == whole) by (nonlinear_arith)
        requires
            whole * one <= v < whole * one + one,
            one > 0,
    ;
}

/// Every point lies in one of the first hundred tiles.
pub proof fn law_points_have_tiles(uv: Uv)
    ensures
        1001 <= tile_at(floor_of(uv[0]), floor_of(uv[1])) <= 1100,
{
}

/// The number of faces of a segment; the leftover faces are no segment.
pub open spec fn size_of(seg: Segmentation, id: SegmentId) -> nat {
    if id == UNASSIGNED {
        0
    } else {
        crate::segment::faces_in(seg.labels(), id).len()
    }
}

/// Tiles given out one after the other to the first `n` segments, as far as they have faces; the
/// leftover faces come before them. With the tiles comes the next free number.
pub open spec fn given_out(seg: Segmentation, n: nat) -> (Map<SegmentId, u32>, int)
    decreases n,
{
    if n == 0 {
        if crate::segment::faces_in(seg.labels(), UNASSIGNED).len() > 0 {
            (map![UNASSIGNED => 1001u32], 1002)
        } else {
            (Map::empty(), 1001)
        }
    } else {
        let (before, next) = given_out(seg, (n - 1) as nat);
        let id = seg.segments@[n - 1].id;
        if size_of(seg, id) > 0 {
            (before.insert(id, next as u32), next + 1)
        } else {
            (before, next)
        }
    }
}

/// The tile of every segment that has faces, and of the leftover faces if there are any. Without
/// any faces the leftover faces have the first tile.
pub open spec fn tiles_by_segment(seg: Segmentation) -> Map<SegmentId, u32> {
    let tiles = given_out(seg, seg.segments@.len()).0;
    if tiles.dom() =~= Set::empty() {
        map![UNASSIGNED => 1001u32]
    } else {
        tiles
    }
}

/// The counts and the tile numbers fit in a machine word.
pub open spec fn countable(seg: Segmentation) -> bool {
    &&& crate::segment::faces_in(seg.labels(), UNASSIGNED).len() <= usize::MAX
    &&& seg.segments@.len() + 1002 <= u32::MAX
}

/// Gives every segment that has faces a tile: the leftover faces first, then the segments in
/// their order.
pub fn segment_udims(seg: &Segmentation) -> (tiles: HashMap<SegmentId, u32>)
    requires
        seg.wf(),
        countable(*seg),
    ensures
        tiles@ == tiles_by_segment(*seg),
{
    let mut tiles: HashMap<SegmentId, u32> = HashMap::new();
    let mut next: u32 = 1001;
    if seg.leftover_faces() > 0 {
        tiles.insert(UNASSIGNED, next);
        next += 1;
    }
    assert(tiles@ =~= given_out(*seg, 0).0);
    let mut i: usize = 0;
    while i < seg.segments.len()
        invariant
            i <= seg.segments@.len(),
            seg.wf(),
            countable(*seg),
            tiles@ == given_out(*seg, i as nat).0,
            next == given_out(*seg, i as nat).1,
            next <= 1002 + i,
        decreases seg.segments@.len() - i,
    {
        let id: SegmentId = seg.segments[i].id;
        if seg.face_count(id) > 0 {
            tiles.insert(id, next);
            next += 1;
        }
        i += 1;
    }
    if tiles.is_empty() {
        proof {
            assert(tiles@.dom() =~= Set::empty());
        }
        tiles.insert(UNASSIGNED, 1001);
        assert(tiles@ =~= map![UNASSIGNED => 1001u32]);
    } else {
        proof {
            assert(tiles@.dom().len() > 0);
            assert(!(tiles@.dom() =~= Set::<SegmentId>::empty()));
        }
    }
    tiles
}

/// The tile of a segment, or that of the leftover faces, or the first one.
pub open spec fn tile_for(tiles: Map<SegmentId, u32>, id: SegmentId) -> u32 {
    if tiles.contains_key(id) {
        tiles[id]
    } else if tiles.contains_key(UNASSIGNED) {
        tiles[UNASSIGNED]
    } else {
        1001
    }
}

/// The tile of each of the first faces of a mesh.
pub fn face_udims(seg: &Segmentation, mesh: Handle, tri_count: usize) -> (out: Vec<u32>)
    requires
        seg.wf(),
        countable(*seg),
    ensures
        out@ == Seq::new(
            tri_count as nat,
            |t: int|
                tile_for(
                    tiles_by_segment(*seg),
                    crate::segment::label_in(seg.labels(), mesh, (t as u32) as int),
                ),
        ),
{
    let tiles = segment_udims(seg);
    let fallback: u32 = match tiles.get(&UNASSIGNED) {
        Some(t) => *t,
        None => 1001,
    };
    let mut out: Vec<u32> = Vec::new();
    let mut t: usize = 0;
    while t < tri_count
        invariant
            t <= tri_count,
            tiles@ == tiles_by_segment(*seg),
            fallback == tile_for(tiles@, UNASSIGNED),
            out@.len() == t,
            forall|k: int|
                0 <= k < t ==> #[trigger] out@[k] == tile_for(
                    tiles@,
                    crate::segment::label_in(seg.labels(), mesh, (k as u32) as int),
                ),
        decreases tri_count - t,
    {
        let label: SegmentId = seg.label_of(mesh, t as u32);
        let udim: u32 = match tiles.get(&label) {
            Some(u) => *u,
            None => fallback,
        };
        out.push(udim);
        t += 1;
    }
    assert(out@ =~= Seq::new(
        tri_count as nat,
        |t: int|
            tile_for(
                tiles_by_segment(*seg),
                crate::segment::label_in(seg.labels(), mesh, (t as u32) as int),
            ),
    ));
    out
}

proof fn lemma_given_out(seg: Segmentation, n: nat)
    requires
        seg.segments@.len() + 1002 <= u32::MAX,
        n <= seg.segments@.len(),
    ensures
        ({
            let (tiles, next) = given_out(seg, n);
            &&& 1001 <= next <= 1002 + n
            &&& forall|a: SegmentId| #[trigger] tiles.contains_key(a) ==> 1001 <= tiles[a] < next
            &&& forall|a: SegmentId, b: SegmentId|
                tiles.contains_key(a) && tiles.contains_key(b) && a != b ==> #[trigger] tiles[a]
                    != #[trigger] tiles[b]
            &&& forall|a: SegmentId|
                #[trigger] tiles.contains_key(a) ==> crate::segment::faces_in(seg.labels(), a).len()
                    > 0
            &&& crate::segment::faces_in(seg.labels(), UNASSIGNED).len() > 0
                ==> tiles.contains_key(UNASSIGNED) && tiles[UNASSIGNED] == 1001
            &&& forall|i: int|
                0 <= i < n && size_of(seg, (#[trigger] seg.segments@[i]).id) > 0
                    ==> tiles.contains_key(seg.segments@[i].id)
        }),
    decreases n,
{
    if n > 0 {
        lemma_given_out(seg, (n - 1) as nat);
    }
}

/// No two segments share a tile, the leftover faces have the first tile if there are any, and
/// every segment of the list that has faces has a tile.
pub proof fn law_tiles_are_distinct(seg: Segmentation, a: SegmentId, b: SegmentId, i: int)
    requires
        seg.segments@.len() + 1002 <= u32::MAX,
    ensures
        tiles_by_segment(seg).contains_key(a) && tiles_by_segment(seg).contains_key(b) && a != b
            ==> tiles_by_segment(seg)[a] != tiles_by_segment(seg)[b],
        crate::segment::faces_in(seg.labels(), UNASSIGNED).len() > 0 ==> tiles_by_segment(
            seg,
        ).contains_key(UNASSIGNED) && tiles_by_segment(seg)[UNASSIGNED] == 1001,
        0 <= i < seg.segments@.len() && size_of(seg, seg.segments@[i].id) > 0
            ==> tiles_by_segment(seg).contains_key(seg.segments@[i].id),
        tiles_by_segment(seg).contains_key(a) ==> 1001 <= tiles_by_segment(seg)[a] <= 1001
            + seg.segments@.len(),
{
    lemma_given_out(seg, seg.segments@.len());
    let tiles = given_out(seg, seg.segments@.len()).0;
    if 0 <= i < seg.segments@.len() && size_of(seg, seg.segments@[i].id) > 0 {
        assert(tiles.dom().contains(seg.segments@[i].id));
    }
    if crate::segment::faces_in(seg.labels(), UNASSIGNED).len() > 0 {
        assert(tiles.dom().contains(UNASSIGNED));
    }
}

/// Where every labelled face is in a segment of the list, every face gets the tile of its own
/// label, and two faces get the same tile exactly when they have the same label.
pub proof fn law_same_tile_same_label(seg: Segmentation, a: (Handle, int), b: (Handle, int))
    requires
        seg.wf(),
        countable(seg),
        crate::segment::are_listed(seg.segments@, seg.labels()),
        crate::segment::all_faces(seg.labels()).contains(a),
        crate::segment::all_faces(seg.labels()).contains(b),
    ensures
        ({
            let tiles = tiles_by_segment(seg);
            let x = crate::segment::label_in(seg.labels(), a.0, a.1);
            let y = crate::segment::label_in(seg.labels(), b.0, b.1);
            &&& tile_for(tiles, x) == tile_for(tiles, y) <==> x == y
            &&& tiles.contains_key(x) && tile_for(tiles, x) == tiles[x]
            &&& tiles.contains_key(y) && tile_for(tiles, y) == tiles[y]
        }),
{
    let x = crate::segment::label_in(seg.labels(), a.0, a.1);
    let y = crate::segment::label_in(seg.labels(), b.0, b.1);
    lemma_has_tile(seg, a);
    lemma_has_tile(seg, b);
    law_tiles_are_distinct(seg, x, y, 0);
}

proof fn lemma_has_tile(seg: Segmentation, f: (Handle, int))
    requires
        seg.wf(),
        countable(seg),
        crate::segment::are_listed(seg.segments@, seg.labels()),
        crate::segment::all_faces(seg.labels()).contains(f),
    ensures
        tiles_by_segment(seg).contains_key(crate::segment::label_in(seg.labels(), f.0, f.1)),
{
    let x = crate::segment::label_in(seg.labels(), f.0, f.1);
    let faces = crate::segment::faces_in(seg.labels(), x);
    crate::segment::law_faces_are_finite(seg, x);
    assert(faces.contains(f));
    assert(faces.len() > 0) by {
        if faces.len() == 0 {
            assert(faces =~= Set::empty());
        }
    }
    if x == UNASSIGNED {
        law_tiles_are_distinct(seg, x, x, 0);
    } else {
        let i = choose|i: int|
            0 <= i < seg.segments@.len() && (#[trigger] seg.segments@[i]).id == x;
        law_tiles_are_distinct(seg, x, x, i);
    }
}

/// Tiles are given out in the order of the list of segments, one after the other: of two segments
/// with faces the later one has the higher tile, and where no segment with faces stands between
/// them, the next one.
pub proof fn law_tiles_follow_the_list(seg: Segmentation, i: int, j: int)
    requires
        seg.segments@.len() + 1002 <= u32::MAX,
        crate::segment::ids_differ(seg.segments@),
        0 <= i < j < seg.segments@.len(),
        size_of(seg, seg.segments@[i].id) > 0,
        size_of(seg, seg.segments@[j].id) > 0,
    ensures
        ({
            let tiles = tiles_by_segment(seg);
            let a = tiles[seg.segments@[i].id];
            let b = tiles[seg.segments@[j].id];
            &&& a < b
            &&& (forall|k: int| i < k < j ==> size_of(seg, (#[trigger] seg.segments@[k]).id) == 0)
                ==> b == a + 1
            &&& (forall|k: int| 0 <= k < i ==> size_of(seg, (#[trigger] seg.segments@[k]).id) == 0)
                ==> a == (if crate::segment::faces_in(seg.labels(), UNASSIGNED).len() > 0 {
                1002int
            } else {
                1001int
            })
        }),
{
    let n = seg.segments@.len();
    lemma_tile_given(seg, i, n);
    lemma_tile_given(seg, j, n);
    lemma_given_out(seg, n);
    lemma_given_out(seg, i as nat);
    lemma_given_out(seg, j as nat);
    lemma_next_grows(seg, (i + 1) as nat, j as nat);
    lemma_next_grows(seg, 0, i as nat);
    assert(given_out(seg, n).0.dom().contains(seg.segments@[i].id));
    if forall|k: int| i < k < j ==> size_of(seg, (#[trigger] seg.segments@[k]).id) == 0 {
        assert forall|k: int| i + 1 <= k < j implies size_of(
            seg,
            (#[trigger] seg.segments@[k]).id,
        ) == 0 by {}
    }
}

proof fn lemma_next_grows(seg: Segmentation, a: nat, b: nat)
    requires
        a <= b <= seg.segments@.len(),
    ensures
        given_out(seg, a).1 <= given_out(seg, b).1,
        (forall|k: int| a <= k < b ==> size_of(seg, (#[trigger] seg.segments@[k]).id) == 0)
            ==> given_out(seg, a).1 == given_out(seg, b).1,
    decreases b,
{
    if a < b {
        lemma_next_grows(seg, a, (b - 1) as nat);
    }
}

proof fn lemma_tile_given(seg: Segmentation, i: int, n: nat)
    requires
        seg.segments@.len() + 1002 <= u32::MAX,
        crate::segment::ids_differ(seg.segments@),
        0 <= i < n <= seg.segments@.len(),
        size_of(seg, seg.segments@[i].id) > 0,
    ensures
        given_out(seg, n).0.contains_key(seg.segments@[i].id),
        given_out(seg, n).0[seg.segments@[i].id] == given_out(seg, i as nat).1,
    decreases n,
{
    lemma_given_out(seg, i as nat);
    if i < n - 1 {
        lemma_tile_given(seg, i, (n - 1) as nat);
        assert(seg.segments@[n - 1].id != seg.segments@[i].id);
    }
}

} // verus!
