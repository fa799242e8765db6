//! Brush coverage maps and normal stamps, baked when the program starts.
//!
//! The shapes are drawn by a function of the caller, which gives the value of one texel. This
//! module decides which shapes there are, where each texel goes and which neighbours a slope is
//! taken from.

use vstd::prelude::*;

verus! {

/// Side of a coverage map in texels.
pub const ALPHA_SIZE: u32 = 256;

/// Where the coverage maps begin among the textures of the panels. Slot 0 is the viewport, slot 2
/// the colour field.
pub const ALPHA_TEX_BASE: u32 = 16;

/// Where the normal stamps begin among the textures of the panels.
pub const NRM_TEX_BASE: u32 = 48;

/// A coverage map.
pub struct BrushAlpha {
    pub name: &'static str,
    pub size: u32,
    /// One value per texel, row by row.
    pub coverage: Vec<u8>,
    /// The texels are the coverage itself. Otherwise one minus a texel is a distance, from which
    /// the hardness makes the coverage.
    pub coverage_stamp: bool,
}

/// A value as an opaque grey texel, as four bytes.
pub open spec fn grey_texels(coverage: Seq<u8>) -> Seq<u8> {
    Seq::new(
        4 * coverage.len(),
        |i: int|
            if i % 4 == 3 {
                255u8
            } else {
                coverage[i / 4]
            },
    )
}

impl BrushAlpha {
    /// The map as an image: grey texels of four bytes.
    pub fn rgba_preview(&self) -> (out: Vec<u8>)
        ensures
            out@ == grey_texels(self.coverage@),
    {
        let mut out: Vec<u8> = Vec::new();
        let mut i: usize = 0;
        while i < self.coverage.len()
            invariant
                i <= self.coverage.len(),
                out@ =~= grey_texels(self.coverage@.take(i as int)),
            decreases self.coverage.len() - i,
        {
            let c: u8 = self.coverage[i];
            let ghost before = out@;
            out.push(c);
            out.push(c);
            out.push(c);
            out.push(255);
            proof {
                let longer = self.coverage@.take(i + 1);
                assert forall|k: int| 0 <= k < 4 * longer.len() implies out@[k] == grey_texels(
                    longer,
                )[k] by {
                    if k < 4 * i {
                        assert(k / 4 < i);
                        assert(out@[k] == before[k]);
                    } else {
                        assert(k / 4 == i);
                    }
                }
            }
            i += 1;
        }
        assert(self.coverage@.take(i as int) =~= self.coverage@);
        out
    }
}

/// The shapes of the coverage maps.
#[derive(Clone, Copy, Debug, PartialEq, Eq, Structural)]
pub enum AlphaShape {
    Circle,
    Hard,
    Square,
    Diamond,
    Cross,
    Ring,
    Dots,
    Noise,
}

/// How a shape becomes a coverage map.
#[derive(Clone, Copy, Debug, PartialEq, Eq, Structural)]
pub enum Baking {
    /// The texel is the depth inside the shape.
    Distance,
    /// The texel is one inside and zero outside, with a soft edge. Thin shapes need this, or
    /// they stay grey.
    Solid,
    /// The texel is the coverage.
    Coverage,
}

impl AlphaShape {
    /// The shapes in the order of the maps.
    pub const ALL: [AlphaShape; 8] = [
        AlphaShape::Circle,
        AlphaShape::Hard,
        AlphaShape::Square,
        AlphaShape::Diamond,
        AlphaShape::Cross,
        AlphaShape::Ring,
        AlphaShape::Dots,
        AlphaShape::Noise,
    ];

    /// The name of the shape.
    pub open spec fn text(self) -> Seq<char> {
        match self {
            AlphaShape::Circle => "Circle"@,
            AlphaShape::Hard => "Hard"@,
            AlphaShape::Square => "Square"@,
            AlphaShape::Diamond => "Diamond"@,
            AlphaShape::Cross => "Cross"@,
            AlphaShape::Ring => "Ring"@,
            AlphaShape::Dots => "Dots"@,
            AlphaShape::Noise => "Noise"@,
        }
    }

    /// The name of the shape.
    pub fn label(self) -> (s: &'static str)
        ensures
            s@ == self.text(),
    {
        match self {
            AlphaShape::Circle => "Circle",
            AlphaShape::Hard => "Hard",
            AlphaShape::Square => "Square",
            AlphaShape::Diamond => "Diamond",
            AlphaShape::Cross => "Cross",
            AlphaShape::Ring => "Ring",
            AlphaShape::Dots => "Dots",
            AlphaShape::Noise => "Noise",
        }
    }

    /// How the shape is baked: the thin shapes solid, the noise as it is, the others by distance.
    pub fn baking(self) -> (b: Baking)
        ensures
            b == Baking::Solid <==> self is Ring || self is Dots,
            b == Baking::Coverage <==> self is Noise,
    {
        match self {
            AlphaShape::Ring => Baking::Solid,
            AlphaShape::Dots => Baking::Solid,
            AlphaShape::Noise => Baking::Coverage,
            _ => Baking::Distance,
        }
    }
}

fn pack(name: &'static str, coverage: Vec<u8>, coverage_stamp: bool) -> (a: BrushAlpha)
    ensures
        a.name@ == name@,
        a.size == ALPHA_SIZE,
        a.coverage == coverage,
        a.coverage_stamp == coverage_stamp,
{
    BrushAlpha { name, size: ALPHA_SIZE, coverage, coverage_stamp }
}

/// The texel in column `x` of row `y`.
pub open spec fn texel(x: int, y: int) -> int {
    y * 256 + x
}

/// A map drawn texel by texel.
pub open spec fn is_drawn<F: Fn(AlphaShape, u32, u32) -> u8>(
    coverage: Seq<u8>,
    sample: F,
    shape: AlphaShape,
) -> bool {
    &&& coverage.len() == 256 * 256
    &&& forall|x: u32, y: u32|
        x < 256 && y < 256 ==> call_ensures(
            sample,
            (shape, x, y),
            #[trigger] coverage[texel(x as int, y as int)],
        )
}

fn raster<F: Fn(AlphaShape, u32, u32) -> u8>(sample: &F, shape: AlphaShape) -> (coverage: Vec<u8>)
    requires
        forall|x: u32, y: u32| x < 256 && y < 256 ==> call_requires(*sample, (shape, x, y)),
    ensures
        is_drawn(coverage@, *sample, shape),
{
    let mut coverage: Vec<u8> = Vec::new();
    let mut y: u32 = 0;
    while y < ALPHA_SIZE
        invariant
            y <= 256,
            forall|x: u32, y: u32| x < 256 && y < 256 ==> call_requires(*sample, (shape, x, y)),
            coverage@.len() == y * 256,
            forall|a: u32, b: u32|
                a < 256 && b < y ==> call_ensures(
                    *sample,
                    (shape, a, b),
                    #[trigger] coverage@[texel(a as int, b as int)],
                ),
        decreases 256 - y,
    {
        let mut x: u32 = 0;
        while x < ALPHA_SIZE
            invariant
                y < 256,
                x <= 256,
                forall|x: u32, y: u32| x < 256 && y < 256 ==> call_requires(*sample, (shape, x, y)),
                coverage@.len() == y * 256 + x,
                forall|a: u32, b: u32|
                    a < 256 && (b < y || b == y && a < x) ==> call_ensures(
                        *sample,
                        (shape, a, b),
                        #[trigger] coverage@[texel(a as int, b as int)],
                    ),
            decreases 256 - x,
        {
            let c: u8 = sample(shape, x, y);
            coverage.push(c);
            x += 1;
        }
        y += 1;
    }
    coverage
}

/// The coverage maps, one per shape.
pub open spec fn are_presets<F: Fn(AlphaShape, u32, u32) -> u8>(
    list: Seq<BrushAlpha>,
    sample: F,
) -> bool {
    &&& list.len() == 8
    &&& forall|i: int|
        0 <= i < 8 ==> {
            &&& (#[trigger] list[i]).name@ == AlphaShape::ALL@[i].text()
            &&& list[i].size == ALPHA_SIZE
            &&& list[i].coverage_stamp == (AlphaShape::ALL@[i] is Noise)
            &&& is_drawn(list[i].coverage@, sample, AlphaShape::ALL@[i])
        }
}

/// Draws the coverage maps, one per shape. Only the noise is stamped as it is.
pub fn generate_presets<F: Fn(AlphaShape, u32, u32) -> u8>(sample: F) -> (list: Vec<BrushAlpha>)
    requires
        forall|s: AlphaShape, x: u32, y: u32|
            x < 256 && y < 256 ==> call_requires(sample, (s, x, y)),
    ensures
        are_presets(list@, sample),
{
    let mut list: Vec<BrushAlpha> = Vec::new();
    let mut i: usize = 0;
    while i < 8
        invariant
            i <= 8,
            list@.len() == i,
            forall|s: AlphaShape, x: u32, y: u32|
                x < 256 && y < 256 ==> call_requires(sample, (s, x, y)),
            forall|k: int|
                0 <= k < i ==> {
                    &&& (#[trigger] list@[k]).name@ == AlphaShape::ALL@[k].text()
                    &&& list@[k].size == ALPHA_SIZE
                    &&& list@[k].coverage_stamp == (AlphaShape::ALL@[k] is Noise)
                    &&& is_drawn(list@[k].coverage@, sample, AlphaShape::ALL@[k])
                },
        decreases 8 - i,
    {
        let shape = AlphaShape::ALL[i];
        let coverage = raster(&sample, shape);
        list.push(pack(shape.label(), coverage, shape.baking() == Baking::Coverage));
        i += 1;
    }
    list
}

/// The lattice noise: a whole point of the plane gives a pseudo-random number.
pub open spec fn lattice_hash(x: i32, y: i32) -> u32 {
    let n = x.wrapping_mul(374761393i32) ^ y.wrapping_mul(668265263i32);
    (n ^ (n >> 13)).wrapping_mul(1274126177i32) as u32
}

/// The pseudo-random number of a whole point of the plane.
pub fn hash_i(x: i32, y: i32) -> (r: u32)
    ensures
        r == lattice_hash(x, y),
{
    let n: i32 = x.wrapping_mul(374761393) ^ y.wrapping_mul(668265263);
    let m: i32 = (n ^ (n >> 13)).wrapping_mul(1274126177);
    m as u32
}

/// A stamp of tangent-space normals.
pub struct NormalStamp {
    pub name: &'static str,
    pub size: u32,
    /// Four bytes per texel, row by row: the normal and the coverage.
    pub rgba: Vec<u8>,
}

/// The shapes of the normal stamps.
#[derive(Clone, Copy, Debug, PartialEq, Eq, Structural)]
pub enum StampShape {
    Dome,
    Groove,
    Bevel,
    Rivet,
    Ridge,
    Noise,
}

impl StampShape {
    /// The shapes in the order of the stamps.
    pub const ALL: [StampShape; 6] = [
        StampShape::Dome,
        StampShape::Groove,
        StampShape::Bevel,
        StampShape::Rivet,
        StampShape::Ridge,
        StampShape::Noise,
    ];

    /// The name of the shape.
    pub open spec fn text(self) -> Seq<char> {
        match self {
            StampShape::Dome => "Dome"@,
            StampShape::Groove => "Groove"@,
            StampShape::Bevel => "Bevel"@,
            StampShape::Rivet => "Rivet"@,
            StampShape::Ridge => "Ridge"@,
            StampShape::Noise => "Noise"@,
        }
    }

    /// The name of the shape.
    pub fn label(self) -> (s: &'static str)
        ensures
            s@ == self.text(),
    {
        match self {
            StampShape::Dome => "Dome",
            StampShape::Groove => "Groove",
            StampShape::Bevel => "Bevel",
            StampShape::Rivet => "Rivet",
            StampShape::Ridge => "Ridge",
            StampShape::Noise => "Noise",
        }
    }
}

/// The heights around a texel: left, right, above and below. At the rim the texel itself takes
/// the place of the missing neighbour.
#[derive(Clone, Copy, Debug, PartialEq, Eq, Structural)]
pub struct Around {
    pub left: u32,
    pub right: u32,
    pub above: u32,
    pub below: u32,
}

/// The place before, which for the first is the first itself.
pub open spec fn before(i: int) -> int {
    if i == 0 {
        0
    } else {
        i - 1
    }
}

/// The place after, which for the last is the last itself.
pub open spec fn after(i: int) -> int {
    if i == 255 {
        255
    } else {
        i + 1
    }
}

/// The heights around the texel in column `x` of row `y`.
pub open spec fn around(heights: Seq<u32>, x: int, y: int) -> Around {
    Around {
        left: heights[texel(before(x), y)],
        right: heights[texel(after(x), y)],
        above: heights[texel(x, before(y))],
        below: heights[texel(x, after(y))],
    }
}

/// A table of heights, drawn texel by texel.
pub open spec fn is_relief<H: Fn(StampShape, u32, u32) -> u32>(
    heights: Seq<u32>,
    height: H,
    shape: StampShape,
) -> bool {
    &&& heights.len() == 256 * 256
    &&& forall|x: u32, y: u32|
        x < 256 && y < 256 ==> call_ensures(
            height,
            (shape, x, y),
            #[trigger] heights[texel(x as int, y as int)],
        )
}

/// The four bytes of a texel.
pub open spec fn texel_bytes(rgba: Seq<u8>, i: int) -> Seq<u8> {
    rgba.subrange(4 * i, 4 * i + 4)
}

/// A stamp shaded texel by texel from a table of heights.
pub open spec fn is_shaded<S: Fn(Around, u32, u32) -> [u8; 4]>(
    rgba: Seq<u8>,
    shade: S,
    heights: Seq<u32>,
) -> bool {
    &&& rgba.len() == 4 * 256 * 256
    &&& forall|x: u32, y: u32|
        x < 256 && y < 256 ==> #[trigger] shaded_texel(rgba, shade, heights, x, y)
}

/// The texel in column `x` of row `y` is one that the shading gives.
pub open spec fn shaded_texel<S: Fn(Around, u32, u32) -> [u8; 4]>(
    rgba: Seq<u8>,
    shade: S,
    heights: Seq<u32>,
    x: u32,
    y: u32,
) -> bool {
    exists|c: [u8; 4]| #[trigger]
        call_ensures(shade, (around(heights, x as int, y as int), x, y), c) && texel_bytes(
            rgba,
            texel(x as int, y as int),
        ) == c@
}

fn relief<H: Fn(StampShape, u32, u32) -> u32>(height: &H, shape: StampShape) -> (heights: Vec<u32>)
    requires
        forall|x: u32, y: u32| x < 256 && y < 256 ==> call_requires(*height, (shape, x, y)),
    ensures
        is_relief(heights@, *height, shape),
{
    let mut heights: Vec<u32> = Vec::new();
    let mut y: u32 = 0;
    while y < ALPHA_SIZE
        invariant
            y <= 256,
            forall|x: u32, y: u32| x < 256 && y < 256 ==> call_requires(*height, (shape, x, y)),
            heights@.len() == y * 256,
            forall|a: u32, b: u32|
                a < 256 && b < y ==> call_ensures(
                    *height,
                    (shape, a, b),
                    #[trigger] heights@[texel(a as int, b as int)],
                ),
        decreases 256 - y,
    {
        let mut x: u32 = 0;
        while x < ALPHA_SIZE
            invariant
                y < 256,
                x <= 256,
                forall|x: u32, y: u32| x < 256 && y < 256 ==> call_requires(*height, (shape, x, y)),
                heights@.len() == y * 256 + x,
                forall|a: u32, b: u32|
                    a < 256 && (b < y || b == y && a < x) ==> call_ensures(
                        *height,
                        (shape, a, b),
                        #[trigger] heights@[texel(a as int, b as int)],
                    ),
            decreases 256 - x,
        {
            let h: u32 = height(shape, x, y);
            heights.push(h);
            x += 1;
        }
        y += 1;
    }
    heights
}

fn surroundings(heights: &Vec<u32>, x: usize, y: usize) -> (a: Around)
    requires
        heights@.len() == 256 * 256,
        x < 256,
        y < 256,
    ensures
        a == around(heights@, x as int, y as int),
{
    let xm: usize = x.saturating_sub(1);
    let xp: usize = if x + 1 < 256 {
        x + 1
    } else {
        255
    };
    let ym: usize = y.saturating_sub(1);
    let yp: usize = if y + 1 < 256 {
        y + 1
    } else {
        255
    };
    Around {
        left: heights[y * 256 + xm],
        right: heights[y * 256 + xp],
        above: heights[ym * 256 + x],
        below: heights[yp * 256 + x],
    }
}

/// Shades a stamp from the slopes of a relief.
fn bake_height<H: Fn(StampShape, u32, u32) -> u32, S: Fn(Around, u32, u32) -> [u8; 4]>(
    shape: StampShape,
    height: &H,
    shade: &S,
) -> (stamp: NormalStamp)
    requires
        forall|x: u32, y: u32| x < 256 && y < 256 ==> call_requires(*height, (shape, x, y)),
        forall|a: Around, x: u32, y: u32|
            x < 256 && y < 256 ==> call_requires(*shade, (a, x, y)),
    ensures
        stamp.name@ == shape.text(),
        stamp.size == ALPHA_SIZE,
        exists|heights: Seq<u32>| #[trigger]
            is_relief(heights, *height, shape) && is_shaded(stamp.rgba@, *shade, heights),
{
    let heights = relief(height, shape);
    let mut rgba: Vec<u8> = Vec::new();
    let mut y: u32 = 0;
    while y < ALPHA_SIZE
        invariant
            y <= 256,
            heights@.len() == 256 * 256,
            forall|a: Around, x: u32, y: u32|
                x < 256 && y < 256 ==> call_requires(*shade, (a, x, y)),
            rgba@.len() == 4 * (y * 256),
            forall|a: u32, b: u32|
                a < 256 && b < y ==> #[trigger] shaded_texel(rgba@, *shade, heights@, a, b),
        decreases 256 - y,
    {
        let mut x: u32 = 0;
        while x < ALPHA_SIZE
            invariant
                y < 256,
                x <= 256,
                heights@.len() == 256 * 256,
                forall|a: Around, x: u32, y: u32|
                    x < 256 && y < 256 ==> call_requires(*shade, (a, x, y)),
                rgba@.len() == 4 * (y * 256 + x),
                forall|a: u32, b: u32|
                    a < 256 && (b < y || b == y && a < x) ==> #[trigger] shaded_texel(
                        rgba@,
                        *shade,
                        heights@,
                        a,
                        b,
                    ),
            decreases 256 - x,
        {
            let around_here = surroundings(&heights, x as usize, y as usize);
            let c: [u8; 4] = shade(around_here, x, y);
            let ghost sofar = rgba@;
            rgba.push(c[0]);
            rgba.push(c[1]);
            rgba.push(c[2]);
            rgba.push(c[3]);
            proof {
                assert forall|a: u32, b: u32|
                    a < 256 && (b < y || b == y && a <= x) implies #[trigger] shaded_texel(
                    rgba@,
                    *shade,
                    heights@,
                    a,
                    b,
                ) by {
                    let i = texel(a as int, b as int);
                    if b == y && a == x {
                        assert(texel_bytes(rgba@, i) =~= c@);
                    } else {
                        assert(shaded_texel(sofar, *shade, heights@, a, b));
                        assert(texel_bytes(rgba@, i) =~= texel_bytes(sofar, i));
                    }
                }
            }
            x += 1;
        }
        y += 1;
    }
    assert(is_shaded(rgba@, *shade, heights@));
    NormalStamp { name: shape.label(), size: ALPHA_SIZE, rgba }
}

/// The normal stamps, one per shape.
pub open spec fn are_stamps<
    H: Fn(StampShape, u32, u32) -> u32,
    S: Fn(Around, u32, u32) -> [u8; 4],
>(list: Seq<NormalStamp>, height: H, shade: S) -> bool {
    &&& list.len() == 6
    &&& forall|i: int| 0 <= i < 6 ==> is_stamp(#[trigger] list[i], height, shade, StampShape::ALL@[i])
}

/// The normal stamp of one shape.
pub open spec fn is_stamp<H: Fn(StampShape, u32, u32) -> u32, S: Fn(Around, u32, u32) -> [u8; 4]>(
    stamp: NormalStamp,
    height: H,
    shade: S,
    shape: StampShape,
) -> bool {
    &&& stamp.name@ == shape.text()
    &&& stamp.size == ALPHA_SIZE
    &&& exists|heights: Seq<u32>| #[trigger]
        is_relief(heights, height, shape) && is_shaded(stamp.rgba@, shade, heights)
}

/// Draws the normal stamps, one per shape.
pub fn generate_normal_stamps<
    H: Fn(StampShape, u32, u32) -> u32,
    S: Fn(Around, u32, u32) -> [u8; 4],
>(height: H, shade: S) -> (list: Vec<NormalStamp>)
    requires
        forall|s: StampShape, x: u32, y: u32|
            x < 256 && y < 256 ==> call_requires(height, (s, x, y)),
        forall|a: Around, x: u32, y: u32| x < 256 && y < 256 ==> call_requires(shade, (a, x, y)),
    ensures
        are_stamps(list@, height, shade),
{
    let mut list: Vec<NormalStamp> = Vec::new();
    let mut i: usize = 0;
    while i < 6
        invariant
            i <= 6,
            list@.len() == i,
            forall|s: StampShape, x: u32, y: u32|
                x < 256 && y < 256 ==> call_requires(height, (s, x, y)),
            forall|a: Around, x: u32, y: u32|
                x < 256 && y < 256 ==> call_requires(shade, (a, x, y)),
            forall|k: int|
                0 <= k < i ==> is_stamp(#[trigger] list@[k], height, shade, StampShape::ALL@[k]),
        decreases 6 - i,
    {
        list.push(bake_height(StampShape::ALL[i], &height, &shade));
        i += 1;
    }
    list
}

/// The heights around a texel are those of the texels beside it: one to the left and to the right
/// in its row, one above and below in its column, and at the rim the texel itself.
pub proof fn law_slopes_come_from_the_neighbours(heights: Seq<u32>, x: int, y: int)
    requires
        heights.len() == 256 * 256,
        0 <= x < 256,
        0 <= y < 256,
    ensures
        ({
            let a = around(heights, x, y);
            let at = 256 * y + x;
            &&& x > 0 ==> a.left == heights[at - 1]
            &&& x < 255 ==> a.right == heights[at + 1]
            &&& y > 0 ==> a.above == heights[at - 256]
            &&& y < 255 ==> a.below == heights[at + 256]
            &&& x == 0 ==> a.left == heights[at]
            &&& x == 255 ==> a.right == heights[at]
            &&& y == 0 ==> a.above == heights[at]
            &&& y == 255 ==> a.below == heights[at]
        }),
{
}

/// A preview is grey and opaque: the three colours of a texel are its coverage.
pub proof fn law_previews_are_grey(coverage: Seq<u8>, i: int)
    requires
        0 <= i < coverage.len(),
    ensures
        grey_texels(coverage).len() == 4 * coverage.len(),
        grey_texels(coverage)[4 * i] == coverage[i],
        grey_texels(coverage)[4 * i + 1] == coverage[i],
        grey_texels(coverage)[4 * i + 2] == coverage[i],
        grey_texels(coverage)[4 * i + 3] == 255,
{
    assert((4 * i) / 4 == i && (4 * i) % 4 == 0);
    assert((4 * i + 1) / 4 == i && (4 * i + 1) % 4 == 1);
    assert((4 * i + 2) / 4 == i && (4 * i + 2) % 4 == 2);
    assert((4 * i + 3) % 4 == 3);
}

/// The texel in a column of a row of a drawn map is what was drawn for that column and row, at 256
/// texels a row; only the last map, the noise, is stamped as it is.
pub proof fn law_maps_are_drawn_row_by_row<F: Fn(AlphaShape, u32, u32) -> u8>(
    list: Seq<BrushAlpha>,
    sample: F,
    i: int,
    x: u32,
    y: u32,
)
    requires
        are_presets(list, sample),
        0 <= i < 8,
        x < 256,
        y < 256,
    ensures
        list.len() == 8,
        list[i].size == 256,
        list[i].coverage@.len() == 65536,
        call_ensures(sample, (AlphaShape::ALL@[i], x, y), list[i].coverage@[256 * y + x]),
        list[i].coverage_stamp <==> i == 7,
{
    assert(is_drawn(list[i].coverage@, sample, AlphaShape::ALL@[i]));
    assert(texel(x as int, y as int) == 256 * y + x);
    assert(call_ensures(
        sample,
        (AlphaShape::ALL@[i], x, y),
        list[i].coverage@[texel(x as int, y as int)],
    ));
}

} // verus!
