//! What goes to the device: sizes of targets, blocks of numbers, and which meshes have to be sent.

use std::collections::HashMap;

use vstd::prelude::*;

use crate::bits::{larger, less, Rgba, ONE, ZERO};
use crate::frame::{StackLayer, TilePass};
use crate::mesh::Mesh;
use crate::paint::{Brush, LayerKind};
use crate::painter::Point;
use crate::scene::{Handle, Scene};

verus! {

broadcast use vstd::std_specs::hash::group_hash_axioms;

/// The distance between two blocks of numbers in the buffer of a stack, in bytes.
pub const STACK_UBO_STRIDE: u64 = 256;

/// Two.
pub const TWO: u32 = 0x4000_0000;

/// One ten-thousandth.
pub const TINY_RADIUS: u32 = 0x38d1_b717;

/// A side of a target: no target is empty.
pub open spec fn side(n: u32) -> u32 {
    if n == 0 {
        1
    } else {
        n
    }
}

/// A side of a target: no target is empty.
pub fn side_of(n: u32) -> (r: u32)
    ensures
        r == side(n),
{
    if n == 0 {
        1
    } else {
        n
    }
}

/// Whether a target has to be made anew for a size, which is taken down: it has another size, or
/// there is none yet.
pub fn ensure_size(size: &mut (u32, u32), made: bool, w: u32, h: u32) -> (rebuild: bool)
    ensures
        *final(size) == (side(w), side(h)),
        rebuild == (!made || *old(size) != (side(w), side(h))),
{
    let w: u32 = side_of(w);
    let h: u32 = side_of(h);
    if made && size.0 == w && size.1 == h {
        return false;
    }
    *size = (w, h);
    true
}

/// How many bytes the texels of a target take.
pub open spec fn texel_bytes(w: u32, h: u32) -> int {
    side(w) * side(h) * 4
}

/// How texels are written to a texture.
#[derive(Clone, Copy, Debug, PartialEq, Eq, Structural)]
pub struct Upload {
    pub width: u32,
    pub height: u32,
    pub bytes: usize,
    pub row_bytes: u32,
}

/// How texels are written to a texture, if there are enough bytes.
pub fn plan_upload(len: usize, w: u32, h: u32) -> (plan: Option<Upload>)
    requires
        texel_bytes(w, h) <= u32::MAX,
    ensures
        plan == if len < texel_bytes(w, h) {
            None
        } else {
            Some(
                Upload {
                    width: side(w),
                    height: side(h),
                    bytes: texel_bytes(w, h) as usize,
                    row_bytes: (4 * side(w)) as u32,
                },
            )
        },
{
    let width: u32 = side_of(w);
    let height: u32 = side_of(h);
    assert(width * height <= u32::MAX / 4 && 4 * width <= u32::MAX) by (nonlinear_arith)
        requires
            width >= 1,
            height >= 1,
            width * height * 4 <= u32::MAX,
    ;
    let bytes: usize = (width * height * 4) as usize;
    if len < bytes {
        return None;
    }
    Some(Upload { width, height, bytes, row_bytes: 4 * width })
}

/// Makes a list of zeros at least so long.
pub fn grow_zeros(zeros: &mut Vec<u8>, n: usize)
    requires
        forall|i: int| 0 <= i < old(zeros)@.len() ==> old(zeros)@[i] == 0,
    ensures
        final(zeros)@.len() == if old(zeros)@.len() < n {
            n as nat
        } else {
            old(zeros)@.len()
        },
        forall|i: int| 0 <= i < final(zeros)@.len() ==> final(zeros)@[i] == 0,
{
    while zeros.len() < n
        invariant
            zeros@.len() <= n || zeros@.len() == old(zeros)@.len(),
            zeros@.len() >= old(zeros)@.len(),
            forall|i: int| 0 <= i < zeros@.len() ==> zeros@[i] == 0,
        decreases n - zeros@.len(),
    {
        zeros.push(0);
    }
}

/// How many groups of eight cover a side.
pub fn workgroups(n: u32) -> (g: u32)
    ensures
        8 * (g - 1) < n <= 8 * g,
{
    if n % 8 == 0 {
        n / 8
    } else {
        n / 8 + 1
    }
}

/// The first number of the row `p`, 2p, 4p, ... that is not below `n`.
pub open spec fn doubled_to(p: nat, n: nat) -> nat
    decreases (if p >= n {
        0
    } else {
        n - p
    }),
    when p > 0
{
    if p >= n {
        p
    } else {
        doubled_to(2 * p, n)
    }
}

/// The least power of two that is not below `n`.
pub fn next_power_of_two(n: u32) -> (p: u32)
    requires
        n <= 0x8000_0000,
    ensures
        p == doubled_to(1, n as nat),
        p <= 0x8000_0000,
{
    let mut p: u32 = 1;
    let mut k: u32 = 0;
    assert(1u32 << 0u32 == 1) by (bit_vector);
    while p < n
        invariant
            k <= 31,
            p == 1u32 << k,
            1 <= p,
            p <= 0x8000_0000,
            n <= 0x8000_0000,
            doubled_to(1, n as nat) == doubled_to(p as nat, n as nat),
        decreases 31 - k,
    {
        assert(k < 31 && (1u32 << ((k + 1) as u32)) == 2 * (1u32 << k) && (1u32 << ((k
            + 1) as u32)) <= 0x8000_0000u32) by (bit_vector)
            requires
                k <= 31,
                (1u32 << k) < 0x8000_0000u32,
        ;
        p = 2 * p;
        k += 1;
    }
    p
}

/// The number of slots that a buffer needs for some passes: at least eight.
pub open spec fn slots_for(slots: u32) -> nat {
    let p = doubled_to(1, slots as nat);
    if p < 8 {
        8
    } else {
        p
    }
}

/// The size that a buffer of slots has to grow to, if it is too small.
pub fn grow_slots(current: u32, slots: u32) -> (grown: Option<u32>)
    requires
        slots <= 0x8000_0000,
    ensures
        match grown {
            Some(n) => side(slots) > current && n == slots_for(side(slots)),
            None => side(slots) <= current,
        },
{
    let wanted: u32 = side_of(slots);
    if wanted <= current {
        return None;
    }
    let p: u32 = next_power_of_two(wanted);
    if p < 8 {
        Some(8)
    } else {
        Some(p)
    }
}

/// Byte `k` of a word, the lowest first.
pub open spec fn word_byte(w: u32, k: int) -> u8 {
    (if k == 0 {
        w as int % 0x100
    } else if k == 1 {
        w as int / 0x100 % 0x100
    } else if k == 2 {
        w as int / 0x1_0000 % 0x100
    } else {
        w as int / 0x100_0000
    }) as u8
}

/// Words as bytes, the lowest byte of each first, or the highest.
pub open spec fn bytes_in_order(words: Seq<u32>, high_first: bool) -> Seq<u8> {
    Seq::new(
        4 * words.len(),
        |i: int|
            word_byte(
                words[i / 4],
                if high_first {
                    3 - i % 4
                } else {
                    i % 4
                },
            ),
    )
}

/// Words as they lie in memory. Which byte of a word comes first is up to the machine.
pub open spec fn is_in_memory(bytes: Seq<u8>, words: Seq<u32>) -> bool {
    bytes == bytes_in_order(words, false) || bytes == bytes_in_order(words, true)
}

/// The bytes of some words with `bytemuck::cast_slice`, which looks at the memory of a slice as a
/// slice of another type. A word is four bytes, in the order of the machine.
#[verifier::external_body]
fn bytes_of(words: &Vec<u32>) -> (bytes: Vec<u8>)
    ensures
        is_in_memory(bytes@, words@),
{
    bytemuck::cast_slice::<u32, u8>(words.as_slice()).to_vec()
}

/// Words as they lie in memory.
pub fn to_memory(words: &Vec<u32>) -> (bytes: Vec<u8>)
    ensures
        is_in_memory(bytes@, words@),
{
    bytes_of(words)
}

/// A number that is kept between two others.
pub open spec fn clamped(x: u32, low: u32, high: u32) -> u32 {
    if crate::bits::is_less(x, low) {
        low
    } else if crate::bits::is_less(high, x) {
        high
    } else {
        x
    }
}

/// Keeps a number between two others.
pub fn clamp(x: u32, low: u32, high: u32) -> (r: u32)
    ensures
        r == clamped(x, low, high),
{
    if less(x, low) {
        low
    } else if less(high, x) {
        high
    } else {
        x
    }
}

/// The four channels of a colour.
pub open spec fn channels_of(c: Rgba) -> Seq<u32> {
    seq![c.r, c.g, c.b, c.a]
}

fn push_color(words: &mut Vec<u32>, c: Rgba)
    ensures
        final(words)@ == old(words)@ + channels_of(c),
{
    words.push(c.r);
    words.push(c.g);
    words.push(c.b);
    words.push(c.a);
    assert(words@ =~= old(words)@ + channels_of(c));
}

/// The block of numbers of a stamp: where it is and how far it reaches, the brush, the channels
/// that are written, and the sizes of the map and the texture.
pub open spec fn brush_block(
    center: Point,
    screen_radius: u32,
    world_radius: u32,
    brush: Brush,
    channels: Rgba,
    erase: bool,
    map: (u32, u32),
    texture: (u32, u32),
) -> Seq<u32> {
    seq![
        center[0],
        center[1],
        crate::bits::larger_of(screen_radius, TWO),
        crate::bits::larger_of(world_radius, TINY_RADIUS),
        clamped(brush.hardness, ZERO, ONE),
        0,
        0,
        0,
    ] + channels_of(brush.color) + channels_of(channels) + seq![
        clamped(brush.opacity, ZERO, ONE),
        if erase {
            ONE
        } else {
            ZERO
        },
        map.0,
        map.1,
        texture.0,
        texture.1,
        0,
        0,
    ]
}

/// The block of numbers of a stamp. There is none if the map or the texture is empty.
pub fn stamp_block(
    center: Point,
    screen_radius: u32,
    world_radius: u32,
    brush: &Brush,
    channels: Rgba,
    erase: bool,
    map: (u32, u32),
    texture: (u32, u32),
) -> (words: Option<Vec<u32>>)
    ensures
        match words {
            Some(words) => texture.0 > 0 && texture.1 > 0 && map.0 > 0 && map.1 > 0 && words@
                == brush_block(
                center,
                screen_radius,
                world_radius,
                *brush,
                channels,
                erase,
                map,
                texture,
            ),
            None => texture.0 == 0 || texture.1 == 0 || map.0 == 0 || map.1 == 0,
        },
{
    if texture.0 == 0 || texture.1 == 0 || map.0 == 0 || map.1 == 0 {
        return None;
    }
    let mut words: Vec<u32> = Vec::new();
    words.push(center[0]);
    words.push(center[1]);
    words.push(larger(screen_radius, TWO));
    words.push(larger(world_radius, TINY_RADIUS));
    words.push(clamp(brush.hardness, ZERO, ONE));
    words.push(0);
    words.push(0);
    words.push(0);
    push_color(&mut words, brush.color);
    push_color(&mut words, channels);
    words.push(clamp(brush.opacity, ZERO, ONE));
    words.push(
        if erase {
            ONE
        } else {
            ZERO
        },
    );
    words.push(map.0);
    words.push(map.1);
    words.push(texture.0);
    words.push(texture.1);
    words.push(0);
    words.push(0);
    assert(words@ =~= brush_block(
        center,
        screen_radius,
        world_radius,
        *brush,
        channels,
        erase,
        map,
        texture,
    ));
    Some(words)
}

/// The block of numbers of one pass over a tile: a colour, the channels that are written, the
/// opacity, what the pass does, and the size of the texture.
pub open spec fn pass_block(
    color: Rgba,
    channels: Rgba,
    opacity: u32,
    mode: u32,
    size: (u32, u32),
) -> Seq<u32> {
    channels_of(color) + channels_of(channels) + seq![opacity, mode, size.0, size.1]
}

/// What a pass does with a layer: blends its texture over the tile, or its filling.
pub open spec fn mode_of(kind: LayerKind) -> u32 {
    match kind {
        LayerKind::Paint => 1,
        LayerKind::Fill => 2,
    }
}

/// The passes over a tile: first the base colour, then the layers from the bottom to the top.
pub open spec fn slot_block(pass: TilePass, size: (u32, u32), slot: int) -> Seq<u32> {
    if slot == 0 {
        pass_block(pass.base, pass.channels, ONE, 0, size)
    } else {
        let l = pass.layers@[slot - 1];
        pass_block(
            match l.kind {
                LayerKind::Paint => pass.base,
                LayerKind::Fill => l.fill,
            },
            pass.channels,
            clamped(l.opacity, ZERO, ONE),
            mode_of(l.kind),
            size,
        )
    }
}

/// The words of the buffer of a stack. Every pass has a slot of its own, with zeros up to the
/// next one.
pub open spec fn stack_words(pass: TilePass, size: (u32, u32)) -> Seq<u32> {
    Seq::new(
        64 * (1 + pass.layers@.len()),
        |i: int|
            if i % 64 < 12 {
                slot_block(pass, size, i / 64)[i % 64]
            } else {
                0
            },
    )
}

fn push_slot(words: &mut Vec<u32>, color: Rgba, channels: Rgba, opacity: u32, mode: u32, size: (u32, u32))
    ensures
        final(words)@.len() == old(words)@.len() + 64,
        forall|i: int| 0 <= i < old(words)@.len() ==> final(words)@[i] == old(words)@[i],
        forall|i: int|
            0 <= i < 64 ==> #[trigger] final(words)@[old(words)@.len() + i] == if i < 12 {
                pass_block(color, channels, opacity, mode, size)[i]
            } else {
                0
            },
{
    let ghost start = words@;
    push_color(words, color);
    push_color(words, channels);
    words.push(opacity);
    words.push(mode);
    words.push(size.0);
    words.push(size.1);
    assert(words@ =~= start + pass_block(color, channels, opacity, mode, size));
    let mut i: usize = 12;
    while i < 64
        invariant
            12 <= i <= 64,
            words@.len() == start.len() + i,
            forall|k: int| 0 <= k < start.len() ==> words@[k] == start[k],
            forall|k: int|
                0 <= k < i ==> #[trigger] words@[start.len() + k] == if k < 12 {
                    pass_block(color, channels, opacity, mode, size)[k]
                } else {
                    0
                },
        decreases 64 - i,
    {
        words.push(0);
        i += 1;
    }
}

/// The words of the buffer of a stack.
pub fn stack_block(pass: &TilePass, size: (u32, u32)) -> (words: Vec<u32>)
    ensures
        words@ == stack_words(*pass, (side(size.0), side(size.1))),
{
    let at: (u32, u32) = (side_of(size.0), side_of(size.1));
    let mut words: Vec<u32> = Vec::new();
    let ghost start = words@;
    push_slot(&mut words, pass.base, pass.channels, ONE, 0, at);
    assert forall|i: int| 0 <= i < 64 implies #[trigger] words@[i] == if i % 64 < 12 {
        slot_block(*pass, at, i / 64)[i % 64]
    } else {
        0
    } by {
        assert(words@[start.len() + i] == words@[i]);
    }
    let mut k: usize = 0;
    while k < pass.layers.len()
        invariant
            k <= pass.layers@.len(),
            at == (side(size.0), side(size.1)),
            words@.len() == 64 * (1 + k),
            forall|i: int|
                0 <= i < words@.len() ==> #[trigger] words@[i] == if i % 64 < 12 {
                    slot_block(*pass, at, i / 64)[i % 64]
                } else {
                    0
                },
        decreases pass.layers@.len() - k,
    {
        let l: StackLayer = pass.layers[k];
        let color = match l.kind {
            LayerKind::Paint => pass.base,
            LayerKind::Fill => l.fill,
        };
        let mode: u32 = match l.kind {
            LayerKind::Paint => 1,
            LayerKind::Fill => 2,
        };
        let ghost before = words@;
        push_slot(&mut words, color, pass.channels, clamp(l.opacity, ZERO, ONE), mode, at);
        proof {
            assert forall|i: int| 0 <= i < words@.len() implies #[trigger] words@[i] == if i % 64
                < 12 {
                slot_block(*pass, at, i / 64)[i % 64]
            } else {
                0
            } by {
                if i < before.len() {
                    assert(words@[i] == before[i]);
                } else {
                    let j = i - before.len();
                    assert(words@[before.len() + j] == words@[i]);
                    assert(i / 64 == k + 1 && i % 64 == j);
                }
            }
        }
        k += 1;
    }
    assert(words@ =~= stack_words(*pass, at));
    words
}

/// The buffer of a stack as it lies in memory.
pub fn stack_blob(pass: &TilePass, size: (u32, u32)) -> (bytes: Vec<u8>)
    ensures
        is_in_memory(bytes@, stack_words(*pass, (side(size.0), side(size.1)))),
{
    let words = stack_block(pass, size);
    bytes_of(&words)
}

/// Where the slot of a pass begins in the buffer of a stack.
pub fn slot_offset(slot: u32) -> (bytes: u32)
    requires
        slot < 0x100_0000,
    ensures
        bytes == slot * STACK_UBO_STRIDE,
{
    slot * 256
}

/// What a pass finds at its place in the buffer of a stack is its own block, however many passes
/// there are.
pub proof fn law_slots_keep_apart(pass: TilePass, size: (u32, u32), bytes: Seq<u8>, slot: int)
    requires
        is_in_memory(bytes, stack_words(pass, size)),
        0 <= slot <= pass.layers@.len(),
    ensures
        bytes.len() == STACK_UBO_STRIDE * (1 + pass.layers@.len()),
        is_in_memory(
            bytes.subrange(slot * STACK_UBO_STRIDE, slot * STACK_UBO_STRIDE + 48),
            slot_block(pass, size, slot),
        ),
{
    let words = stack_words(pass, size);
    let part = bytes.subrange(slot * 256, slot * 256 + 48);
    let block = slot_block(pass, size, slot);
    assert(block.len() == 12);
    assert forall|high: bool| bytes == #[trigger] bytes_in_order(words, high) implies part
        == bytes_in_order(block, high) by {
        assert forall|i: int| 0 <= i < 48 implies part[i] == bytes_in_order(block, high)[i] by {
            let j = slot * 256 + i;
            assert(part[i] == bytes[j]);
            assert(j / 4 == slot * 64 + i / 4 && j % 4 == i % 4);
            let w = slot * 64 + i / 4;
            assert(w / 64 == slot && w % 64 == i / 4);
            assert(words[w] == block[i / 4]);
        }
        assert(part =~= bytes_in_order(block, high));
    }
    assert(bytes == bytes_in_order(words, false) || bytes == bytes_in_order(words, true));
}

/// The block of numbers of a vertex: its position, its normal and its texture coordinates. A
/// vertex without a normal points up, and one without texture coordinates lies at the origin.
pub open spec fn vertex_block(mesh: Mesh, i: int) -> Seq<u32> {
    let p = mesh.positions@[i];
    let n = if i < mesh.normals@.len() {
        mesh.normals@[i]
    } else {
        [ZERO, ONE, ZERO]
    };
    let uv = if mesh.uvs@.len() > 0 && i < mesh.uvs@[0]@.len() {
        mesh.uvs@[0]@[i]
    } else {
        [ZERO, ZERO]
    };
    seq![p[0], p[1], p[2], n[0], n[1], n[2], uv[0], uv[1]]
}

/// The vertices of a mesh, eight words each.
pub fn vertex_words(mesh: &Mesh) -> (words: Vec<u32>)
    ensures
        words@ == Seq::new(
            8 * mesh.positions@.len(),
            |i: int| vertex_block(*mesh, i / 8)[i % 8],
        ),
{
    let mut words: Vec<u32> = Vec::new();
    let mut k: usize = 0;
    while k < mesh.positions.len()
        invariant
            k <= mesh.positions@.len(),
            words@ =~= Seq::new(8 * k as nat, |i: int| vertex_block(*mesh, i / 8)[i % 8]),
        decreases mesh.positions@.len() - k,
    {
        let p: [u32; 3] = mesh.positions[k];
        let n: [u32; 3] = if k < mesh.normals.len() {
            mesh.normals[k]
        } else {
            [ZERO, ONE, ZERO]
        };
        let uv: [u32; 2] = if mesh.uvs.len() > 0 && k < mesh.uvs[0].len() {
            mesh.uvs[0][k]
        } else {
            [ZERO, ZERO]
        };
        let ghost before = words@;
        words.push(p[0]);
        words.push(p[1]);
        words.push(p[2]);
        words.push(n[0]);
        words.push(n[1]);
        words.push(n[2]);
        words.push(uv[0]);
        words.push(uv[1]);
        assert(words@ =~= before + vertex_block(*mesh, k as int));
        assert forall|i: int| 0 <= i < 8 * (k + 1) implies words@[i] == vertex_block(
            *mesh,
            i / 8,
        )[i % 8] by {
            if i < 8 * k {
                assert(words@[i] == before[i]);
            } else {
                assert(i / 8 == k && i % 8 == i - 8 * k);
            }
        }
        k += 1;
    }
    words
}

/// Which version of which mesh is on the device, by the codes of the handles.
pub type MeshVersions = HashMap<u64, u64>;

/// A mesh is drawn by one of the nodes.
pub open spec fn is_drawn(scene: Scene, nodes: Seq<Handle>, code: u64) -> bool {
    exists|i: int|
        0 <= i < nodes.len() && (match scene.drawn(#[trigger] nodes[i]) {
            Some(info) => info.handle.code() == code,
            None => false,
        })
}

/// The versions of the meshes that are drawn.
pub open spec fn drawn_versions(scene: Scene, nodes: Seq<Handle>) -> Map<u64, u64> {
    Map::new(
        |code: u64| is_drawn(scene, nodes, code),
        |code: u64|
            match scene.mesh(Handle::from_code(code as int)) {
                Some(info) => info.version,
                None => 0,
            },
    )
}

/// The meshes that have to be sent, each once: those that are drawn and not on the device in
/// their version.
pub open spec fn to_send(scene: Scene, nodes: Seq<Handle>, have: Map<u64, u64>) -> Seq<Handle>
    decreases nodes.len(),
{
    if nodes.len() == 0 {
        Seq::empty()
    } else {
        let before = to_send(scene, nodes.drop_last(), have);
        match scene.drawn(nodes.last()) {
            Some(info) => {
                let code = info.handle.code() as u64;
                if have.contains_key(code) && have[code] == info.version || before.contains(
                    info.handle,
                ) {
                    before
                } else {
                    before.push(info.handle)
                }
            },
            None => before,
        }
    }
}

proof fn lemma_drawn_info(scene: Scene, node: Handle)
    ensures
        match scene.drawn(node) {
            Some(info) => {
                &&& scene.mesh(info.handle) == Some(info)
                &&& Handle::from_code(info.handle.code()) == info.handle
                &&& 0 <= info.handle.code() <= u64::MAX
            },
            None => true,
        },
{
    match scene.node(node) {
        Some(n) => match n.mesh {
            Some(m) => {
                crate::scene::lemma_mesh_at(scene.meshes@, m);
            },
            None => {},
        },
        None => {},
    }
}

proof fn lemma_drawn_step(scene: Scene, nodes: Seq<Handle>, i: int)
    requires
        0 <= i < nodes.len(),
    ensures
        drawn_versions(scene, nodes.take(i + 1)) == match scene.drawn(nodes[i]) {
            Some(info) => drawn_versions(scene, nodes.take(i)).insert(
                info.handle.code() as u64,
                info.version,
            ),
            None => drawn_versions(scene, nodes.take(i)),
        },
{
    let was = nodes.take(i);
    let now = nodes.take(i + 1);
    lemma_drawn_info(scene, nodes[i]);
    assert(now[i] == nodes[i]);
    assert forall|code: u64| #[trigger] is_drawn(scene, now, code) == (is_drawn(scene, was, code)
        || (match scene.drawn(nodes[i]) {
        Some(info) => info.handle.code() == code,
        None => false,
    })) by {
        if is_drawn(scene, was, code) {
            let k = choose|k: int|
                0 <= k < was.len() && (match scene.drawn(#[trigger] was[k]) {
                    Some(info) => info.handle.code() == code,
                    None => false,
                });
            assert(now[k] == was[k]);
        }
        if is_drawn(scene, now, code) {
            let k = choose|k: int|
                0 <= k < now.len() && (match scene.drawn(#[trigger] now[k]) {
                    Some(info) => info.handle.code() == code,
                    None => false,
                });
            if k < i {
                assert(was[k] == now[k]);
            }
        }
    }
    let a = drawn_versions(scene, now);
    let b = drawn_versions(scene, was);
    match scene.drawn(nodes[i]) {
        Some(info) => {
            assert(a =~= b.insert(info.handle.code() as u64, info.version));
        },
        None => {
            assert(a =~= b);
        },
    }
}

/// Which meshes of some nodes have to be sent. After that the versions are those of the meshes
/// that are drawn, and no others.
pub fn sync_meshes(have: &mut MeshVersions, scene: &Scene, nodes: &Vec<Handle>) -> (send: Vec<
    Handle,
>)
    ensures
        send@ == to_send(*scene, nodes@, old(have)@),
        final(have)@ == drawn_versions(*scene, nodes@),
{
    let mut send: Vec<Handle> = Vec::new();
    let mut live: MeshVersions = HashMap::new();
    let mut i: usize = 0;
    assert(to_send(*scene, nodes@.take(0), have@) =~= Seq::empty());
    assert(drawn_versions(*scene, nodes@.take(0)) =~= Map::empty());
    while i < nodes.len()
        invariant
            i <= nodes@.len(),
            *have == *old(have),
            send@ == to_send(*scene, nodes@.take(i as int), have@),
            live@ == drawn_versions(*scene, nodes@.take(i as int)),
        decreases nodes@.len() - i,
    {
        assert(nodes@.take(i + 1).drop_last() =~= nodes@.take(i as int));
        proof {
            lemma_drawn_step(*scene, nodes@, i as int);
            lemma_drawn_info(*scene, nodes@[i as int]);
        }
        match scene.visible_mesh_of(nodes[i]) {
            Some(info) => {
                let code: u64 = info.handle.packed();
                let current = match have.get(&code) {
                    Some(v) => *v == info.version,
                    None => false,
                };
                if !current && !crate::scene::contains_handle(&send, info.handle) {
                    send.push(info.handle);
                }
                live.insert(code, info.version);
            },
            None => {},
        }
        i += 1;
    }
    assert(nodes@.take(i as int) =~= nodes@);
    *have = live;
    send
}

/// The nodes that are drawn, with their meshes.
pub open spec fn draw_list(scene: Scene, nodes: Seq<Handle>) -> Seq<(Handle, Handle)>
    decreases nodes.len(),
{
    if nodes.len() == 0 {
        Seq::empty()
    } else {
        let before = draw_list(scene, nodes.drop_last());
        match scene.drawn(nodes.last()) {
            Some(info) => before.push((nodes.last(), info.handle)),
            None => before,
        }
    }
}

/// The nodes that are drawn, with their meshes.
pub fn draws(scene: &Scene, nodes: &Vec<Handle>) -> (out: Vec<(Handle, Handle)>)
    ensures
        out@ == draw_list(*scene, nodes@),
{
    let mut out: Vec<(Handle, Handle)> = Vec::new();
    let mut i: usize = 0;
    assert(draw_list(*scene, nodes@.take(0)) =~= Seq::empty());
    while i < nodes.len()
        invariant
            i <= nodes@.len(),
            out@ == draw_list(*scene, nodes@.take(i as int)),
        decreases nodes@.len() - i,
    {
        assert(nodes@.take(i + 1).drop_last() =~= nodes@.take(i as int));
        match scene.visible_mesh_of(nodes[i]) {
            Some(info) => out.push((nodes[i], info.handle)),
            None => {},
        }
        i += 1;
    }
    assert(nodes@.take(i as int) =~= nodes@);
    out
}

/// After a synchronisation with an unchanged scene nothing has to be sent.
pub proof fn law_nothing_is_sent_twice(scene: Scene, nodes: Seq<Handle>)
    ensures
        to_send(scene, nodes, drawn_versions(scene, nodes)).len() == 0,
{
    lemma_none_sent(scene, nodes, nodes.len() as int);
    assert(nodes.take(nodes.len() as int) =~= nodes);
}

proof fn lemma_none_sent(scene: Scene, nodes: Seq<Handle>, n: int)
    requires
        0 <= n <= nodes.len(),
    ensures
        to_send(scene, nodes.take(n), drawn_versions(scene, nodes)).len() == 0,
    decreases n,
{
    if n > 0 {
        let part = nodes.take(n);
        lemma_none_sent(scene, nodes, n - 1);
        assert(part.drop_last() =~= nodes.take(n - 1));
        assert(part.last() == nodes[n - 1]);
        lemma_drawn_info(scene, nodes[n - 1]);
        match scene.drawn(nodes[n - 1]) {
            Some(info) => {
                let code = info.handle.code() as u64;
                assert(is_drawn(scene, nodes, code));
                assert(drawn_versions(scene, nodes).contains_key(code));
            },
            None => {},
        }
    }
}

/// What the words of a stamp are, one by one: where it is and how far it reaches, the brush, the
/// channels, painting or erasing, and the two sizes.
pub proof fn law_the_words_of_a_stamp(
    center: Point,
    screen_radius: u32,
    world_radius: u32,
    brush: Brush,
    channels: Rgba,
    erase: bool,
    map: (u32, u32),
    texture: (u32, u32),
)
    ensures
        ({
            let w = brush_block(
                center,
                screen_radius,
                world_radius,
                brush,
                channels,
                erase,
                map,
                texture,
            );
            &&& w.len() == 24
            &&& w[0] == center[0] && w[1] == center[1]
            &&& w[5] == 0 && w[6] == 0 && w[7] == 0
            &&& w[8] == brush.color.r && w[9] == brush.color.g && w[10] == brush.color.b && w[11]
                == brush.color.a
            &&& w[12] == channels.r && w[13] == channels.g && w[14] == channels.b && w[15]
                == channels.a
            &&& w[17] == 0x3f80_0000 <==> erase
            &&& w[17] == 0 <==> !erase
            &&& w[18] == map.0 && w[19] == map.1 && w[20] == texture.0 && w[21] == texture.1
            &&& w[22] == 0 && w[23] == 0
        }),
{
}

/// The stamp of the eraser is the stamp of the brush but for the one word that tells them apart.
pub proof fn law_erasing_changes_one_word(
    center: Point,
    screen_radius: u32,
    world_radius: u32,
    brush: Brush,
    channels: Rgba,
    map: (u32, u32),
    texture: (u32, u32),
    i: int,
)
    requires
        0 <= i < 24,
    ensures
        ({
            let paint = brush_block(
                center,
                screen_radius,
                world_radius,
                brush,
                channels,
                false,
                map,
                texture,
            );
            let clear = brush_block(
                center,
                screen_radius,
                world_radius,
                brush,
                channels,
                true,
                map,
                texture,
            );
            paint[i] != clear[i] <==> i == 17
        }),
{
}

/// The reach of a stamp is never below two pixels or a ten-thousandth of a unit, and is the one
/// that was asked for from there on. Hardness and opacity are kept from zero to one, and are those
/// of the brush where they are in that range.
pub proof fn law_stamps_keep_to_their_ranges(
    center: Point,
    screen_radius: u32,
    world_radius: u32,
    brush: Brush,
    channels: Rgba,
    erase: bool,
    map: (u32, u32),
    texture: (u32, u32),
)
    requires
        crate::bits::is_ordered(screen_radius),
        crate::bits::is_ordered(world_radius),
        crate::bits::is_ordered(brush.hardness),
        crate::bits::is_ordered(brush.opacity),
    ensures
        ({
            let w = brush_block(
                center,
                screen_radius,
                world_radius,
                brush,
                channels,
                erase,
                map,
                texture,
            );
            let v = |x: u32| crate::bits::value(x);
            &&& v(w[2]) == if v(screen_radius) < v(0x4000_0000) {
                v(0x4000_0000)
            } else {
                v(screen_radius)
            }
            &&& v(w[3]) == if v(world_radius) < v(0x38d1_b717) {
                v(0x38d1_b717)
            } else {
                v(world_radius)
            }
            &&& v(w[4]) == if v(brush.hardness) < 0 {
                0
            } else if v(brush.hardness) > v(0x3f80_0000) {
                v(0x3f80_0000)
            } else {
                v(brush.hardness)
            }
            &&& v(w[16]) == if v(brush.opacity) < 0 {
                0
            } else if v(brush.opacity) > v(0x3f80_0000) {
                v(0x3f80_0000)
            } else {
                v(brush.opacity)
            }
        }),
{
    assert(crate::bits::magnitude(0) == 0 && crate::bits::value(0) == 0);
    crate::bits::law_keys_order_numbers(screen_radius, 0x4000_0000);
    crate::bits::law_keys_order_numbers(world_radius, 0x38d1_b717);
    crate::bits::law_keys_order_numbers(brush.hardness, 0);
    crate::bits::law_keys_order_numbers(brush.hardness, 0x3f80_0000);
    crate::bits::law_keys_order_numbers(0x3f80_0000, brush.hardness);
    crate::bits::law_keys_order_numbers(brush.opacity, 0);
    crate::bits::law_keys_order_numbers(brush.opacity, 0x3f80_0000);
    crate::bits::law_keys_order_numbers(0x3f80_0000, brush.opacity);
}

/// What the words of a stack are: a slot of 64 words per pass. The first slot lays down the base
/// colour. Every other slot blends one layer, from the bottom to the top, in its own opacity, kept
/// from zero to one: a painted layer over the base colour, a filled one with its filling. All of
/// them write the same channels.
pub proof fn law_the_words_of_a_stack(pass: TilePass, size: (u32, u32), k: int)
    requires
        0 <= k < pass.layers@.len(),
    ensures
        ({
            let w = stack_words(pass, size);
            let s = 64 * (k + 1);
            let l = pass.layers@[k];
            let c = if l.kind == LayerKind::Fill {
                l.fill
            } else {
                pass.base
            };
            &&& w.len() == 64 * (1 + pass.layers@.len())
            &&& w[0] == pass.base.r && w[1] == pass.base.g && w[2] == pass.base.b && w[3]
                == pass.base.a
            &&& w[4] == pass.channels.r && w[5] == pass.channels.g && w[6] == pass.channels.b
                && w[7] == pass.channels.a
            &&& w[8] == 0x3f80_0000 && w[9] == 0 && w[10] == size.0 && w[11] == size.1
            &&& w[s] == c.r && w[s + 1] == c.g && w[s + 2] == c.b && w[s + 3] == c.a
            &&& w[s + 4] == pass.channels.r && w[s + 5] == pass.channels.g && w[s + 6]
                == pass.channels.b && w[s + 7] == pass.channels.a
            &&& w[s + 9] == if l.kind == LayerKind::Fill {
                2u32
            } else {
                1u32
            }
            &&& w[s + 10] == size.0 && w[s + 11] == size.1
            &&& crate::bits::is_ordered(l.opacity) ==> crate::bits::value(w[s + 8])
                == if crate::bits::value(l.opacity) < 0 {
                0
            } else if crate::bits::value(l.opacity) > crate::bits::value(0x3f80_0000) {
                crate::bits::value(0x3f80_0000)
            } else {
                crate::bits::value(l.opacity)
            }
        }),
{
    let w = stack_words(pass, size);
    let s = 64 * (k + 1);
    let l = pass.layers@[k];
    assert forall|j: int| 0 <= j < 12 implies #[trigger] w[s + j] == slot_block(
        pass,
        size,
        k + 1,
    )[j] by {
        assert((s + j) / 64 == k + 1 && (s + j) % 64 == j);
    }
    assert(w[s + 0] == slot_block(pass, size, k + 1)[0]);
    assert forall|j: int| 0 <= j < 12 implies #[trigger] w[j] == slot_block(pass, size, 0)[j] by {
        assert(j / 64 == 0 && j % 64 == j);
    }
    assert(crate::bits::magnitude(0) == 0 && crate::bits::value(0) == 0);
    if crate::bits::is_ordered(l.opacity) {
        crate::bits::law_keys_order_numbers(l.opacity, 0);
        crate::bits::law_keys_order_numbers(l.opacity, 0x3f80_0000);
        crate::bits::law_keys_order_numbers(0x3f80_0000, l.opacity);
    }
}

/// What the words of a vertex are: its own position, normal and texture coordinates of the first
/// set, in that order.
pub proof fn law_the_words_of_a_vertex(mesh: Mesh, i: int, k: int)
    requires
        0 <= i < mesh.positions@.len(),
        0 <= k < 3,
    ensures
        ({
            let w = vertex_block(mesh, i);
            &&& w.len() == 8
            &&& w[k] == mesh.positions@[i][k]
            &&& i < mesh.normals@.len() ==> w[3 + k] == mesh.normals@[i][k]
            &&& i >= mesh.normals@.len() ==> w[3 + k] == if k == 1 {
                0x3f80_0000u32
            } else {
                0u32
            }
            &&& k < 2 && mesh.uvs@.len() > 0 && i < mesh.uvs@[0]@.len() ==> w[6 + k]
                == mesh.uvs@[0]@[i][k]
            &&& k < 2 && (mesh.uvs@.len() == 0 || i >= mesh.uvs@[0]@.len()) ==> w[6 + k] == 0
        }),
{
}

/// A number is kept where it is inside its range, and is moved to the end of the range that it is
/// beyond otherwise.
pub proof fn law_clamping_keeps_the_range(x: u32, low: u32, high: u32)
    requires
        crate::bits::is_ordered(x) && crate::bits::is_ordered(low) && crate::bits::is_ordered(high),
        crate::bits::value(low) <= crate::bits::value(high),
    ensures
        ({
            let r = clamped(x, low, high);
            let v = crate::bits::value(x);
            &&& crate::bits::value(low) <= crate::bits::value(r) <= crate::bits::value(high)
            &&& v < crate::bits::value(low) ==> r == low
            &&& v > crate::bits::value(high) ==> r == high
            &&& crate::bits::value(low) <= v <= crate::bits::value(high) ==> r == x
        }),
{
    crate::bits::law_keys_order_numbers(x, low);
    crate::bits::law_keys_order_numbers(high, x);
    crate::bits::law_keys_order_numbers(low, high);
}

/// A buffer grows to enough slots, to eight at least, and never to twice as many as are needed.
pub proof fn law_slots_suffice(slots: u32)
    requires
        slots >= 1,
    ensures
        slots_for(slots) >= slots,
        slots_for(slots) >= 8,
        slots_for(slots) == 8 || slots_for(slots) < 2 * slots,
{
    lemma_doubled(1, slots as nat);
}

proof fn lemma_doubled(p: nat, n: nat)
    requires
        p > 0,
        p < 2 * n,
    ensures
        n <= doubled_to(p, n) < 2 * n,
    decreases (if p >= n {
        0
    } else {
        n - p
    }),
{
    if p < n {
        lemma_doubled(2 * p, n);
    }
}

/// A mesh is sent exactly if a node draws it and the device does not have its version; no mesh is
/// sent twice at once.
pub proof fn law_changed_meshes_are_sent(
    scene: Scene,
    nodes: Seq<Handle>,
    have: Map<u64, u64>,
    h: Handle,
)
    ensures
        to_send(scene, nodes, have).no_duplicates(),
        to_send(scene, nodes, have).contains(h) <==> exists|i: int|
            0 <= i < nodes.len() && is_stale(scene, #[trigger] nodes[i], have, h),
    decreases nodes.len(),
{
    if nodes.len() > 0 {
        let rest = nodes.drop_last();
        let n = nodes.len() - 1;
        law_changed_meshes_are_sent(scene, rest, have, h);
        let before = to_send(scene, rest, have);
        let now = to_send(scene, nodes, have);
        if before.contains(h) {
            let k = choose|k: int| 0 <= k < before.len() && before[k] == h;
            assert(now[k] == h);
            let i = choose|i: int|
                0 <= i < rest.len() && is_stale(scene, #[trigger] rest[i], have, h);
            assert(is_stale(scene, nodes[i], have, h));
        }
        if is_stale(scene, nodes[n], have, h) {
            if !before.contains(h) {
                assert(now[before.len() as int] == h);
            }
        }
        if exists|i: int| 0 <= i < nodes.len() && is_stale(scene, #[trigger] nodes[i], have, h) {
            let i = choose|i: int|
                0 <= i < nodes.len() && is_stale(scene, #[trigger] nodes[i], have, h);
            if i < n {
                assert(is_stale(scene, rest[i], have, h));
            }
        }
        if now.contains(h) && !before.contains(h) {
            let k = choose|k: int| 0 <= k < now.len() && now[k] == h;
            if k < before.len() {
                assert(before[k] == h);
            }
            assert(is_stale(scene, nodes[n], have, h));
        }
    }
}

/// A node draws a mesh that the device does not have in its version.
pub open spec fn is_stale(scene: Scene, node: Handle, have: Map<u64, u64>, h: Handle) -> bool {
    match scene.drawn(node) {
        Some(info) => info.handle == h && !(have.contains_key(h.code() as u64)
            && have[h.code() as u64] == info.version),
        None => false,
    }
}

/// The nodes of two lists are drawn one list after the other; a node is drawn with its own mesh, or
/// not at all.
pub proof fn law_nodes_are_drawn_in_order(scene: Scene, a: Seq<Handle>, b: Seq<Handle>, h: Handle)
    ensures
        draw_list(scene, a + b) == draw_list(scene, a) + draw_list(scene, b),
        scene.drawn(h) is Some ==> draw_list(scene, seq![h]) == seq![
            (h, scene.drawn(h)->0.handle),
        ],
        scene.drawn(h) is None ==> draw_list(scene, seq![h]).len() == 0,
    decreases b.len(),
{
    reveal_with_fuel(draw_list, 2);
    assert(seq![h].drop_last() =~= Seq::<Handle>::empty());
    assert(draw_list(scene, Seq::<Handle>::empty()) =~= Seq::empty());
    if b.len() == 0 {
        assert(a + b =~= a);
        assert(draw_list(scene, a) + draw_list(scene, b) =~= draw_list(scene, a));
    } else {
        law_nodes_are_drawn_in_order(scene, a, b.drop_last(), h);
        assert((a + b).drop_last() =~= a + b.drop_last());
        assert((a + b).last() == b.last());
        assert(draw_list(scene, a + b) =~= draw_list(scene, a) + draw_list(scene, b));
    }
}

/// The device is said to have each mesh that is drawn, in the version of the scene, and no other.
pub proof fn law_the_device_has_what_is_drawn(scene: Scene, nodes: Seq<Handle>, i: int, code: u64)
    requires
        0 <= i < nodes.len(),
    ensures
        match scene.drawn(nodes[i]) {
            Some(info) => drawn_versions(scene, nodes).contains_key(info.handle.code() as u64)
                && drawn_versions(scene, nodes)[info.handle.code() as u64] == info.version,
            None => true,
        },
        drawn_versions(scene, nodes).contains_key(code) ==> exists|k: int|
            0 <= k < nodes.len() && scene.drawn(#[trigger] nodes[k]) is Some && scene.drawn(
                nodes[k],
            )->0.handle.code() == code,
{
    lemma_drawn_info(scene, nodes[i]);
    match scene.drawn(nodes[i]) {
        Some(info) => {
            assert(is_drawn(scene, nodes, info.handle.code() as u64));
        },
        None => {},
    }
    if is_drawn(scene, nodes, code) {
        let k = choose|k: int|
            0 <= k < nodes.len() && (match scene.drawn(#[trigger] nodes[k]) {
                Some(info) => info.handle.code() == code,
                None => false,
            });
        assert(scene.drawn(nodes[k]) is Some);
    }
}

} // verus!
