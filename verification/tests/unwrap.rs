//! Tiles and the automatic unwrap.

use glam::{Vec2, Vec3};
use model_painter::mesh::Mesh;
use model_painter::scene::{Handle, MeshInfo, Node, Scene};
use model_painter::segment::Segmentation;
use model_painter::unwrap::{apply_unwrap, Island, TriMath, TriPack, UnwrapAlgo};
use model_painter::uv::{face_udims, segment_udims, udim_from_uv, udim_origin};

const PAD: f32 = 0.012;

/// The arithmetic of the unwrap in single precision.
struct Single;

fn pair(v: Vec2) -> [u32; 2] {
    [v.x.to_bits(), v.y.to_bits()]
}

fn point(uv: [u32; 2]) -> Vec2 {
    Vec2::new(f32::from_bits(uv[0]), f32::from_bits(uv[1]))
}

impl TriMath for Single {
    fn project(&self, p: [[u32; 3]; 3]) -> Island {
        let p = p.map(|c| Vec3::from_array(c.map(f32::from_bits)));
        let e1 = p[1] - p[0];
        let e2 = p[2] - p[0];
        let t = e1.normalize_or_zero();
        let b = e1.cross(e2).normalize_or_zero().cross(t);
        if t.length_squared() < 1e-12 || b.length_squared() < 1e-12 {
            return Island { uv: [pair(Vec2::splat(0.5)); 3], size: pair(Vec2::ZERO) };
        }
        let mut uv = [
            Vec2::ZERO,
            Vec2::new(e1.dot(t), e1.dot(b)),
            Vec2::new(e2.dot(t), e2.dot(b)),
        ];
        if (uv[1].x * uv[2].y - uv[2].x * uv[1].y) * 0.5 < 0.0 {
            for u in &mut uv {
                u.y = -u.y;
            }
        }
        let min = uv[0].min(uv[1]).min(uv[2]);
        for u in &mut uv {
            *u -= min;
        }
        let max = uv[0].max(uv[1]).max(uv[2]);
        let pad = max.max_element().max(1e-6) * 0.08 + 1e-4;
        Island { uv: uv.map(pair), size: pair(max + Vec2::splat(pad)) }
    }

    fn bin_width(&self, sizes: &Vec<[u32; 2]>) -> u32 {
        let area: f32 = sizes.iter().map(|s| point(*s).x * point(*s).y).sum();
        let widest = sizes.iter().map(|s| point(*s).x).fold(0.0_f32, f32::max).max(1e-6);
        widest.max(area.sqrt()).to_bits()
    }

    fn plus(&self, a: u32, b: u32) -> u32 {
        (f32::from_bits(a) + f32::from_bits(b)).to_bits()
    }

    fn scale(&self, used: [u32; 2]) -> u32 {
        let span = point(used).x.max(point(used).y).max(1e-8);
        ((1.0 - 2.0 * PAD).max(0.1) / span).to_bits()
    }

    fn place(&self, uv: [u32; 2], origin: [u32; 2], scale: u32) -> [u32; 2] {
        pair((point(uv) + point(origin)) * f32::from_bits(scale) + Vec2::splat(PAD))
    }
}

fn into_tile(uv: [u32; 2], tile: [u32; 2]) -> [u32; 2] {
    pair(point(uv) + Vec2::new(tile[0] as f32, tile[1] as f32))
}

fn bits3(p: [f32; 3]) -> [u32; 3] {
    p.map(f32::to_bits)
}

fn tri_mesh() -> Mesh {
    Mesh {
        positions: vec![
            bits3([0.0, 0.0, 0.0]),
            bits3([1.0, 0.0, 0.0]),
            bits3([0.0, 1.0, 0.0]),
            bits3([1.0, 1.0, 0.0]),
        ],
        normals: vec![bits3([0.0, 0.0, 1.0]); 4],
        tangents: vec![],
        uvs: vec![vec![[0, 0]; 4]],
        colors: vec![],
        joints: vec![],
        weights: vec![],
        indices: vec![0, 1, 2, 1, 3, 2],
        basis_positions: vec![],
        basis_normals: vec![],
        morph_targets: vec![],
    }
}

#[test]
fn mari_id_from_uv() {
    assert_eq!(udim_from_uv(pair(Vec2::new(0.2, 0.3))), 1001);
    assert_eq!(udim_from_uv(pair(Vec2::new(1.2, 0.3))), 1002);
    assert_eq!(udim_from_uv(pair(Vec2::new(0.2, 1.1))), 1011);
}

#[test]
fn two_tiles_offset() {
    let mut mesh = tri_mesh();
    apply_unwrap(&mut mesh, &vec![1001, 1002], &TriPack { math: Single }, into_tile);
    assert_eq!(mesh.positions.len(), 6);
    let uv: Vec<Vec2> = mesh.uvs[0].iter().map(|u| point(*u)).collect();
    assert!(uv[0].x < 1.0 && uv[1].x < 1.0 && uv[2].x < 1.0);
    assert!(uv[3].x >= 1.0 && uv[4].x >= 1.0 && uv[5].x >= 1.0);
}

#[test]
fn two_tris_fit_unit_square() {
    let pos = vec![
        bits3([0.0, 0.0, 0.0]),
        bits3([1.0, 0.0, 0.0]),
        bits3([0.0, 1.0, 0.0]),
        bits3([1.0, 1.0, 0.0]),
    ];
    let idx = vec![0, 1, 2, 1, 3, 2];
    let out = TriPack { math: Single }.unwrap_tris(&pos, &idx, &vec![0, 1]);
    assert_eq!(out.len(), 2);
    for tri in &out {
        for p in tri {
            let p = point(*p);
            assert!(p.x >= 0.0 && p.x <= 1.0);
            assert!(p.y >= 0.0 && p.y <= 1.0);
        }
    }
}

#[test]
fn the_unwrap_has_a_name() {
    assert_eq!(TriPack { math: Single }.name(), "tri-pack");
}

#[test]
fn a_triangle_with_a_missing_corner_lies_at_the_centre() {
    let pos = vec![bits3([0.0, 0.0, 0.0]), bits3([1.0, 0.0, 0.0]), bits3([0.0, 1.0, 0.0])];
    let out = TriPack { math: Single }.unwrap_tris(&pos, &vec![0, 1, 2, 0, 1, 7], &vec![0, 1, 5]);
    assert_eq!(out.len(), 3);
    assert_ne!(out[0], [pair(Vec2::splat(0.5)); 3]);
    assert_eq!(out[1], [pair(Vec2::splat(0.5)); 3]);
    assert_eq!(out[2], [pair(Vec2::splat(0.5)); 3]);
}

#[test]
fn higher_islands_are_laid_out_first() {
    // The second triangle is the higher one, so it lies in the first row. The other one finds no
    // room beside it.
    let pos = vec![
        bits3([0.0, 0.0, 0.0]),
        bits3([1.0, 0.0, 0.0]),
        bits3([0.0, 1.0, 0.0]),
        bits3([0.0, 3.0, 0.0]),
    ];
    let idx = vec![0, 1, 2, 0, 1, 3];
    let out = TriPack { math: Single }.unwrap_tris(&pos, &idx, &vec![0, 1]);
    assert_eq!(point(out[1][0]), Vec2::splat(PAD));
    assert_eq!(point(out[0][0]).x, PAD);
    assert!(point(out[0][0]).y > 0.5);
}

#[test]
fn an_unwrap_keeps_the_corners() {
    let mut mesh = tri_mesh();
    let before = tri_mesh();
    assert!(apply_unwrap(&mut mesh, &vec![1001, 1001], &TriPack { math: Single }, into_tile));
    assert_eq!(mesh.indices, vec![0, 1, 2, 3, 4, 5]);
    for (i, old) in before.indices.iter().enumerate() {
        assert_eq!(mesh.positions[i], before.positions[*old as usize]);
        assert_eq!(mesh.normals[i], before.normals[*old as usize]);
    }
    // A column that was empty is filled with fallbacks.
    assert_eq!(mesh.tangents.len(), 6);
    assert_eq!(mesh.tangents[0], [1.0f32, 0.0, 0.0, 1.0].map(f32::to_bits));
}

#[test]
fn without_tiles_nothing_is_unwrapped() {
    let mut mesh = tri_mesh();
    assert!(!apply_unwrap(&mut mesh, &vec![], &TriPack { math: Single }, into_tile));
    assert_eq!(mesh.indices, vec![0, 1, 2, 1, 3, 2]);
    // With one tile number only the first triangle is left.
    assert!(apply_unwrap(&mut mesh, &vec![1001], &TriPack { math: Single }, into_tile));
    assert_eq!(mesh.indices, vec![0, 1, 2]);
}

#[test]
fn tiles_stand_in_rows_of_ten() {
    assert_eq!(udim_origin(1001), [0, 0]);
    assert_eq!(udim_origin(1010), [9, 0]);
    assert_eq!(udim_origin(1011), [0, 1]);
    assert_eq!(udim_origin(1100), [9, 9]);
    assert_eq!(udim_origin(7), [0, 0]);
    // Points outside of the first hundred tiles belong to the nearest one.
    assert_eq!(udim_from_uv(pair(Vec2::new(-0.5, -3.0))), 1001);
    assert_eq!(udim_from_uv(pair(Vec2::new(12.5, 0.0))), 1010);
    assert_eq!(udim_from_uv(pair(Vec2::new(f32::NAN, 1.0))), 1011);
}

#[test]
fn tiles_are_named_by_where_they_stand() {
    for id in 1001..=1100 {
        let [u, v] = udim_origin(id);
        assert_eq!(udim_from_uv(pair(Vec2::new(u as f32 + 0.5, v as f32 + 0.5))), id);
    }
}

#[test]
fn every_segment_with_faces_has_a_tile() {
    let mesh = Handle { index: 0, generation: 1 };
    let node = Handle { index: 1, generation: 1 };
    let scene = Scene {
        nodes: vec![Node { handle: node, parent: None, mesh: Some(mesh), material: None, visible: true }],
        meshes: vec![MeshInfo { handle: mesh, index_count: 12, version: 1 }],
    };
    let mut seg = Segmentation::default();
    seg.sync(&scene, &vec![node]);
    let b = seg.add_segment();
    let c = seg.add_segment();
    seg.set_face(mesh, 0, c);
    seg.set_face(mesh, 1, c);
    seg.set_face(mesh, 2, 1);
    let tiles = segment_udims(&seg);
    let by_face = face_udims(&seg, mesh, 4);
    assert_eq!(by_face[0], tiles[&c]);
    assert_eq!(by_face[1], tiles[&c]);
    assert_eq!(by_face[2], tiles[&1]);
    assert!(!tiles.contains_key(&b));
    let mut seen: Vec<u32> = tiles.values().copied().collect();
    seen.sort();
    assert_eq!(seen, vec![1001, 1002, 1003]);
    assert_eq!(by_face[3], tiles[&0]);
}

#[test]
fn a_point_above_the_origin_of_a_tile_is_in_the_tile() {
    for udim in 1001..=1100 {
        let origin = udim_origin(udim);
        for f in [0.0, 0.25, 0.984375, 0.999] {
            let uv = Vec2::new(origin[0] as f32 + f, origin[1] as f32 + f);
            assert_eq!(udim_from_uv(pair(uv)), udim);
        }
    }
}

#[test]
fn unwrapped_corners_are_in_their_tiles() {
    let mut mesh = tri_mesh();
    assert!(apply_unwrap(&mut mesh, &vec![1047, 1100], &TriPack { math: Single }, into_tile));
    let uvs = &mesh.uvs[0];
    for t in 0..2 {
        for c in 0..3 {
            let at = mesh.indices[3 * t + c] as usize;
            assert_eq!(udim_from_uv(uvs[at]), [1047, 1100][t]);
        }
    }
}

/// Lays triangles out without scaling, as squares of a whole size.
struct Squares;

impl TriMath for Squares {
    fn project(&self, p: [[u32; 3]; 3]) -> Island {
        let side = f32::from_bits(p[1][0]);
        Island {
            uv: [pair(Vec2::ZERO), pair(Vec2::new(side, 0.0)), pair(Vec2::splat(side))],
            size: pair(Vec2::splat(side)),
        }
    }

    fn bin_width(&self, _sizes: &Vec<[u32; 2]>) -> u32 {
        6.0_f32.to_bits()
    }

    fn plus(&self, a: u32, b: u32) -> u32 {
        (f32::from_bits(a) + f32::from_bits(b)).to_bits()
    }

    fn scale(&self, used: [u32; 2]) -> u32 {
        assert_eq!(point(used), Vec2::new(5.0, 9.0));
        1.0_f32.to_bits()
    }

    fn place(&self, uv: [u32; 2], origin: [u32; 2], _scale: u32) -> [u32; 2] {
        pair(point(uv) + point(origin))
    }
}

#[test]
fn packed_islands_do_not_overlap() {
    let sides = [1.0, 4.0, 2.0, 2.0, 3.0];
    let mut positions = Vec::new();
    for s in sides {
        positions.push(bits3([0.0, 0.0, 0.0]));
        positions.push(bits3([s, 0.0, 0.0]));
        positions.push(bits3([s, s, 0.0]));
    }
    let indices = (0..15).collect();
    let out = TriPack { math: Squares }.unwrap_tris(&positions, &indices, &vec![0, 1, 2, 3, 4]);
    let rooms: Vec<(Vec2, Vec2)> = out.iter().map(|t| (point(t[0]), point(t[2]))).collect();
    // By height: the four; the three starts a row, with a two beside it; the other two starts
    // another row, with the one beside it.
    let origins: Vec<[f32; 2]> = rooms.iter().map(|r| r.0.to_array()).collect();
    assert_eq!(origins, [[2.0, 7.0], [0.0, 0.0], [3.0, 4.0], [0.0, 7.0], [0.0, 4.0]]);
    for (i, a) in rooms.iter().enumerate() {
        for b in &rooms[i + 1..] {
            assert!(a.1.x <= b.0.x || b.1.x <= a.0.x || a.1.y <= b.0.y || b.1.y <= a.0.y);
        }
        assert!(a.1.x <= 5.0 && a.1.y <= 9.0);
    }
}

#[test]
fn faces_share_a_tile_if_they_share_a_label() {
    let (mesh, node) = (Handle { index: 1, generation: 1 }, Handle { index: 2, generation: 1 });
    let scene = Scene {
        nodes: vec![Node { handle: node, parent: None, mesh: Some(mesh), material: None, visible: true }],
        meshes: vec![MeshInfo { handle: mesh, index_count: 18, version: 1 }],
    };
    let mut seg = Segmentation::default();
    seg.sync(&scene, &vec![node]);
    let b = seg.add_segment();
    seg.set_faces(&vec![(mesh, 0), (mesh, 4)], b);
    seg.set_face(mesh, 2, 1);
    let tiles = face_udims(&seg, mesh, 6);
    for i in 0..6u32 {
        for j in 0..6u32 {
            let same_label = seg.label_of(mesh, i) == seg.label_of(mesh, j);
            assert_eq!(tiles[i as usize] == tiles[j as usize], same_label);
        }
    }
    assert_eq!(tiles, [1003, 1001, 1002, 1001, 1003, 1001]);
}
