//! Numbers, texts, orders, scenes, brush shapes and models.

use model_painter::bits::{
    at_least, finite, is_number, larger, less, lower, order_key, smaller, upper,
};
use model_painter::brush_alpha::{
    generate_normal_stamps, generate_presets, hash_i, AlphaShape, Around, Baking, BrushAlpha, StampShape,
};
use model_painter::scene::{
    check_forest, collect_mesh_nodes, contains_handle, remove_subtree, set_node_visible, set_subtree_visible, walk_subtree,
    Handle, MeshInfo, Node, Scene,
};
use model_painter::sort::{ascending_set, descending_order};
use model_painter::text::{begins_with, concat3, decimal_string, numbered};

fn handle(index: u32) -> Handle {
    Handle { index, generation: 1 }
}

fn samples() -> Vec<f32> {
    vec![
        f32::NEG_INFINITY, f32::MIN, -1.5, -1.0, -1e-40, -0.0, 0.0, 1e-45, 1e-40, 0.5, 1.0, 1.0000001, 3e38,
        f32::MAX, f32::INFINITY, f32::NAN,
    ]
}

#[test]
fn patterns_compare_as_numbers_do() {
    for a in samples() {
        for b in samples() {
            let (x, y) = (a.to_bits(), b.to_bits());
            assert_eq!(less(x, y), a < b);
            assert_eq!(at_least(x, y), a >= b);
            if !a.is_nan() && !b.is_nan() {
                assert_eq!(order_key(x) < order_key(y), a < b);
                assert_eq!(f32::from_bits(larger(x, y)), a.max(b));
                assert_eq!(f32::from_bits(smaller(x, y)), a.min(b));
                assert_eq!(f32::from_bits(upper(x, y)), if a > b { a } else { b });
                assert_eq!(f32::from_bits(lower(x, y)), if a < b { a } else { b });
            }
        }
        assert_eq!(is_number(a.to_bits()), !a.is_nan());
        assert_eq!(finite(a.to_bits()), a.is_finite());
    }
    // The number wins over what is no number.
    assert_eq!(larger(f32::NAN.to_bits(), 2.0f32.to_bits()), 2.0f32.to_bits());
    assert_eq!(smaller(2.0f32.to_bits(), f32::NAN.to_bits()), 2.0f32.to_bits());
}

#[test]
fn numbers_in_labels() {
    assert_eq!(decimal_string(0), "0");
    assert_eq!(decimal_string(1090), "1090");
    assert_eq!(decimal_string(u128::MAX), u128::MAX.to_string());
    assert_eq!(numbered("Layer ", 12), "Layer 12");
    assert_eq!(concat3("a", "", "c"), "ac");
    assert!(begins_with("BVH ready", "BVH"));
    assert!(begins_with("BVH", "BVH"));
    assert!(!begins_with("BV", "BVH"));
    assert!(!begins_with("xBVH", "BVH"));
}

#[test]
fn orders() {
    assert_eq!(descending_order(&vec![3, -1, 7, 3, 7]), vec![2, 4, 0, 3, 1]);
    assert_eq!(descending_order(&vec![i32::MIN, i32::MAX]), vec![1, 0]);
    assert_eq!(descending_order(&vec![]), Vec::<usize>::new());
    assert_eq!(ascending_set(vec![5, 1, 5, 3, 1]), vec![1, 3, 5]);
    assert_eq!(ascending_set(vec![]), Vec::<u128>::new());
}

fn tree() -> Scene {
    let node = |i: u32, parent: Option<u32>, mesh: Option<u32>| Node {
        handle: handle(i),
        parent: parent.map(handle),
        mesh: mesh.map(handle),
        material: None,
        visible: true,
    };
    Scene {
        nodes: vec![
            node(1, None, None),
            node(2, Some(1), Some(20)),
            node(3, Some(1), None),
            node(4, Some(3), Some(20)),
            node(5, None, Some(21)),
        ],
        meshes: vec![MeshInfo { handle: handle(20), index_count: 3, version: 1 }],
    }
}

#[test]
fn a_subtree_is_walked_from_the_last_child() {
    let scene = tree();
    assert_eq!(walk_subtree(&scene.nodes, handle(1)), vec![handle(1), handle(3), handle(4), handle(2)]);
    assert_eq!(collect_mesh_nodes(&scene, Some(handle(1))), vec![handle(4), handle(2)]);
    assert_eq!(collect_mesh_nodes(&scene, None), vec![]);
    assert!(contains_handle(&vec![handle(1), handle(2)], handle(2)));
    assert!(!contains_handle(&vec![handle(1)], Handle { index: 1, generation: 2 }));
}

#[test]
fn hiding_a_subtree() {
    let mut scene = tree();
    set_subtree_visible(&mut scene, handle(3), false);
    let visible: Vec<bool> = scene.nodes.iter().map(|n| n.visible).collect();
    assert_eq!(visible, vec![true, true, false, false, true]);
    set_node_visible(&mut scene, handle(3), true);
    assert!(scene.nodes[2].visible && !scene.nodes[3].visible);
    assert!(scene.visible_mesh_of(handle(4)).is_none());
    assert_eq!(scene.mesh_of(handle(4)).unwrap().handle, handle(20));
    assert!(scene.mesh_of(handle(5)).is_none());
}

#[test]
fn removing_a_subtree() {
    let mut scene = tree();
    let gone = remove_subtree(&mut scene, handle(1));
    assert_eq!(gone.len(), 4);
    let left: Vec<Handle> = scene.nodes.iter().map(|n| n.handle).collect();
    assert_eq!(left, vec![handle(5)]);
}

#[test]
fn cycles_are_found() {
    let mut scene = tree();
    assert!(check_forest(&scene.nodes));
    assert!(check_forest(&vec![]));
    // A parent that is not there makes a root.
    scene.nodes[0].parent = Some(handle(99));
    assert!(check_forest(&scene.nodes));
    let last = scene.nodes.iter().position(|n| n.parent.is_some_and(|p| p == handle(1))).unwrap();
    scene.nodes[0].parent = Some(scene.nodes[last].handle);
    assert!(!check_forest(&scene.nodes));
    let mut alone = scene.nodes[last];
    alone.parent = Some(alone.handle);
    assert!(!check_forest(&vec![alone]));
}

#[test]
fn handles_as_numbers() {
    let h = Handle { index: 0xffff_fffe, generation: 77 };
    assert_eq!(h.packed(), 77 * 0x1_0000_0000 + 0xffff_fffe);
    assert_eq!(h.key(), (0xffff_fffe, 77));
}

#[test]
fn coverage_maps_by_texel() {
    let list = generate_presets(|s: AlphaShape, x: u32, y: u32| (s.label().len() as u32 + x + 2 * y) as u8);
    assert_eq!(list.len(), 8);
    let names: Vec<&str> = list.iter().map(|a| a.name).collect();
    assert_eq!(names, vec!["Circle", "Hard", "Square", "Diamond", "Cross", "Ring", "Dots", "Noise"]);
    let stamps: Vec<bool> = list.iter().map(|a| a.coverage_stamp).collect();
    assert_eq!(stamps, vec![false, false, false, false, false, false, false, true]);
    assert_eq!(list[0].coverage.len(), 256 * 256);
    assert_eq!(list[0].coverage[256 * 3 + 5], 6 + 5 + 6);
    assert_eq!(AlphaShape::Ring.baking(), Baking::Solid);
    assert_eq!(AlphaShape::Noise.baking(), Baking::Coverage);
}

#[test]
fn pictures_of_coverage_maps() {
    let a = BrushAlpha { name: "x", size: 1, coverage: vec![7, 200], coverage_stamp: true };
    assert_eq!(a.rgba_preview(), vec![7, 7, 7, 255, 200, 200, 200, 255]);
}

#[test]
fn normal_stamps_by_texel() {
    let list = generate_normal_stamps(
        |s: StampShape, x: u32, y: u32| s.label().len() as u32 * 100_000 + y * 256 + x,
        |a: Around, x: u32, _: u32| [(a.right - a.left) as u8, ((a.below - a.above) / 256) as u8, x as u8, 255],
    );
    assert_eq!(list.len(), 6);
    let names: Vec<&str> = list.iter().map(|s| s.name).collect();
    assert_eq!(names, vec!["Dome", "Groove", "Bevel", "Rivet", "Ridge", "Noise"]);
    let at = |x: usize, y: usize| 4 * (256 * y + x);
    assert_eq!(list[0].rgba[at(5, 5)..at(5, 5) + 4], [2, 2, 5, 255]);
    // At the rim the texel itself stands for the neighbour that is missing.
    assert_eq!(list[0].rgba[at(0, 9)..at(0, 9) + 4], [1, 2, 0, 255]);
    assert_eq!(list[0].rgba[at(9, 255)..at(9, 255) + 4], [2, 1, 9, 255]);
}

#[test]
fn the_lattice_hash() {
    let expected = |x: i32, y: i32| {
        let n = x.wrapping_mul(374761393) ^ y.wrapping_mul(668265263);
        (n ^ (n >> 13)).wrapping_mul(1274126177) as u32
    };
    for (x, y) in [(0, 0), (1, 0), (0, 1), (-5, 9), (i32::MAX, i32::MIN)] {
        assert_eq!(hash_i(x, y), expected(x, y));
    }
}
