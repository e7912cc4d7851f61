//! The Hilbert encoder, level layout, key sort and lattice mapping on given values.

use aabb::hilbert::{hilbert_xy_to_index, interleave};
use aabb::levels::{
    calculate_exact_total_nodes, compute_level_bounds, div_ceil, estimate_buffer_size,
    estimate_total_nodes,
};
use aabb::order::{lattice_coord, leaf_order};
use aabb::sort::sort_keys;
use aabb::BoxI32;

#[test]
fn interleave_spreads_bits() {
    assert_eq!(interleave(0b1011), 0b100_0101);
    assert_eq!(interleave(0xFFFF), 0x5555_5555);
    assert_eq!(interleave(0), 0);
}

#[test]
fn hilbert_index_known_cells() {
    assert_eq!(hilbert_xy_to_index(0, 0), 0);
    assert_eq!(hilbert_xy_to_index(1, 0), 1);
    assert_eq!(hilbert_xy_to_index(1, 1), 2);
    assert_eq!(hilbert_xy_to_index(0, 1), 3);
    assert_eq!(hilbert_xy_to_index(65535, 0), 4_294_967_295);
    assert_eq!(hilbert_xy_to_index(0, 65535), 1_431_655_765);
    assert_eq!(hilbert_xy_to_index(65535, 65535), 2_863_311_530);
    assert_eq!(hilbert_xy_to_index(12345, 54321), 1_555_040_834);
}

#[test]
fn hilbert_index_is_one_to_one_on_a_corner_block() {
    let mut codes = Vec::new();
    for x in 0..4 {
        for y in 0..4 {
            codes.push(hilbert_xy_to_index(x, y));
        }
    }
    codes.sort();
    assert_eq!(codes, (0..16).collect::<Vec<u32>>());
}

#[test]
fn level_bounds_of_small_and_large_trees() {
    assert_eq!(compute_level_bounds(1, 16), vec![1, 2]);
    assert_eq!(compute_level_bounds(16, 16), vec![16, 17]);
    assert_eq!(compute_level_bounds(17, 16), vec![17, 19, 20]);
    assert_eq!(compute_level_bounds(256, 16), vec![256, 272, 273]);
    assert_eq!(compute_level_bounds(1000, 16), vec![1000, 1063, 1067, 1068]);
}

#[test]
fn exact_and_estimated_node_counts() {
    assert_eq!(calculate_exact_total_nodes(0, 16), 0);
    assert_eq!(calculate_exact_total_nodes(1, 16), 2);
    assert_eq!(calculate_exact_total_nodes(17, 16), 20);
    assert_eq!(calculate_exact_total_nodes(1000, 16), 1068);
    assert_eq!(estimate_total_nodes(0, 16), 0);
    assert_eq!(estimate_total_nodes(16, 16), 18);
    assert_eq!(estimate_buffer_size(16, 16, 16), 8 + 18 * 20);
    assert_eq!(estimate_buffer_size(0, 16, 32), 8);
    assert_eq!(div_ceil(17, 16), 2);
    assert_eq!(div_ceil(32, 16), 2);
}

#[test]
fn key_sort_orders_and_keeps_duplicates() {
    assert_eq!(sort_keys(&vec![5, 3, 9, 3, 0]), vec![0, 3, 3, 5, 9]);
    assert_eq!(sort_keys(&vec![]), Vec::<u64>::new());
    let v: Vec<u64> = (0..1000).map(|i| (i * 7919) % 1009).collect();
    let mut expected = v.clone();
    expected.sort();
    assert_eq!(sort_keys(&v), expected);
}

#[test]
fn lattice_mapping_of_centers() {
    assert_eq!(lattice_coord(0, 10, 0, 10), 32767);
    assert_eq!(lattice_coord(0, 0, 0, 10), 0);
    assert_eq!(lattice_coord(10, 10, 0, 10), 65534);
    assert_eq!(lattice_coord(3, 7, 5, 5), 0);
    assert_eq!(lattice_coord(i32::MIN, i32::MIN, i32::MIN, i32::MAX), 0);
    assert_eq!(lattice_coord(i32::MAX, i32::MAX, i32::MIN, i32::MAX), 65534);
}

#[test]
fn leaf_order_sorts_by_curve_then_id() {
    let bounds = BoxI32::new(0, 0, 10, 10);
    let items = vec![
        BoxI32::new(10, 10, 10, 10),
        BoxI32::new(0, 0, 0, 0),
        BoxI32::new(0, 0, 0, 0),
    ];
    // two boxes share the first cell and keep their id order; the far corner comes last
    assert_eq!(leaf_order(&items, bounds), vec![1, 2, 0]);
}
