//! Saved form of the i32 tree, item lookup and queries by item.

use aabb::{HilbertRTreeI32, LoadError, QueryError};

fn sample(n: i32) -> HilbertRTreeI32 {
    let mut tree = HilbertRTreeI32::new();
    for i in 0..n {
        let x = (i * 53) % 311 - 100;
        let y = (i * 17) % 157 - 40;
        tree.add(x, y, x + 1 + i % 9, y + 1 + i % 4);
    }
    tree.build();
    tree
}

fn sorted(mut v: Vec<usize>) -> Vec<usize> {
    v.sort();
    v
}

#[test]
fn saved_form_round_trips() {
    let tree = sample(500);
    let bytes = tree.to_bytes().expect("a built tree saves");
    let loaded = HilbertRTreeI32::from_bytes(&bytes).expect("its own saved form loads");
    assert_eq!(loaded.len(), 500);
    assert_eq!(loaded.to_bytes().unwrap(), bytes);
    let mut a = Vec::new();
    let mut b = Vec::new();
    for (x0, y0, x1, y1) in [(0, 0, 20, 20), (-100, -40, 300, 200), (50, -10, 51, -9)] {
        tree.query_intersecting(x0, y0, x1, y1, &mut a);
        loaded.query_intersecting(x0, y0, x1, y1, &mut b);
        assert_eq!(sorted(a.clone()), sorted(b.clone()));
        tree.query_contained_within(x0, y0, x1, y1, &mut a);
        loaded.query_contained_within(x0, y0, x1, y1, &mut b);
        assert_eq!(sorted(a.clone()), sorted(b.clone()));
    }
}

#[test]
fn saved_form_header_fields() {
    let mut tree = HilbertRTreeI32::new();
    tree.add(1, 2, 3, 4);
    tree.add(-5, -6, 7, 8);
    tree.build();
    let bytes = tree.to_bytes().unwrap();
    // magic, version, fanout 16, two items, three nodes, two level ends
    assert_eq!(&bytes[0..18], &[0xFB, 0x02, 16, 0, 0, 0, 2, 0, 0, 0, 3, 0, 0, 0, 2, 0, 0, 0]);
    // level ends 2 and 3, then the global bounds (-5, -6, 7, 8)
    assert_eq!(&bytes[18..26], &[2, 0, 0, 0, 3, 0, 0, 0]);
    assert_eq!(&bytes[26..30], &(-5i32).to_le_bytes());
    assert_eq!(&bytes[38..42], &8i32.to_le_bytes());
    // packed buffer of 8 + 3 * 20 bytes, starting with its own header
    assert_eq!(&bytes[42..46], &68u32.to_le_bytes());
    assert_eq!(&bytes[46..54], &[0xFB, 0x02, 16, 0, 2, 0, 0, 0]);
    assert_eq!(bytes.len(), 46 + 68);
}

#[test]
fn unbuilt_tree_has_no_saved_form() {
    let mut tree = HilbertRTreeI32::new();
    assert!(tree.to_bytes().is_none());
    tree.add(0, 0, 1, 1);
    assert!(tree.to_bytes().is_none());
}

#[test]
fn wrong_magic_or_version_is_invalid_data() {
    let bytes = sample(40).to_bytes().unwrap();
    let mut bad = bytes.clone();
    bad[0] = 0xFA;
    assert_eq!(HilbertRTreeI32::from_bytes(&bad).err(), Some(LoadError::InvalidData));
    let mut f64_file = bytes.clone();
    f64_file[1] = 0x01;
    assert_eq!(HilbertRTreeI32::from_bytes(&f64_file).err(), Some(LoadError::InvalidData));
    assert_eq!(HilbertRTreeI32::from_bytes(&vec![0xFB, 0x00]).err(), Some(LoadError::InvalidData));
}

#[test]
fn damaged_saved_forms_are_malformed() {
    let bytes = sample(40).to_bytes().unwrap();
    assert_eq!(HilbertRTreeI32::from_bytes(&vec![]).err(), Some(LoadError::Malformed));
    assert_eq!(HilbertRTreeI32::from_bytes(&vec![0xFB]).err(), Some(LoadError::Malformed));
    let cut = bytes[..bytes.len() - 1].to_vec();
    assert_eq!(HilbertRTreeI32::from_bytes(&cut).err(), Some(LoadError::Malformed));
    let mut parent = bytes.clone();
    let last = parent.len() - 30;
    parent[last] ^= 0x40;
    assert_eq!(HilbertRTreeI32::from_bytes(&parent).err(), Some(LoadError::Malformed));
    let mut count = bytes.clone();
    count[6] = 41;
    assert_eq!(HilbertRTreeI32::from_bytes(&count).err(), Some(LoadError::Malformed));
}

#[test]
fn get_returns_the_added_box() {
    let mut tree = HilbertRTreeI32::new();
    tree.add(1, 2, 3, 4);
    tree.add(5, 6, 7, 8);
    assert_eq!(tree.get(1), Some((5, 6, 7, 8)));
    tree.build();
    assert_eq!(tree.get(0), Some((1, 2, 3, 4)));
    assert_eq!(tree.get(1), Some((5, 6, 7, 8)));
    assert_eq!(tree.get(2), None);
    let big = sample(300);
    assert_eq!(big.get(123), Some((123 * 53 % 311 - 100, 123 * 17 % 157 - 40, 123 * 53 % 311 - 100 + 1 + 123 % 9, 123 * 17 % 157 - 40 + 1 + 123 % 4)));
}

#[test]
fn intersecting_by_id_excludes_the_item() {
    let mut tree = HilbertRTreeI32::new();
    tree.add(0, 0, 4, 4);
    tree.add(2, 2, 6, 6);
    tree.add(8, 8, 10, 10);
    tree.add(4, 4, 5, 5);
    tree.build();
    let mut results = Vec::new();
    assert_eq!(tree.query_intersecting_id(0, &mut results), Ok(()));
    assert_eq!(sorted(results.clone()), vec![1, 3]);
    assert_eq!(tree.query_intersecting_id(2, &mut results), Ok(()));
    assert!(results.is_empty());
    assert_eq!(
        tree.query_intersecting_id(4, &mut results),
        Err(QueryError::ItemOutOfRange { item_id: 4, num_items: 4 })
    );
}

#[test]
fn intersecting_by_id_uses_the_item_box_after_reordering() {
    let tree = sample(400);
    let mut results = Vec::new();
    for id in [0usize, 57, 399] {
        let (a, b, c, d) = tree.get(id).unwrap();
        let mut direct = Vec::new();
        tree.query_intersecting(a, b, c, d, &mut direct);
        direct.retain(|&x| x != id);
        tree.query_intersecting_id(id, &mut results).unwrap();
        assert_eq!(sorted(results.clone()), sorted(direct));
    }
}
