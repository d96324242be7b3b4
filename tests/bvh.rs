use graphics_lib::bvh::{BVHNode, BoxKeys};

fn keys(list: &[(u64, u64, u64)]) -> Vec<BoxKeys> {
    list.iter().map(|&(x, y, z)| BoxKeys { x, y, z }).collect()
}

fn key_on(k: &BoxKeys, axis: usize) -> u64 {
    match axis {
        0 => k.x,
        1 => k.y,
        _ => k.z,
    }
}

fn check_splits(node: &BVHNode, ks: &[BoxKeys]) {
    if let BVHNode::Split { axis, left, right } = node {
        let l = left.leaf_indices();
        let r = right.leaf_indices();
        assert!(*axis < 3);
        assert_eq!(l.len(), (l.len() + r.len()) / 2);
        for &a in &l {
            for &b in &r {
                assert!(key_on(&ks[a], *axis) <= key_on(&ks[b], *axis));
            }
        }
        check_splits(left, ks);
        check_splits(right, ks);
    }
}

#[test]
fn empty_span_gives_empty_node() {
    let ks = keys(&[(1, 2, 3)]);
    assert!(matches!(BVHNode::new(&ks, 0, 0), BVHNode::Empty));
    assert!(BVHNode::new(&ks, 1, 1).leaf_indices().is_empty());
}

#[test]
fn one_primitive_is_a_leaf() {
    let ks = keys(&[(5, 5, 5), (1, 2, 3)]);
    assert!(matches!(BVHNode::new(&ks, 1, 2), BVHNode::Leaf(1)));
}

#[test]
fn two_primitives_are_a_pair_in_order() {
    let ks = keys(&[(9, 9, 9), (1, 1, 1), (0, 0, 0)]);
    assert!(matches!(BVHNode::new(&ks, 0, 2), BVHNode::Pair(0, 1)));
}

#[test]
fn larger_scene_holds_every_primitive_once() {
    let ks = keys(&[
        (7, 1, 4),
        (3, 9, 2),
        (5, 5, 5),
        (0, 8, 1),
        (9, 0, 7),
        (2, 2, 9),
        (6, 3, 0),
        (1, 7, 6),
        (8, 4, 3),
    ]);
    for _ in 0..20 {
        let t = BVHNode::new(&ks, 0, ks.len());
        assert!(matches!(t, BVHNode::Split { .. }));
        let mut leaves = t.leaf_indices();
        leaves.sort();
        assert_eq!(leaves, (0..ks.len()).collect::<Vec<_>>());
        check_splits(&t, &ks);
    }
}

#[test]
fn sub_span_uses_only_its_primitives() {
    let ks = keys(&[(4, 4, 4), (3, 3, 3), (2, 2, 2), (1, 1, 1), (0, 0, 0)]);
    let t = BVHNode::new(&ks, 1, 5);
    let mut leaves = t.leaf_indices();
    leaves.sort();
    assert_eq!(leaves, vec![1, 2, 3, 4]);
    // With all axes agreeing, every split puts the smaller keys left.
    if let BVHNode::Split { left, right, .. } = &t {
        let mut l = left.leaf_indices();
        l.sort();
        let mut r = right.leaf_indices();
        r.sort();
        assert_eq!(l, vec![3, 4]);
        assert_eq!(r, vec![1, 2]);
    } else {
        panic!("four primitives must split");
    }
}

#[test]
fn equal_keys_still_split_at_the_middle() {
    let ks = keys(&[(1, 1, 1); 7]);
    let t = BVHNode::new(&ks, 0, 7);
    if let BVHNode::Split { left, right, .. } = &t {
        assert_eq!(left.leaf_indices().len(), 3);
        assert_eq!(right.leaf_indices().len(), 4);
    } else {
        panic!("seven primitives must split");
    }
    check_splits(&t, &ks);
}

#[test]
fn tree_search_finds_the_scan_distance() {
    let mut seed: u64 = 0x2545_f491_4f6c_dd1d;
    let mut next = move || {
        seed = seed.wrapping_mul(6364136223846793005).wrapping_add(1442695040888963407);
        seed >> 33
    };
    for round in 0..200 {
        let n = (round % 13) as usize;
        let ks: Vec<BoxKeys> = (0..n).map(|_| BoxKeys { x: next() % 50, y: next() % 50, z: next() % 50 }).collect();
        let hits: Vec<Option<u64>> = (0..n).map(|_| if next() % 3 == 0 { None } else { Some(next() % 40) }).collect();
        let t = BVHNode::new(&ks, 0, n);
        for bound in [u64::MAX, 20, 5, 0] {
            let by_tree = t.search(&hits, bound);
            let by_scan = graphics_lib::bvh::scan_search(&hits, bound);
            assert_eq!(by_tree.map(|h| h.0), by_scan.map(|h| h.0));
            let best = hits.iter().flatten().filter(|&&d| d <= bound).min().copied();
            assert_eq!(by_scan.map(|h| h.0), best);
            if let Some((d, i)) = by_tree {
                assert_eq!(hits[i], Some(d));
            }
        }
    }
}

#[test]
fn search_prefers_the_second_child_on_equal_distances() {
    let ks = vec![BoxKeys { x: 0, y: 0, z: 0 }, BoxKeys { x: 1, y: 1, z: 1 }];
    let t = BVHNode::new(&ks, 0, 2);
    assert_eq!(t.search(&vec![Some(3), Some(3)], u64::MAX), Some((3, 1)));
    assert_eq!(t.search(&vec![Some(3), Some(4)], u64::MAX), Some((3, 0)));
    assert_eq!(t.search(&vec![None, None], u64::MAX), None);
    assert_eq!(t.search(&vec![Some(9), None], 8), None);
}
