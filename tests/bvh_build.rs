use raytracing_in_rust::bvh::{box_key, BVHNode};

fn leaves(node: &BVHNode, out: &mut Vec<usize>) {
    match node {
        BVHNode::Primitive { index } => out.push(*index),
        BVHNode::Split { left, right, .. } => {
            leaves(left, out);
            leaves(right, out);
        }
    }
}

fn key_on(key: (u64, u64, u64), axis: usize) -> u64 {
    match axis {
        0 => key.0,
        1 => key.1,
        _ => key.2,
    }
}

fn check_ordered(node: &BVHNode, keys: &Vec<(u64, u64, u64)>) {
    if let BVHNode::Split { axis, left, right } = node {
        assert!(*axis < 3);
        let mut l = Vec::new();
        let mut r = Vec::new();
        leaves(left, &mut l);
        leaves(right, &mut r);
        for p in &l {
            for q in &r {
                assert!(key_on(keys[*p], *axis) <= key_on(keys[*q], *axis));
            }
        }
        check_ordered(left, keys);
        check_ordered(right, keys);
    }
}

fn scattered_keys(n: usize) -> Vec<(u64, u64, u64)> {
    (0..n as u64)
        .map(|i| ((i * 7919) % 101, (i * 104729) % 37, (n as u64 - i) * 3))
        .collect()
}

#[test]
fn single_primitive_aliases_both_children() {
    let keys = vec![(5, 5, 5)];
    let mut prims = vec![0];
    let tree = BVHNode::new(&mut prims, &keys);
    match tree {
        BVHNode::Split { left, right, .. } => {
            assert!(matches!(*left, BVHNode::Primitive { index: 0 }));
            assert!(matches!(*right, BVHNode::Primitive { index: 0 }));
        }
        BVHNode::Primitive { .. } => panic!("the root is a split"),
    }
    assert_eq!(prims, vec![0]);
}

#[test]
fn two_primitives_are_direct_children() {
    let keys = vec![(9, 9, 9), (1, 1, 1)];
    let mut prims = vec![0, 1];
    let tree = BVHNode::new(&mut prims, &keys);
    match tree {
        BVHNode::Split { left, right, .. } => {
            // sorted on every axis alike: the smaller key comes first
            assert!(matches!(*left, BVHNode::Primitive { index: 1 }));
            assert!(matches!(*right, BVHNode::Primitive { index: 0 }));
        }
        BVHNode::Primitive { .. } => panic!("the root is a split"),
    }
    assert_eq!(prims, vec![1, 0]);
}

#[test]
fn every_primitive_is_reached_once() {
    for n in 3..40usize {
        let keys = scattered_keys(n);
        let mut prims: Vec<usize> = (0..n).collect();
        let tree = BVHNode::new(&mut prims, &keys);
        let mut l = Vec::new();
        leaves(&tree, &mut l);
        let mut seen = vec![0usize; n];
        for p in &l {
            seen[*p] += 1;
        }
        // a run of one below the root shows its primitive twice; no primitive is lost
        assert!(seen.iter().all(|c| *c >= 1 && *c <= 2));
        let mut sorted = prims.clone();
        sorted.sort();
        assert_eq!(sorted, (0..n).collect::<Vec<usize>>());
    }
}

#[test]
fn splits_separate_by_key() {
    for n in 1..30usize {
        let keys = scattered_keys(n);
        let mut prims: Vec<usize> = (0..n).rev().collect();
        let tree = BVHNode::new(&mut prims, &keys);
        check_ordered(&tree, &keys);
    }
}

#[test]
fn equal_keys_are_accepted() {
    let keys = vec![(4, 4, 4); 6];
    let mut prims: Vec<usize> = (0..6).collect();
    let tree = BVHNode::new(&mut prims, &keys);
    let mut l = Vec::new();
    leaves(&tree, &mut l);
    l.sort();
    // six split into two runs of three, each into a single (shown twice) and a pair
    assert_eq!(l.len(), 8);
    l.dedup();
    assert_eq!(l, vec![0, 1, 2, 3, 4, 5]);
}

#[test]
fn three_primitives_split_one_and_two() {
    let keys = vec![(3, 3, 3), (1, 1, 1), (2, 2, 2)];
    let mut prims = vec![0, 1, 2];
    let tree = BVHNode::new(&mut prims, &keys);
    assert_eq!(prims, vec![1, 2, 0]);
    let mut l = Vec::new();
    leaves(&tree, &mut l);
    assert_eq!(l, vec![1, 1, 2, 0]);
}

#[test]
fn box_keys_follow_the_order_of_doubles() {
    assert_eq!(box_key(0.0f64.to_bits()), 1u64 << 63);
    assert_eq!(box_key((-0.0f64).to_bits()), (1u64 << 63) - 1);
    let xs = [
        f64::NEG_INFINITY,
        -1e300,
        -2.5,
        -1.0,
        -1e-300,
        -0.0,
        0.0,
        1e-300,
        1.0,
        2.5,
        1e300,
        f64::INFINITY,
    ];
    for w in xs.windows(2) {
        assert!(box_key(w[0].to_bits()) < box_key(w[1].to_bits()));
    }
}

fn tree_nearest(node: &BVHNode, dist: &dyn Fn(usize) -> Option<i64>) -> Option<i64> {
    match node {
        BVHNode::Primitive { index } => dist(*index),
        BVHNode::Split { left, right, .. } => {
            match (tree_nearest(left, dist), tree_nearest(right, dist)) {
                (Some(a), Some(b)) => Some(if b < a { b } else { a }),
                (a, None) => a,
                (None, b) => b,
            }
        }
    }
}

#[test]
fn nearest_hit_matches_linear_scan() {
    for n in 1..25usize {
        let keys = scattered_keys(n);
        let mut prims: Vec<usize> = (0..n).collect();
        let tree = BVHNode::new(&mut prims, &keys);
        for shift in 0..5i64 {
            let dist = move |p: usize| {
                let v = (p as i64 * 37 + shift * 11) % 23;
                if v % 3 == 0 {
                    None
                } else {
                    Some(v)
                }
            };
            let scan = (0..n).filter_map(dist).min();
            assert_eq!(tree_nearest(&tree, &dist), scan);
        }
    }
}
