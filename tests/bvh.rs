use rand::rngs::StdRng;
use rand::SeedableRng;
use rtc::aabb::AABB;
use rtc::bvh::{Bvh, Child};
use rtc::traversal::{BvhWalk, ListScan, Probe};

fn leaves_of(tree: &Bvh, c: Child, out: &mut Vec<usize>) {
    match c {
        Child::Leaf(l) => out.push(l),
        Child::Node(i) => {
            let node = tree.nodes[i];
            leaves_of(tree, node.left, out);
            leaves_of(tree, node.right, out);
        }
    }
}

fn sample_keys(n: usize) -> Vec<[u64; 3]> {
    (0..n)
        .map(|i| {
            let i = i as u64;
            [(i * 37) % 101, (i * 53) % 97, (i * 11) % 89]
        })
        .collect()
}

fn bounds_for(keys: &[[u64; 3]]) -> Vec<AABB> {
    keys.iter()
        .map(|k| AABB::new(*k, [k[0] + 10, k[1] + 3 * (k[0] % 4), k[2] + 7]))
        .collect()
}

fn build(keys: &[[u64; 3]], seed: u64) -> Bvh {
    Bvh::new(&keys.to_vec(), &bounds_for(keys), &mut StdRng::seed_from_u64(seed))
}

fn covered(tree: &Bvh) -> Vec<usize> {
    let mut out = Vec::new();
    leaves_of(tree, Child::Node(tree.root), &mut out);
    out.sort();
    out.dedup();
    out
}

#[test]
fn single_primitive_sits_on_both_sides() {
    let tree = build(&[[5, 6, 7]], 1);
    assert_eq!(tree.nodes.len(), 1);
    let root = tree.nodes[tree.root];
    assert_eq!(root.left, Child::Leaf(0));
    assert_eq!(root.right, Child::Leaf(0));
}

#[test]
fn two_primitives_are_ordered_along_the_axis() {
    for seed in 0..20 {
        let tree = build(&[[9, 9, 9], [1, 1, 1]], seed);
        let root = tree.nodes[tree.root];
        assert_eq!(root.left, Child::Leaf(1));
        assert_eq!(root.right, Child::Leaf(0));
    }
}

#[test]
fn two_primitives_with_equal_keys_swap() {
    let tree = build(&[[4, 4, 4], [4, 4, 4]], 3);
    let root = tree.nodes[tree.root];
    assert_eq!(root.left, Child::Leaf(1));
    assert_eq!(root.right, Child::Leaf(0));
}

#[test]
fn many_primitives_are_all_covered_and_split_in_order() {
    let keys = sample_keys(50);
    let tree = build(&keys, 42);
    assert_eq!(covered(&tree), (0..50).collect::<Vec<_>>());
    for node in &tree.nodes {
        let mut l = Vec::new();
        let mut r = Vec::new();
        leaves_of(&tree, node.left, &mut l);
        leaves_of(&tree, node.right, &mut r);
        let max_left = l.iter().map(|&a| keys[a][node.axis]).max().unwrap();
        let min_right = r.iter().map(|&b| keys[b][node.axis]).min().unwrap();
        assert!(max_left <= min_right);
        assert!(node.axis < 3);
    }
}

#[test]
fn three_primitives_split_one_and_two() {
    let keys = vec![[3, 3, 3], [1, 1, 1], [2, 2, 2]];
    let tree = build(&keys, 9);
    let root = tree.nodes[tree.root];
    let mut l = Vec::new();
    let mut r = Vec::new();
    leaves_of(&tree, root.left, &mut l);
    leaves_of(&tree, root.right, &mut r);
    l.dedup();
    assert_eq!(l, vec![1]);
    assert_eq!(r, vec![2, 0]);
}

#[test]
fn same_seed_builds_the_same_tree() {
    let keys = sample_keys(40);
    let a = build(&keys, 7);
    let b = build(&keys, 7);
    assert_eq!(a.root, b.root);
    assert_eq!(a.nodes, b.nodes);
}

fn nearest_below(tree: &Bvh, c: Child, first: &[Option<u64>], bound: u64) -> Option<u64> {
    match c {
        Child::Leaf(l) => first[l].filter(|&t| t <= bound),
        Child::Node(i) => {
            let node = tree.nodes[i];
            let a = nearest_below(tree, node.left, first, bound);
            let b = nearest_below(tree, node.right, first, bound);
            match (a, b) {
                (Some(x), Some(y)) => Some(x.min(y)),
                (x, None) => x,
                (None, y) => y,
            }
        }
    }
}

fn walk(tree: &Bvh, first: &[Option<u64>], limit: u64, loose_boxes: bool) -> (Option<u64>, usize) {
    let mut w = BvhWalk::new(tree, limit);
    let mut tests = 0;
    loop {
        let bound = w.nearest.unwrap_or(limit);
        match w.probe() {
            Probe::Bounds(i) => {
                let hit = loose_boxes || nearest_below(tree, Child::Node(i), first, bound).is_some();
                w.record_bounds(tree, hit);
            }
            Probe::Primitive(l) => {
                tests += 1;
                w.record_primitive(tree, first[l].filter(|&t| t <= bound));
            }
            Probe::Finished => return (w.nearest, tests),
        }
    }
}

fn scan(first: &[Option<u64>], limit: u64) -> Option<u64> {
    let mut s = ListScan::new(limit);
    for hit in first {
        let far = s.far();
        s.record(hit.filter(|&t| t <= far));
    }
    s.nearest
}

#[test]
fn walk_over_one_primitive_matches_scan() {
    let tree = build(&[[0, 0, 0]], 5);
    for first in [vec![Some(10)], vec![None], vec![Some(500)]] {
        assert_eq!(walk(&tree, &first, 100, false).0, scan(&first, 100));
        assert_eq!(walk(&tree, &first, 100, true).0, scan(&first, 100));
    }
}

#[test]
fn walk_over_two_primitives_matches_scan() {
    let tree = build(&[[5, 5, 5], [2, 2, 2]], 5);
    let first = vec![Some(30), Some(20)];
    assert_eq!(walk(&tree, &first, 100, false).0, Some(20));
    assert_eq!(scan(&first, 100), Some(20));
}

#[test]
fn walk_over_many_primitives_matches_scan() {
    let keys = sample_keys(64);
    let tree = build(&keys, 11);
    let first: Vec<Option<u64>> = (0..64u64)
        .map(|i| if i % 3 == 0 { None } else { Some((i * 7919) % 1000 + 5) })
        .collect();
    for limit in [0, 6, 100, 500, 2000] {
        let expected = scan(&first, limit);
        assert_eq!(walk(&tree, &first, limit, false).0, expected);
        assert_eq!(walk(&tree, &first, limit, true).0, expected);
    }
}

#[test]
fn walk_skips_primitives_under_missed_boxes() {
    let keys = sample_keys(64);
    let tree = build(&keys, 11);
    let mut first = vec![None; 64];
    first[17] = Some(40);
    let (nearest, tests) = walk(&tree, &first, 1000, false);
    assert_eq!(nearest, Some(40));
    assert!(tests < 64);
}

#[test]
fn walk_with_no_hits_finds_nothing() {
    let tree = build(&sample_keys(10), 2);
    let first = vec![None; 10];
    assert_eq!(walk(&tree, &first, 1000, true).0, None);
}

#[test]
fn list_scan_keeps_the_nearest_within_the_limit() {
    let mut s = ListScan::new(100);
    assert!(!s.record(None));
    assert!(s.record(Some(60)));
    assert_eq!(s.far(), 60);
    assert!(!s.record(Some(70)));
    assert!(s.record(Some(60)));
    assert!(s.record(Some(20)));
    assert!(!s.record(Some(500)));
    assert_eq!(s.nearest, Some(20));
    let mut empty = ListScan::new(10);
    assert!(!empty.record(Some(11)));
    assert_eq!(empty.nearest, None);
}

#[test]
fn node_boxes_enclose_their_primitives() {
    let keys = sample_keys(30);
    let bounds = bounds_for(&keys);
    let tree = build(&keys, 17);
    assert_eq!(tree.boxes.len(), tree.nodes.len());
    for (i, b) in tree.boxes.iter().enumerate() {
        let mut below = Vec::new();
        leaves_of(&tree, Child::Node(i), &mut below);
        for a in 0..3 {
            assert_eq!(b.minimum[a], below.iter().map(|&l| bounds[l].minimum[a]).min().unwrap());
            assert_eq!(b.maximum[a], below.iter().map(|&l| bounds[l].maximum[a]).max().unwrap());
        }
    }
}
