use raytracer::bvh::{Aabb, BVHNode, BuildError, GridPoint, COORD_LIMIT};

fn gp(x: i64, y: i64, z: i64) -> GridPoint {
    GridPoint { x, y, z }
}

fn sphere_box(cx: i64, cy: i64, cz: i64, r: i64) -> Aabb {
    Aabb { min: gp(cx - r, cy - r, cz - r), max: gp(cx + r, cy + r, cz + r) }
}

fn leaves(node: &BVHNode, out: &mut Vec<Vec<usize>>) {
    match node {
        BVHNode::Leaf { objects, .. } => out.push(objects.clone()),
        BVHNode::Split { left, right, .. } => {
            leaves(left, out);
            leaves(right, out);
        }
    }
}

fn contains(outer: &Aabb, inner: &Aabb) -> bool {
    outer.min.x <= inner.min.x
        && outer.min.y <= inner.min.y
        && outer.min.z <= inner.min.z
        && inner.max.x <= outer.max.x
        && inner.max.y <= outer.max.y
        && inner.max.z <= outer.max.z
}

fn check_containing(node: &BVHNode, boxes: &[Aabb]) {
    match node {
        BVHNode::Leaf { bounds, objects } => {
            for &o in objects {
                assert!(contains(bounds, &boxes[o]));
            }
        }
        BVHNode::Split { bounds, left, right } => {
            assert!(contains(bounds, &left.bounds()));
            assert!(contains(bounds, &right.bounds()));
            check_containing(left, boxes);
            check_containing(right, boxes);
        }
    }
}

fn lcg(state: &mut u64) -> i64 {
    *state = state.wrapping_mul(6364136223846793005).wrapping_add(1442695040888963407);
    ((*state >> 33) % 2000) as i64 - 1000
}

fn random_scene(n: usize, seed: u64) -> Vec<Aabb> {
    let mut s = seed;
    (0..n)
        .map(|_| {
            let (x, y, z) = (lcg(&mut s), lcg(&mut s), lcg(&mut s));
            let r = lcg(&mut s).abs() % 50 + 1;
            sphere_box(x, y, z, r)
        })
        .collect()
}

fn union(boxes: &[Aabb], ids: &[usize]) -> Aabb {
    let mut b = boxes[ids[0]];
    for &i in &ids[1..] {
        b = b.join(&boxes[i]);
    }
    b
}

fn area(b: &Aabb) -> u128 {
    let dx = (b.max.x - b.min.x) as u128;
    let dy = (b.max.y - b.min.y) as u128;
    let dz = (b.max.z - b.min.z) as u128;
    dx * dy + dx * dz + dy * dz
}

fn best_cost(boxes: &[Aabb], ids: &[usize]) -> u128 {
    let mut best = u128::MAX;
    for axis in 0..3 {
        let mut order = ids.to_vec();
        order.sort_by_key(|&i| (boxes[i].mid_key(axis), i));
        for at in 1..order.len() {
            let c = area(&union(boxes, &order[..at])) * at as u128
                + area(&union(boxes, &order[at..])) * (order.len() - at) as u128;
            best = best.min(c);
        }
    }
    best
}

#[test]
fn two_spheres_capacity_one() {
    let boxes = vec![sphere_box(-5, 0, 0, 1), sphere_box(5, 0, 0, 1)];
    let root = BVHNode::build(&boxes, 1).unwrap();
    match &root {
        BVHNode::Split { bounds, left, right } => {
            assert_eq!(*bounds, Aabb { min: gp(-6, -1, -1), max: gp(6, 1, 1) });
            match (&**left, &**right) {
                (BVHNode::Leaf { objects: l, bounds: lb }, BVHNode::Leaf { objects: r, bounds: rb }) => {
                    assert_eq!(l, &vec![0]);
                    assert_eq!(r, &vec![1]);
                    assert_eq!(*lb, boxes[0]);
                    assert_eq!(*rb, boxes[1]);
                }
                _ => panic!("children should be leaves"),
            }
        }
        BVHNode::Leaf { .. } => panic!("root should be split"),
    }
}

#[test]
fn empty_scene_is_refused() {
    let boxes: Vec<Aabb> = Vec::new();
    assert!(matches!(BVHNode::build(&boxes, 4), Err(BuildError::EmptyScene)));
}

#[test]
fn few_primitives_make_one_leaf() {
    let boxes = vec![sphere_box(0, 0, 0, 1), sphere_box(3, 0, 0, 1), sphere_box(0, 3, 0, 2)];
    let root = BVHNode::build(&boxes, 3).unwrap();
    match root {
        BVHNode::Leaf { objects, bounds } => {
            assert_eq!(objects, vec![0, 1, 2]);
            assert_eq!(bounds, Aabb { min: gp(-2, -1, -2), max: gp(4, 5, 2) });
        }
        _ => panic!("expected a leaf"),
    }
}

#[test]
fn cut_follows_the_cheapest_axis() {
    // four boxes in a column along y: the cut goes between the two pairs
    let boxes = vec![
        sphere_box(0, 0, 0, 1),
        sphere_box(0, 100, 0, 1),
        sphere_box(0, 2, 0, 1),
        sphere_box(0, 102, 0, 1),
    ];
    let root = BVHNode::build(&boxes, 2).unwrap();
    let mut out = Vec::new();
    leaves(&root, &mut out);
    assert_eq!(out, vec![vec![0, 2], vec![1, 3]]);
}

#[test]
fn random_scenes_partition_and_contain() {
    for (n, seed) in [(1usize, 1u64), (2, 2), (7, 3), (50, 4), (200, 5)] {
        let boxes = random_scene(n, seed);
        assert!(boxes.iter().all(|b| b.is_valid()));
        for cap in [1usize, 2, 5] {
            let root = BVHNode::build(&boxes, cap).unwrap();
            let mut out = Vec::new();
            leaves(&root, &mut out);
            let mut all: Vec<usize> = out.iter().flatten().copied().collect();
            assert!(out.iter().all(|l| !l.is_empty() && l.len() <= cap));
            all.sort();
            assert_eq!(all, (0..n).collect::<Vec<_>>());
            check_containing(&root, &boxes);
            let ids: Vec<usize> = (0..n).collect();
            assert_eq!(root.bounds(), union(&boxes, &ids));
        }
    }
}

#[test]
fn root_cut_has_least_cost() {
    let boxes = random_scene(40, 9);
    let root = BVHNode::build(&boxes, 4).unwrap();
    if let BVHNode::Split { left, right, .. } = &root {
        let mut l = Vec::new();
        leaves(left, &mut l);
        let mut r = Vec::new();
        leaves(right, &mut r);
        let l: Vec<usize> = l.into_iter().flatten().collect();
        let r: Vec<usize> = r.into_iter().flatten().collect();
        let cost = area(&union(&boxes, &l)) * l.len() as u128 + area(&union(&boxes, &r)) * r.len() as u128;
        let ids: Vec<usize> = (0..40).collect();
        assert_eq!(cost, best_cost(&boxes, &ids));
    } else {
        panic!("root should be split");
    }
}

#[test]
fn box_validity() {
    assert!(sphere_box(0, 0, 0, 1).is_valid());
    assert!(!Aabb { min: gp(1, 0, 0), max: gp(0, 1, 1) }.is_valid());
    assert!(!Aabb { min: gp(0, 0, 0), max: gp(0, 0, COORD_LIMIT + 1) }.is_valid());
    assert!(Aabb { min: gp(-COORD_LIMIT, 0, 0), max: gp(COORD_LIMIT, 0, 0) }.is_valid());
}

#[test]
fn join_is_smallest_holder() {
    let a = Aabb { min: gp(0, -3, 2), max: gp(1, 0, 5) };
    let b = Aabb { min: gp(-2, 1, 3), max: gp(0, 4, 4) };
    assert_eq!(a.join(&b), Aabb { min: gp(-2, -3, 2), max: gp(1, 4, 5) });
}

#[test]
fn candidates_follow_the_test() {
    let boxes = vec![sphere_box(-5, 0, 0, 1), sphere_box(5, 0, 0, 1), sphere_box(5, 10, 0, 1)];
    let root = BVHNode::build(&boxes, 1).unwrap();
    let all = root.candidates(&|_b: Aabb| true);
    let mut sorted = all.clone();
    sorted.sort();
    assert_eq!(sorted, vec![0, 1, 2]);
    assert!(root.candidates(&|_b: Aabb| false).is_empty());
    // boxes that hold the point (5, 0, 0)
    let at = |b: Aabb| b.min.x <= 5 && 5 <= b.max.x && b.min.y <= 0 && 0 <= b.max.y;
    assert_eq!(root.candidates(&at), vec![1]);
}

#[test]
fn largest_grid_boxes() {
    let l = COORD_LIMIT;
    let boxes = vec![
        Aabb { min: gp(-l, -l, -l), max: gp(l, l, l) },
        Aabb { min: gp(-l, -l, -l), max: gp(0, 0, 0) },
        Aabb { min: gp(0, 0, 0), max: gp(l, l, l) },
        Aabb { min: gp(-l, 0, -l), max: gp(l, l, 0) },
    ];
    let root = BVHNode::build(&boxes, 1).unwrap();
    assert_eq!(root.bounds(), boxes[0]);
    let mut out = Vec::new();
    leaves(&root, &mut out);
    let mut all: Vec<usize> = out.into_iter().flatten().collect();
    all.sort();
    assert_eq!(all, vec![0, 1, 2, 3]);
    check_containing(&root, &boxes);
}
