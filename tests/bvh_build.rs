use pathtracer::aabb::{Point3, AABB};
use pathtracer::bvh::{construct_bvh_aac, make_partition, Node, BVH};
use pathtracer::morton::{get_bit, morton_code};
use pathtracer::ray::{dist_le, dist_lt, ray_box_collide, Dist, Ray};

fn ccrf(x: usize) -> usize {
    let c = (10f64).powf(0.5 - 0.01) / 2.0;
    let r = (c * (x as f64).powf(0.5 - 0.01)).ceil() as usize;
    if r == 0 { 1 } else { r }
}

fn cube(x: i32, y: i32, z: i32, s: i32) -> AABB {
    AABB::new(Point3::new(x, y, z), Point3::new(x + s, y + s, z + s))
}

// Small deterministic generator so the scenes are reproducible.
struct Lcg(u64);

impl Lcg {
    fn next(&mut self) -> u64 {
        self.0 = self.0.wrapping_mul(6364136223846793005).wrapping_add(1442695040888963407);
        self.0 >> 33
    }

    fn range(&mut self, lo: i32, hi: i32) -> i32 {
        lo + (self.next() % ((hi - lo) as u64)) as i32
    }
}

fn random_boxes(rng: &mut Lcg, n: usize) -> Vec<AABB> {
    (0..n)
        .map(|_| {
            let x = rng.range(-1000, 1000);
            let y = rng.range(-1000, 1000);
            let z = rng.range(-1000, 1000);
            let s = rng.range(1, 60);
            cube(x, y, z, s)
        })
        .collect()
}

fn collect_leaves(n: &Node, out: &mut Vec<(usize, AABB)>) {
    match n {
        Node::Leaf(l) => out.push((l.obj, l.aabb)),
        Node::Cluster(c) => {
            collect_leaves(&c.left, out);
            collect_leaves(&c.right, out);
        }
    }
}

fn check_clusters(n: &Node) {
    if let Node::Cluster(c) = n {
        assert_eq!(c.aabb, c.left.aabb().combine(c.right.aabb()));
        check_clusters(&c.left);
        check_clusters(&c.right);
    }
}

fn build(boxes: &[AABB]) -> BVH<usize> {
    let items: Vec<(AABB, usize)> = boxes.iter().enumerate().map(|(i, b)| (*b, i)).collect();
    construct_bvh_aac(items, &ccrf)
}

#[test]
fn combine_takes_componentwise_extremes() {
    let a = AABB::new(Point3::new(0, 5, -3), Point3::new(2, 9, 4));
    let b = AABB::new(Point3::new(-1, 6, -7), Point3::new(1, 12, 2));
    let c = a.combine(&b);
    assert_eq!(c.min(), Point3::new(-1, 5, -7));
    assert_eq!(c.max(), Point3::new(2, 12, 4));
    assert!(c.encloses(&a) && c.encloses(&b));
    assert!(c.surface_area() >= a.surface_area());
    assert!(c.surface_area() >= b.surface_area());
}

#[test]
fn surface_area_of_box() {
    let a = AABB::new(Point3::new(0, 0, 0), Point3::new(1, 2, 3));
    assert_eq!(a.surface_area(), 22);
    let flat = AABB::new(Point3::new(0, 0, 0), Point3::new(4, 5, 0));
    assert_eq!(flat.surface_area(), 40);
}

#[test]
fn get_bit_counts_from_the_top() {
    let mc = morton_code(1, 1, 0, 1);
    assert_eq!(mc, 0b101u64 << 61);
    assert!(get_bit(mc, 0));
    assert!(!get_bit(mc, 1));
    assert!(get_bit(mc, 2));
    assert!(!get_bit(mc, 3));
}

#[test]
fn partition_splits_where_the_bit_turns() {
    let codes: Vec<(u64, usize)> = vec![(0, 0), (1u64 << 62, 1), (1u64 << 63, 2), (3u64 << 62, 3)];
    let (lhs, rhs) = make_partition(codes.clone(), 0);
    assert_eq!(lhs, vec![(0, 0), (1u64 << 62, 1)]);
    assert_eq!(rhs, vec![(1u64 << 63, 2), (3u64 << 62, 3)]);
    let (lhs, rhs) = make_partition(vec![(1u64 << 63, 0)], 0);
    assert!(lhs.is_empty());
    assert_eq!(rhs.len(), 1);
    let (lhs, rhs) = make_partition(vec![(0, 0), (1, 1)], 0);
    assert_eq!(lhs.len(), 2);
    assert!(rhs.is_empty());
}

#[test]
fn bvh_leaves_cover_every_item_once() {
    let mut rng = Lcg(7);
    for &n in &[1usize, 2, 9, 10, 11, 57, 300] {
        let boxes = random_boxes(&mut rng, n);
        let bvh = build(&boxes);
        let mut leaves = Vec::new();
        collect_leaves(&bvh.root, &mut leaves);
        assert_eq!(leaves.len(), n);
        let mut seen = vec![false; n];
        for (i, b) in leaves {
            assert!(!seen[i]);
            seen[i] = true;
            assert_eq!(b, boxes[i]);
            assert!(bvh.root.aabb().encloses(&b));
        }
        assert_eq!(bvh.len(), n);
        assert_eq!(*bvh.item(n - 1), n - 1);
    }
}

#[test]
fn bvh_cluster_boxes_are_exact() {
    let mut rng = Lcg(11);
    let boxes = random_boxes(&mut rng, 200);
    let bvh = build(&boxes);
    check_clusters(&bvh.root);
}

/// Where the ray enters a box ahead of its origin, taken as the payload's hit.
fn forward_hit(ray: &Ray, b: &AABB) -> Option<Dist> {
    ray_box_collide(ray, b, None).filter(|t| t.num >= 0)
}

fn nearest_brute_force(boxes: &[AABB], ray: &Ray) -> Option<Dist> {
    let mut best: Option<Dist> = None;
    for b in boxes {
        if let Some(t) = forward_hit(ray, b) {
            best = match best {
                Some(d) if dist_le(d, t) => Some(d),
                _ => Some(t),
            };
        }
    }
    best
}

#[test]
fn traversal_matches_brute_force() {
    let mut rng = Lcg(3);
    for scene in 0..20 {
        let boxes = random_boxes(&mut rng, 20 + scene * 15);
        let bvh = build(&boxes);
        for _ in 0..50 {
            let origin = Point3::new(rng.range(-1500, 1500), rng.range(-1500, 1500), rng.range(-1500, 1500));
            let mut direction = Point3::new(rng.range(-100, 100), rng.range(-100, 100), rng.range(-100, 100));
            if direction == Point3::new(0, 0, 0) {
                direction = Point3::new(1, 0, 0);
            }
            let ray = Ray::new(origin, direction);
            let hit = |i: usize| forward_hit(&ray, &boxes[i]);
            let found = bvh.find_intersection(&ray, &hit);
            let expected = nearest_brute_force(&boxes, &ray);
            match (found, expected) {
                (None, None) => {}
                (Some((d, i)), Some(e)) => {
                    assert!(dist_le(d, e) && dist_le(e, d));
                    assert_eq!(hit(i), Some(d));
                }
                _ => panic!("traversal and brute force disagree"),
            }
        }
    }
}

#[test]
fn ray_missing_every_box_finds_nothing() {
    let boxes = vec![cube(0, 0, 0, 10), cube(20, 0, 0, 10), cube(40, 5, 5, 3)];
    let bvh = build(&boxes);
    // Parallel to x, above every box.
    let ray = Ray::new(Point3::new(-100, 50, 5), Point3::new(1, 0, 0));
    let hit = |i: usize| forward_hit(&ray, &boxes[i]);
    assert!(bvh.find_intersection(&ray, &hit).is_none());
    // Pointing away from every box: the line meets them, the ray does not.
    let away = Ray::new(Point3::new(100, 5, 5), Point3::new(1, 0, 0));
    let hit_away = |i: usize| forward_hit(&away, &boxes[i]);
    assert!(bvh.find_intersection(&away, &hit_away).is_none());
}

#[test]
fn nearest_of_boxes_in_a_row() {
    let boxes = vec![cube(40, 0, 0, 10), cube(0, 0, 0, 10), cube(20, 0, 0, 10)];
    let bvh = build(&boxes);
    let ray = Ray::new(Point3::new(-10, 5, 5), Point3::new(2, 0, 0));
    let hit = |i: usize| forward_hit(&ray, &boxes[i]);
    let (d, i) = bvh.find_intersection(&ray, &hit).unwrap();
    assert_eq!(i, 1);
    // Enters the box at x = 0: ten units away, five steps of the direction.
    assert_eq!(d, Dist::new(10, 2));
    let back = Ray::new(Point3::new(100, 5, 5), Point3::new(-1, 0, 0));
    let hit_back = |i: usize| forward_hit(&back, &boxes[i]);
    let (d, i) = bvh.find_intersection(&back, &hit_back).unwrap();
    assert_eq!(i, 0);
    assert_eq!(d, Dist::new(50, 1));
}

#[test]
fn slab_test_respects_cutoff() {
    let b = cube(10, 10, 10, 10);
    let ray = Ray::new(Point3::new(0, 15, 15), Point3::new(1, 0, 0));
    assert_eq!(ray_box_collide(&ray, &b, None), Some(Dist::new(10, 1)));
    assert_eq!(ray_box_collide(&ray, &b, Some(Dist::new(11, 1))), Some(Dist::new(10, 1)));
    assert_eq!(ray_box_collide(&ray, &b, Some(Dist::new(10, 1))), None);
    // A flat box is still hit.
    let flat = AABB::new(Point3::new(30, 0, 0), Point3::new(30, 20, 20));
    assert_eq!(ray_box_collide(&ray, &flat, None), Some(Dist::new(30, 1)));
    assert!(dist_lt(Dist::new(1, 3), Dist::new(1, 2)));
}
