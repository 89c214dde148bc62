use pathtracer::bvh::nearest_hit;
use pathtracer::{BvhError, Child, Hit, Point3, AABB, BVH};

/// A small linear congruential generator, so the scenes are the same on
/// every run.
struct Lcg(u64);

impl Lcg {
    fn next(&mut self) -> u64 {
        self.0 = self.0.wrapping_mul(6364136223846793005).wrapping_add(1442695040888963407);
        self.0 >> 33
    }

    fn range(&mut self, lo: i64, hi: i64) -> i64 {
        lo + (self.next() % ((hi - lo) as u64)) as i64
    }
}

fn random_box(rng: &mut Lcg) -> AABB {
    let x = rng.range(-50, 50);
    let y = rng.range(-50, 50);
    let z = rng.range(-50, 50);
    AABB {
        min: Point3 { x, y, z },
        max: Point3 { x: x + rng.range(0, 15), y: y + rng.range(0, 15), z: z + rng.range(0, 15) },
    }
}

/// A ray parallel to the z axis through `(x, y)`, travelling towards +z from
/// z = 0: it meets a box that spans its x and y where the box's near face
/// lies in front of it.
#[derive(Clone, Copy)]
struct ZRay {
    x: i64,
    y: i64,
}

impl ZRay {
    fn passes(&self, bb: &AABB) -> bool {
        bb.min.x <= self.x && self.x <= bb.max.x && bb.min.y <= self.y && self.y <= bb.max.y
            && bb.max.z > 0
    }

    fn hit(&self, bb: &AABB) -> Option<i64> {
        if self.passes(bb) && bb.min.z > 0 {
            Some(bb.min.z)
        } else {
            None
        }
    }
}

fn check_scene(seed: u64, n: usize, rays: usize) {
    let mut rng = Lcg(seed);
    let boxes: Vec<AABB> = (0..n).map(|_| random_box(&mut rng)).collect();
    let bvh = BVH::from_vec(boxes.clone()).unwrap();
    assert_eq!(bvh.len(), n);
    for _ in 0..rays {
        let ray = ZRay { x: rng.range(-55, 60), y: rng.range(-55, 60) };
        let prim_hit =
            |p: usize| ray.hit(&boxes[p]).map(|t| Hit { t, record: p });
        let box_hit = |bb: AABB| ray.passes(&bb);
        let tree = bvh.intersect(&box_hit, &prim_hit);
        let scan = nearest_hit(n, &prim_hit);
        assert_eq!(tree.as_ref().map(|h| h.t), scan.as_ref().map(|h| h.t));
        if let Some(h) = tree {
            assert_eq!(ray.hit(&boxes[h.record]), Some(h.t));
        }
    }
}

#[test]
fn bvh_agrees_with_linear_scan_on_one_primitive() {
    check_scene(1, 1, 200);
}

#[test]
fn bvh_agrees_with_linear_scan_on_two_primitives() {
    check_scene(2, 2, 200);
}

#[test]
fn bvh_agrees_with_linear_scan_on_small_scenes() {
    for n in 3..40 {
        check_scene(100 + n as u64, n, 50);
    }
}

#[test]
fn bvh_agrees_with_linear_scan_on_hundreds_of_primitives() {
    check_scene(7, 300, 300);
    check_scene(8, 500, 200);
}

#[test]
fn bvh_from_empty_list_fails() {
    assert!(matches!(BVH::from_vec(Vec::new()), Err(BvhError::Empty)));
}

#[test]
fn bvh_bounding_box_holds_every_primitive() {
    let mut rng = Lcg(42);
    let boxes: Vec<AABB> = (0..64).map(|_| random_box(&mut rng)).collect();
    let bvh = BVH::from_vec(boxes.clone()).unwrap();
    let root = bvh.bounding_box();
    let mut expected = boxes[0];
    for bb in &boxes {
        assert!(root.contains(bb));
        expected = AABB::surrounding(expected, *bb);
    }
    assert_eq!(root, expected);
}

#[test]
fn bvh_single_primitive_box_is_its_box() {
    let bb = AABB { min: Point3 { x: 1, y: 2, z: 3 }, max: Point3 { x: 4, y: 5, z: 6 } };
    let bvh = BVH::from_vec(vec![bb]).unwrap();
    assert_eq!(bvh.bounding_box(), bb);
}

#[test]
fn bvh_miss_everything_gives_none() {
    let mut rng = Lcg(5);
    let boxes: Vec<AABB> = (0..20).map(|_| random_box(&mut rng)).collect();
    let bvh = BVH::from_vec(boxes.clone()).unwrap();
    let ray = ZRay { x: 1000, y: 1000 };
    let prim_hit = |p: usize| ray.hit(&boxes[p]).map(|t| Hit { t, record: p });
    let box_hit = |bb: AABB| ray.passes(&bb);
    assert!(bvh.intersect(&box_hit, &prim_hit).is_none());
    assert!(nearest_hit(boxes.len(), &prim_hit).is_none());
}

#[test]
fn nearest_hit_picks_the_smallest_t() {
    let ts = [Some(9), None, Some(4), Some(6), None];
    let prim_hit = |p: usize| ts[p].map(|t| Hit { t, record: p });
    let r = nearest_hit(ts.len(), &prim_hit).unwrap();
    assert_eq!(r.t, 4);
    assert_eq!(r.record, 2);
}

#[test]
fn sort_by_axis_orders_by_the_low_corner() {
    let at = |x: i64, y: i64, z: i64| AABB {
        min: Point3 { x, y, z },
        max: Point3 { x: x + 1, y: y + 1, z: z + 1 },
    };
    let boxes = vec![at(5, 0, 2), at(-3, 9, 1), at(2, 4, 7), at(2, -8, 0)];
    let on_x = pathtracer::bvh::sort_by_axis(&boxes, vec![0, 1, 2, 3], 0);
    assert_eq!(on_x[0], 1);
    assert_eq!(on_x[3], 0);
    assert_eq!(on_x.len(), 4);
    let on_y = pathtracer::bvh::sort_by_axis(&boxes, vec![0, 1, 2, 3], 1);
    assert_eq!(on_y, vec![3, 0, 2, 1]);
    let on_z = pathtracer::bvh::sort_by_axis(&boxes, vec![2, 0, 3], 2);
    assert_eq!(on_z, vec![3, 0, 2]);
}

/// Walks the subtree of node `i`: checks each node against the construction
/// rule and returns its primitives and its depth in splits.
fn walk(bvh: &BVH, i: usize) -> (Vec<usize>, u32) {
    let node = bvh.nodes[i];
    match (node.left, node.right) {
        (Child::Primitive(p), None) => (vec![p], 0),
        (Child::Primitive(p), Some(Child::Primitive(q))) => {
            let (a, b) = (bvh.boxes[p], bvh.boxes[q]);
            assert!((0..3).any(|k| a.min.get(k) <= b.min.get(k)));
            (vec![p, q], 1)
        }
        (Child::Node(j), Some(Child::Node(k))) => {
            assert!(j < i && k < i);
            let (mut lo, dl) = walk(bvh, j);
            let (hi, dr) = walk(bvh, k);
            let n = lo.len() + hi.len();
            assert!(n > 2);
            assert_eq!(lo.len(), n / 2);
            let split = (0..3).any(|a| {
                lo.iter().all(|&x| hi.iter().all(|&y| {
                    bvh.boxes[x].min.get(a) <= bvh.boxes[y].min.get(a)
                }))
            });
            assert!(split);
            lo.extend(hi);
            (lo, 1 + dl.max(dr))
        }
        _ => panic!("a node of an unexpected shape"),
    }
}

#[test]
fn bvh_tree_has_each_primitive_once_and_is_balanced() {
    for n in 1..70usize {
        let mut rng = Lcg(900 + n as u64);
        let boxes: Vec<AABB> = (0..n).map(|_| random_box(&mut rng)).collect();
        let bvh = BVH::from_vec(boxes).unwrap();
        let (mut prims, depth) = walk(&bvh, bvh.nodes.len() - 1);
        prims.sort();
        assert_eq!(prims, (0..n).collect::<Vec<usize>>());
        // at most the ceiling of log2(n) splits
        assert!((1usize << depth) < 2 * n);
    }
}
