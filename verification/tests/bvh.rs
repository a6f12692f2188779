use psychopath::bbox::BBox;
use psychopath::boundable::{buildable, Boundable};
use psychopath::bvh::{BVHNode, BVH, BVH_MAX_DEPTH};
use psychopath::cuboid::{box_hit, ClosestHits, Cuboid};
use psychopath::lerp::{lerp_slice, TIME_ONE};
use psychopath::ray::{AccelRay, Ray, MAX_T_INFINITY};
use psychopath::scene::{ShaderChoice, SurfaceIntersection};
use psychopath::vector::Vector;

struct Lcg(u64);

impl Lcg {
    fn next(&mut self) -> u64 {
        self.0 = self.0.wrapping_mul(6364136223846793005).wrapping_add(1442695040888963407);
        self.0 >> 33
    }

    fn range(&mut self, lo: i32, hi: i32) -> i32 {
        lo + (self.next() % ((hi - lo) as u64)) as i32
    }
}

fn cube(id: u64, x: i32, y: i32, z: i32, half: i32) -> Cuboid {
    Cuboid {
        id,
        bounds: vec![BBox {
            min: Vector::new(x - half, y - half, z - half),
            max: Vector::new(x + half, y + half, z + half),
        }],
    }
}

fn random_cubes(seed: u64, count: usize) -> Vec<Cuboid> {
    random_cubes_up_to(seed, count, 40)
}

fn random_cubes_up_to(seed: u64, count: usize, size: i32) -> Vec<Cuboid> {
    let mut rng = Lcg(seed);
    let mut cubes = Vec::new();
    for i in 0..count {
        let half = rng.range(1, size);
        cubes.push(cube(
            i as u64,
            rng.range(-5000, 5000),
            rng.range(-5000, 5000),
            rng.range(-5000, 5000),
            half,
        ));
    }
    cubes
}

fn union_all(cubes: &[Cuboid]) -> BBox {
    let mut b = BBox::new();
    for c in cubes {
        b = b.union(&c.bounds[0]);
    }
    b
}

fn contains(outer: &BBox, inner: &BBox) -> bool {
    outer.min.x <= inner.min.x
        && outer.min.y <= inner.min.y
        && outer.min.z <= inner.min.z
        && inner.max.x <= outer.max.x
        && inner.max.y <= outer.max.y
        && inner.max.z <= outer.max.z
}

#[test]
fn empty_hierarchy_has_no_nodes() {
    let bvh = BVH::new_empty();
    assert_eq!(bvh.node_count(), 0);
    assert_eq!(bvh.tree_depth(), 0);
    assert_eq!(bvh.bounds().len(), 0);
    let mut none: Vec<Cuboid> = Vec::new();
    let built = BVH::from_objects(&mut none, 4).unwrap();
    assert_eq!(built.node_count(), 0);
    assert_eq!(built.tree_depth(), 0);
}

#[test]
fn single_object_becomes_one_leaf() {
    let mut cubes = vec![cube(7, 10, 20, 30, 5)];
    let bvh = BVH::from_objects(&mut cubes, 1).unwrap();
    assert_eq!(bvh.node_count(), 1);
    assert_eq!(bvh.tree_depth(), 0);
    match bvh.node(0) {
        BVHNode::Leaf { bounds_range, object_range } => {
            assert_eq!(object_range, (0, 1));
            assert_eq!(bounds_range, (0, 1));
        }
        BVHNode::Internal { .. } => panic!("a single object needs no split"),
    }
    assert_eq!(bvh.bounds()[0], cubes[0].bounds[0]);
}

#[test]
fn root_bounds_are_the_union_of_all_objects() {
    let mut cubes = random_cubes(1, 500);
    let expected = union_all(&cubes);
    let bvh = BVH::from_objects(&mut cubes, 4).unwrap();
    assert_eq!(bvh.bounds().len(), 1);
    assert_eq!(bvh.bounds()[0], expected);
    assert_eq!(bvh.bounds()[0], union_all(&cubes));
}

#[test]
fn build_keeps_every_object() {
    let mut cubes = random_cubes(2, 300);
    let bvh = BVH::from_objects(&mut cubes, 3).unwrap();
    assert!(bvh.node_count() > 0);
    let mut ids: Vec<u64> = cubes.iter().map(|c| c.id).collect();
    ids.sort();
    let expected: Vec<u64> = (0..300).collect();
    assert_eq!(ids, expected);
}

#[test]
fn node_bounds_hold_the_bounds_of_both_children() {
    let mut cubes = random_cubes(3, 400);
    let bvh = BVH::from_objects(&mut cubes, 2).unwrap();
    let mut internal = 0;
    for i in 0..bvh.node_count() {
        if let BVHNode::Internal { bounds_range, second_child_index, split_axis } = bvh.node(i) {
            internal += 1;
            assert!(split_axis < 3);
            assert!(second_child_index > i + 1);
            let own = bvh.bounds_slice(bounds_range);
            let left = bvh.bounds_slice(bvh.node(i + 1).bounds_range());
            let right = bvh.bounds_slice(bvh.node(second_child_index).bounds_range());
            assert_eq!(own.len(), left.len());
            assert_eq!(own.len(), right.len());
            for t in 0..own.len() {
                assert!(contains(&own[t], &left[t]));
                assert!(contains(&own[t], &right[t]));
                assert_eq!(own[t], left[t].union(&right[t]));
            }
        }
    }
    assert!(internal > 0);
}

#[test]
fn leaves_hold_runs_of_objects_and_their_bounds() {
    let mut cubes = random_cubes(4, 257);
    let bvh = BVH::from_objects(&mut cubes, 5).unwrap();
    let mut next = 0;
    for i in 0..bvh.node_count() {
        if let BVHNode::Leaf { bounds_range, object_range } = bvh.node(i) {
            assert_eq!(object_range.0, next);
            assert!(object_range.1 > object_range.0);
            assert!(object_range.1 - object_range.0 <= 5);
            next = object_range.1;
            let own = bvh.bounds_slice(bounds_range);
            assert_eq!(own[0], union_all(&cubes[object_range.0..object_range.1]));
        }
    }
    assert_eq!(next, cubes.len());
}

#[test]
fn tree_depth_stays_within_the_maximum() {
    let mut cubes = random_cubes(5, 1000);
    let bvh = BVH::from_objects(&mut cubes, 1).unwrap();
    assert!(bvh.tree_depth() <= BVH_MAX_DEPTH);
    assert!(bvh.tree_depth() >= 9);
}

#[test]
fn time_samples_are_merged_sample_by_sample() {
    let mut cubes = Vec::new();
    for i in 0..20 {
        let a = BBox { min: Vector::new(i * 10, 0, 0), max: Vector::new(i * 10 + 5, 5, 5) };
        let b = BBox { min: Vector::new(i * 10, 100, 0), max: Vector::new(i * 10 + 5, 105, 5) };
        cubes.push(Cuboid { id: i as u64, bounds: vec![a, b] });
    }
    let bvh = BVH::from_objects(&mut cubes, 2).unwrap();
    let root = bvh.bounds();
    assert_eq!(root.len(), 2);
    assert_eq!(root[0], BBox { min: Vector::new(0, 0, 0), max: Vector::new(195, 5, 5) });
    assert_eq!(root[1], BBox { min: Vector::new(0, 100, 0), max: Vector::new(195, 105, 5) });
}

fn crowded(count: i32) -> Vec<Cuboid> {
    // Large boxes whose centres lie close together: no plane of the
    // heuristic separates them, so that the build has to peel them off
    // one by one until it runs out of depth.
    let mut cubes = Vec::new();
    for i in 0..count {
        cubes.push(cube(i as u64, 650 + (count - 1 - i), 0, 0, 650));
    }
    cubes
}

#[test]
fn crowded_objects_are_sorted_once_depth_runs_out() {
    let mut cubes = crowded(100);
    let bvh = BVH::from_objects(&mut cubes, 2).unwrap();
    assert_eq!(bvh.tree_depth(), BVH_MAX_DEPTH);
    // The objects that were left when the balanced split took over have
    // been put into ascending order of their centres.
    let tail: Vec<i32> = cubes[59..].iter().map(|c| c.bounds[0].min.x).collect();
    let mut sorted = tail.clone();
    sorted.sort();
    assert_eq!(tail, sorted);
    assert_eq!(tail.len(), 41);
    assert!(tail[0] < tail[40]);
}

#[test]
fn crowded_objects_with_single_leaves_are_too_deep() {
    let mut cubes = crowded(100);
    assert!(BVH::from_objects(&mut cubes, 1).is_none());
    let mut ids: Vec<u64> = cubes.iter().map(|c| c.id).collect();
    ids.sort();
    let expected: Vec<u64> = (0..100).collect();
    assert_eq!(ids, expected);
}

#[test]
fn few_objects_always_build() {
    let mut cubes = crowded(65);
    let bvh = BVH::from_objects(&mut cubes, 1).unwrap();
    assert_eq!(bvh.tree_depth(), 64);
}

#[test]
fn objects_without_bounds_are_not_buildable() {
    let good = vec![cube(0, 0, 0, 0, 1), cube(1, 5, 5, 5, 1)];
    assert!(buildable(&good));
    let mixed = vec![
        cube(0, 0, 0, 0, 1),
        Cuboid { id: 1, bounds: vec![BBox::new(), BBox::new()] },
    ];
    assert!(!buildable(&mixed));
    let none = vec![Cuboid { id: 0, bounds: Vec::new() }];
    assert!(!buildable(&none));
    let far = vec![cube(0, 0x2000_0000, 0, 0, 1)];
    assert!(!buildable(&far));
    let empty: Vec<Cuboid> = Vec::new();
    assert!(buildable(&empty));
}

fn ray_towards(id: u32, from: (i32, i32, i32), to: (i32, i32, i32)) -> AccelRay {
    let wr = Ray::new(
        Vector::new(from.0, from.1, from.2),
        Vector::new(to.0 - from.0, to.1 - from.1, to.2 - from.2),
        0,
        550_000,
        false,
    )
    .unwrap();
    AccelRay::new(&wr, id)
}

fn random_rays(seed: u64, count: usize) -> Vec<AccelRay> {
    let mut rng = Lcg(seed);
    let mut rays = Vec::new();
    for i in 0..count {
        let from = (rng.range(-6000, 6000), rng.range(-6000, 6000), rng.range(-6000, 6000));
        let to = (rng.range(-5000, 5000), rng.range(-5000, 5000), rng.range(-5000, 5000));
        rays.push(ray_towards(i as u32, from, to));
    }
    rays
}

fn nearest_by_brute_force(cubes: &[Cuboid], ray: &AccelRay) -> Option<u64> {
    let mut nearest: Option<u64> = None;
    for c in cubes {
        let b = lerp_slice(&c.bounds, ray.time);
        if let Some(t) = box_hit(&b, ray) {
            if nearest.map_or(true, |n| t < n) {
                nearest = Some(t);
            }
        }
    }
    nearest
}

#[test]
fn traversal_finds_the_nearest_hit_of_every_ray() {
    let mut cubes = random_cubes_up_to(11, 600, 400);
    let bvh = BVH::from_objects(&mut cubes, 3).unwrap();
    let mut rays = random_rays(12, 400);
    let originals = rays.clone();
    let mut hits = ClosestHits::new(rays.len());
    bvh.traverse(&mut rays, &cubes, &mut hits);
    let mut hit_count = 0;
    for ray in &rays {
        let original = &originals[ray.id as usize];
        assert_eq!(ray.orig, original.orig);
        assert_eq!(ray.dir, original.dir);
        match nearest_by_brute_force(&cubes, original) {
            Some(t) => {
                hit_count += 1;
                assert_eq!(ray.max_t, t);
                match hits.isects[ray.id as usize] {
                    SurfaceIntersection::Hit { t: recorded, handle, .. } => {
                        assert_eq!(recorded, t);
                        let cube = cubes.iter().find(|c| c.id == handle).unwrap();
                        assert_eq!(box_hit(&cube.bounds[0], original), Some(t));
                    }
                    SurfaceIntersection::Miss => panic!("a hit went unrecorded"),
                }
            }
            None => {
                assert_eq!(ray.max_t, MAX_T_INFINITY);
                assert_eq!(hits.isects[ray.id as usize], SurfaceIntersection::Miss);
            }
        }
    }
    assert!(hit_count > 10);
    assert!(hit_count < 400);
    let mut ids: Vec<u32> = rays.iter().map(|r| r.id).collect();
    ids.sort();
    let expected: Vec<u32> = (0..400).collect();
    assert_eq!(ids, expected);
}

#[test]
fn rays_that_miss_everything_keep_their_reach() {
    let mut cubes = vec![cube(0, 0, 0, 0, 10), cube(1, 100, 0, 0, 10), cube(2, 0, 100, 0, 10)];
    let bvh = BVH::from_objects(&mut cubes, 1).unwrap();
    let mut rays = vec![
        ray_towards(0, (0, 0, 500), (0, 0, 1000)),
        ray_towards(1, (50, 50, 500), (50, 50, -500)),
    ];
    let mut hits = ClosestHits::new(2);
    bvh.traverse(&mut rays, &cubes, &mut hits);
    for ray in &rays {
        assert_eq!(ray.max_t, MAX_T_INFINITY);
    }
    assert_eq!(hits.isects, vec![SurfaceIntersection::Miss, SurfaceIntersection::Miss]);
}

#[test]
fn the_nearer_of_two_objects_wins() {
    let mut cubes = vec![cube(0, 0, 0, 0, 10), cube(1, 0, 0, 100, 10), cube(2, 0, 0, -100, 10)];
    let bvh = BVH::from_objects(&mut cubes, 1).unwrap();
    // From z = 500 down the z axis: the cube around z = 100 comes first,
    // and the ray enters it at z = 110, 390 units or 39 hundredths of its
    // direction away.
    let mut rays = vec![ray_towards(0, (0, 0, 500), (0, 0, -500))];
    let mut hits = ClosestHits::new(1);
    bvh.traverse(&mut rays, &cubes, &mut hits);
    let expected = (390u64 * 65536 + 999) / 1000;
    assert_eq!(rays[0].max_t, expected);
    assert_eq!(hits.isects[0], SurfaceIntersection::Hit { t: expected, handle: 1, shader: ShaderChoice::Unassigned });
}

#[test]
fn traversal_of_nothing_changes_nothing() {
    let mut cubes = random_cubes(21, 50);
    let bvh = BVH::from_objects(&mut cubes, 2).unwrap();
    let mut no_rays: Vec<AccelRay> = Vec::new();
    let mut hits = ClosestHits::new(3);
    bvh.traverse(&mut no_rays, &cubes, &mut hits);
    assert!(no_rays.is_empty());
    assert_eq!(hits.isects, vec![SurfaceIntersection::Miss; 3]);

    let empty = BVH::new_empty();
    let none: Vec<Cuboid> = Vec::new();
    let mut rays = random_rays(22, 10);
    let before = rays.clone();
    empty.traverse(&mut rays, &none, &mut hits);
    for (a, b) in rays.iter().zip(before.iter()) {
        assert_eq!(a.id, b.id);
        assert_eq!(a.max_t, b.max_t);
        assert_eq!(a.orig, b.orig);
    }
    assert_eq!(hits.isects, vec![SurfaceIntersection::Miss; 3]);
}

#[test]
fn shadow_rays_stop_at_the_first_hit() {
    let mut cubes = vec![cube(0, 0, 0, 0, 10), cube(1, 0, 0, 100, 10)];
    let bvh = BVH::from_objects(&mut cubes, 1).unwrap();
    let wr = Ray::new(Vector::new(0, 0, 500), Vector::new(0, 0, -1000), 0, 550_000, true).unwrap();
    assert!(wr.is_shadow());
    let mut rays = vec![AccelRay::new(&wr, 0)];
    let mut hits = ClosestHits::new(1);
    bvh.traverse(&mut rays, &cubes, &mut hits);
    assert!(rays[0].is_done());
    assert!(rays[0].max_t < MAX_T_INFINITY);
    assert!(matches!(hits.isects[0], SurfaceIntersection::Hit { .. }));
}

#[test]
fn moving_objects_are_hit_where_they_are_at_the_time_of_the_ray() {
    let still = BBox { min: Vector::new(-10, -10, -10), max: Vector::new(10, 10, 10) };
    let moved = BBox { min: Vector::new(990, -10, -10), max: Vector::new(1010, 10, 10) };
    let mut cubes = vec![Cuboid { id: 0, bounds: vec![still, moved] }];
    let bvh = BVH::from_objects(&mut cubes, 1).unwrap();
    let early = Ray::new(Vector::new(0, 0, 500), Vector::new(0, 0, -1000), 0, 550_000, false);
    let late =
        Ray::new(Vector::new(0, 0, 500), Vector::new(0, 0, -1000), TIME_ONE, 550_000, false);
    let mut rays = vec![AccelRay::new(&early.unwrap(), 0), AccelRay::new(&late.unwrap(), 1)];
    let mut hits = ClosestHits::new(2);
    bvh.traverse(&mut rays, &cubes, &mut hits);
    assert!(matches!(hits.isects[0], SurfaceIntersection::Hit { .. }));
    assert_eq!(hits.isects[1], SurfaceIntersection::Miss);
}

fn area(b: &BBox) -> f64 {
    b.surface_area() as f64
}

fn leaf_cost(bvh: &BVH) -> f64 {
    let mut cost = 0.0;
    for i in 0..bvh.node_count() {
        if let BVHNode::Leaf { bounds_range, object_range } = bvh.node(i) {
            let b = bvh.bounds_slice(bounds_range)[0];
            cost += area(&b) * (object_range.1 - object_range.0) as f64;
        }
    }
    cost / area(&bvh.bounds()[0])
}

fn median_split_cost(boxes: &mut [BBox], per_leaf: usize) -> f64 {
    if boxes.len() <= per_leaf {
        let mut b = BBox::new();
        for x in boxes.iter() {
            b = b.union(x);
        }
        return area(&b) * boxes.len() as f64;
    }
    let mut all = BBox::new();
    for x in boxes.iter() {
        all = all.union(x);
    }
    let ex = all.max.x - all.min.x;
    let ey = all.max.y - all.min.y;
    let ez = all.max.z - all.min.z;
    if ex >= ey && ex >= ez {
        boxes.sort_by_key(|b| b.min.x + b.max.x);
    } else if ey >= ez {
        boxes.sort_by_key(|b| b.min.y + b.max.y);
    } else {
        boxes.sort_by_key(|b| b.min.z + b.max.z);
    }
    let mid = boxes.len() / 2;
    let (left, right) = boxes.split_at_mut(mid);
    median_split_cost(left, per_leaf) + median_split_cost(right, per_leaf)
}

#[test]
fn the_heuristic_builds_trees_about_as_good_as_median_splits() {
    let mut cubes = random_cubes(31, 1000);
    let mut boxes: Vec<BBox> = cubes.iter().map(|c| c.bounds[0]).collect();
    let bvh = BVH::from_objects(&mut cubes, 4).unwrap();
    let ours = leaf_cost(&bvh);
    let root = bvh.bounds()[0];
    let baseline = median_split_cost(&mut boxes, 4) / area(&root);
    assert!(ours.is_finite());
    assert!(ours > 0.0);
    assert!(ours <= 3.0 * baseline);
    assert!(baseline <= 3.0 * ours);
}

#[test]
fn building_twice_gives_the_same_tree() {
    let mut first = random_cubes(41, 700);
    let mut second = random_cubes(41, 700);
    let a = BVH::from_objects(&mut first, 3).unwrap();
    let b = BVH::from_objects(&mut second, 3).unwrap();
    assert_eq!(a.node_count(), b.node_count());
    assert_eq!(a.tree_depth(), b.tree_depth());
    for i in 0..a.node_count() {
        let (na, nb) = (a.node(i), b.node(i));
        assert_eq!(na.bounds_range(), nb.bounds_range());
        assert_eq!(a.bounds_slice(na.bounds_range()), b.bounds_slice(nb.bounds_range()));
        match (na, nb) {
            (
                BVHNode::Internal { second_child_index: ca, split_axis: xa, .. },
                BVHNode::Internal { second_child_index: cb, split_axis: xb, .. },
            ) => {
                assert_eq!(ca, cb);
                assert_eq!(xa, xb);
            }
            (
                BVHNode::Leaf { object_range: ra, .. },
                BVHNode::Leaf { object_range: rb, .. },
            ) => assert_eq!(ra, rb),
            _ => panic!("the trees differ in shape"),
        }
    }
    let ids_a: Vec<u64> = first.iter().map(|c| c.id).collect();
    let ids_b: Vec<u64> = second.iter().map(|c| c.id).collect();
    assert_eq!(ids_a, ids_b);
}

#[test]
fn the_walk_visits_the_near_child_first() {
    let mut cubes = vec![cube(0, -100, 0, 0, 10), cube(1, 100, 0, 0, 10)];
    let bvh = BVH::from_objects(&mut cubes, 1).unwrap();
    let leaves = |from: i32, to: i32| -> Vec<u64> {
        let mut rays = vec![ray_towards(0, (from, 0, 0), (to, 0, 0))];
        let mut trav = bvh.traverse_begin(&rays, &cubes);
        let mut seen = Vec::new();
        while let Some((first, end, part)) = bvh.traverse_next(&mut trav, &mut rays, &cubes) {
            assert_eq!(part, 1);
            assert_eq!(end, first + 1);
            seen.push(cubes[first].id);
        }
        seen
    };
    // a ray along x comes by the cube at x = -100 first, a ray against x by
    // the other; each leaf is handed out once
    assert_eq!(leaves(-500, 500), vec![0, 1]);
    assert_eq!(leaves(500, -500), vec![1, 0]);
    // a ray that passes neither is handed no leaf
    let mut rays = vec![ray_towards(0, (-500, 300, 0), (500, 300, 0))];
    let mut trav = bvh.traverse_begin(&rays, &cubes);
    assert_eq!(bvh.traverse_next(&mut trav, &mut rays, &cubes), None);
}
