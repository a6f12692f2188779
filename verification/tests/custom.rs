use psychopath::bbox::BBox;
use psychopath::boundable::{buildable, Boundable};
use psychopath::bvh::BVH;
use psychopath::ray::{AccelRay, MAX_T_INFINITY};
use psychopath::traverse::{Intersectable, RayTester};
use psychopath::vector::Vector;

/// A point-like marker with bounds of its own making.
struct Marker {
    at: i32,
    bounds: Vec<BBox>,
}

impl Marker {
    fn new(at: i32) -> Marker {
        Marker {
            at,
            bounds: vec![BBox { min: Vector::new(at, -1, -1), max: Vector::new(at + 1, 1, 1) }],
        }
    }
}

impl Boundable for Marker {
    fn bounds(&self) -> &[BBox] {
        &self.bounds
    }
}

impl Intersectable for Marker {}

/// Counts how often each marker is tested.
struct Counter {
    tests: Vec<(i32, usize)>,
}

impl RayTester<Marker> for Counter {
    fn test(&mut self, obj: &Marker, rays: &mut [AccelRay]) {
        self.tests.push((obj.at, rays.len()));
    }
}

#[test]
fn objects_and_testers_of_the_caller_can_be_used() {
    let mut markers: Vec<Marker> = (0..16).map(|i| Marker::new(i * 10)).collect();
    assert!(buildable(&markers));
    let bvh = BVH::from_objects(&mut markers, 1).unwrap();
    assert_eq!(bvh.node_count(), 31);
    // along the x axis through all markers, and along the y axis through
    // the first
    let mut rays = vec![
        AccelRay {
            orig: Vector::new(-5, 0, 0),
            dir: Vector::new(1, 0, 0),
            max_t: MAX_T_INFINITY,
            time: 0,
            flags: 0,
            id: 0,
        },
        AccelRay {
            orig: Vector::new(0, -5, 0),
            dir: Vector::new(0, 1, 0),
            max_t: MAX_T_INFINITY,
            time: 0,
            flags: 0,
            id: 1,
        },
    ];
    let mut counter = Counter { tests: Vec::new() };
    bvh.traverse(&mut rays, &markers, &mut counter);
    let mut seen: Vec<i32> = counter.tests.iter().map(|t| t.0).collect();
    seen.sort();
    assert_eq!(seen, (0..16).map(|i| i * 10).collect::<Vec<i32>>());
    for (at, count) in counter.tests {
        assert_eq!(count, if at == 0 { 2 } else { 1 });
    }
}
