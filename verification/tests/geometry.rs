use psychopath::bbox::BBox;
use psychopath::lerp::{lerp_ceil, lerp_floor, lerp_slice, Lerp, TIME_HALF, TIME_ONE};
use psychopath::math::{isqrt, log2_64, upper_power_of_two};
use psychopath::ray::{AccelRay, Ray, FLAG_SHADOW, MAX_T_INFINITY};
use psychopath::sah::{combined_bounds, mid_bounds, sah_split, widest_axis};
use psychopath::cuboid::Cuboid;
use psychopath::transform::{Matrix, FIXED_ONE};
use psychopath::transform_stack::TransformStack;
use psychopath::vector::{Vector, COORD_MAX};

fn bbox(min: (i32, i32, i32), max: (i32, i32, i32)) -> BBox {
    BBox { min: Vector::new(min.0, min.1, min.2), max: Vector::new(max.0, max.1, max.2) }
}

fn accel_ray(orig: (i32, i32, i32), dir: (i32, i32, i32), max_t: u64) -> AccelRay {
    AccelRay {
        orig: Vector::new(orig.0, orig.1, orig.2),
        dir: Vector::new(dir.0, dir.1, dir.2),
        max_t,
        time: 0,
        flags: 0,
        id: 0,
    }
}

#[test]
fn vector_components_by_axis() {
    let v = Vector::new(1, -2, 3);
    assert_eq!(v.get_n(0), 1);
    assert_eq!(v.get_n(1), -2);
    assert_eq!(v.get_n(2), 3);
    assert!(v.in_range());
    assert!(Vector::new(COORD_MAX, -COORD_MAX, 0).in_range());
    assert!(!Vector::new(COORD_MAX + 1, 0, 0).in_range());
}

#[test]
fn union_takes_the_outer_faces() {
    let a = bbox((0, 0, 0), (10, 10, 10));
    let b = bbox((-5, 2, 3), (4, 20, 8));
    assert_eq!(a.union(&b), bbox((-5, 0, 0), (10, 20, 10)));
    assert_eq!(BBox::new().union(&a), a);
    assert_eq!(a.union(&BBox::new()), a);
    assert_eq!(a.union(&a), a);
}

#[test]
fn surface_area_of_boxes() {
    assert_eq!(bbox((0, 0, 0), (1, 2, 3)).surface_area(), 22);
    assert_eq!(bbox((0, 0, 0), (0, 5, 5)).surface_area(), 50);
    assert_eq!(BBox::new().surface_area(), 0);
    let huge = bbox((-COORD_MAX, -COORD_MAX, -COORD_MAX), (COORD_MAX, COORD_MAX, COORD_MAX));
    assert_eq!(huge.surface_area(), 6 * (1u64 << 60));
    assert_eq!(huge.extent(1), 1u64 << 30);
    assert_eq!(bbox((1, 1, 1), (4, 9, 2)).centroid2(1), 10);
}

#[test]
fn interpolation_rounds_outwards() {
    assert_eq!(lerp_floor(0, 3, TIME_HALF), 1);
    assert_eq!(lerp_ceil(0, 3, TIME_HALF), 2);
    assert_eq!(lerp_floor(-3, 0, TIME_HALF), -2);
    assert_eq!(lerp_ceil(-3, 0, TIME_HALF), -1);
    assert_eq!(lerp_floor(7, 100, 0), 7);
    assert_eq!(lerp_ceil(7, 100, TIME_ONE), 100);
    assert_eq!(lerp_floor(-COORD_MAX, COORD_MAX, TIME_HALF), 0);
    let a = bbox((0, 0, 0), (1, 1, 1));
    let b = bbox((3, 3, 3), (4, 4, 4));
    assert_eq!(a.lerp(b, TIME_HALF), bbox((1, 1, 1), (3, 3, 3)));
}

#[test]
fn value_between_time_samples() {
    let s = [bbox((0, 0, 0), (10, 10, 10)), bbox((100, 0, 0), (110, 10, 10)),
        bbox((100, 100, 0), (110, 110, 10))];
    assert_eq!(lerp_slice(&s, 0), s[0]);
    assert_eq!(lerp_slice(&s, TIME_HALF), s[1]);
    assert_eq!(lerp_slice(&s, TIME_ONE), s[2]);
    assert_eq!(lerp_slice(&s, TIME_ONE / 4), bbox((50, 0, 0), (60, 10, 10)));
    assert_eq!(lerp_slice(&s[..1], 12345), s[0]);
    let obj = Cuboid { id: 0, bounds: s[..2].to_vec() };
    assert_eq!(mid_bounds(&obj), bbox((50, 0, 0), (60, 10, 10)));
}

#[test]
fn ray_through_a_box() {
    let b = bbox((-10, -10, -10), (10, 10, 10));
    assert!(b.intersect_accel_ray(&accel_ray((0, 0, 100), (0, 0, -1), MAX_T_INFINITY)));
    assert!(!b.intersect_accel_ray(&accel_ray((0, 0, 100), (0, 0, 1), MAX_T_INFINITY)));
    assert!(!b.intersect_accel_ray(&accel_ray((11, 0, 100), (0, 0, -1), MAX_T_INFINITY)));
    assert!(b.intersect_accel_ray(&accel_ray((10, 0, 100), (0, 0, -1), MAX_T_INFINITY)));
    assert!(b.intersect_accel_ray(&accel_ray((100, 100, 100), (-1, -1, -1), MAX_T_INFINITY)));
    assert!(!b.intersect_accel_ray(&accel_ray((100, 100, 100), (-1, -1, -2), MAX_T_INFINITY)));
    // the ray reaches the box after 90 of its lengths
    assert!(b.intersect_accel_ray(&accel_ray((0, 0, 100), (0, 0, -1), 90 * 65536)));
    assert!(!b.intersect_accel_ray(&accel_ray((0, 0, 100), (0, 0, -1), 90 * 65536 - 1)));
    assert!(!BBox::new().intersect_accel_ray(&accel_ray((0, 0, 0), (0, 0, 1), MAX_T_INFINITY)));
}

#[test]
fn ray_from_inside_a_box_hits_it() {
    let b = bbox((-10, -20, -30), (10, 20, 30));
    for dir in [(1, 0, 0), (0, -1, 0), (3, 4, -5), (0, 0, 0), (-7, 2, 1)] {
        for orig in [(0, 0, 0), (10, 20, 30), (-10, -20, -30), (5, -19, 29)] {
            assert!(b.intersect_accel_ray(&accel_ray(orig, dir, MAX_T_INFINITY)));
            assert!(b.intersect_accel_ray(&accel_ray(orig, dir, 0)));
            assert_eq!(psychopath::cuboid::box_hit(&b, &accel_ray(orig, dir, 0)), Some(0));
        }
    }
}

#[test]
fn rays_on_and_off_the_lattice() {
    assert!(Ray::new(Vector::new(0, 0, 0), Vector::new(1, 0, 0), TIME_ONE, 1, false).is_some());
    assert!(Ray::new(Vector::new(0, 0, 0), Vector::new(1, 0, 0), TIME_ONE + 1, 1, false).is_none());
    assert!(Ray::new(Vector::new(COORD_MAX + 1, 0, 0), Vector::new(1, 0, 0), 0, 1, false).is_none());
    assert!(Ray::new(Vector::new(0, 0, 0), Vector::new(0, -COORD_MAX - 1, 0), 0, 1, false).is_none());
    let shadow = Ray::new(Vector::new(1, 2, 3), Vector::new(4, 5, 6), 7, 8, true).unwrap();
    assert_eq!(shadow.flags, FLAG_SHADOW);
    assert_eq!(shadow.max_t, MAX_T_INFINITY);
    assert!(shadow.is_shadow());
    let mut accel = AccelRay::new(&shadow, 9);
    assert_eq!(accel.id, 9);
    assert_eq!(accel.time, 7);
    assert!(!accel.is_done());
    accel.mark_done();
    assert!(accel.is_done());
    let other = Ray::new(Vector::new(-1, -2, -3), Vector::new(0, 0, 1), 7, 8, false).unwrap();
    accel.update_from_world_ray(&other);
    assert_eq!(accel.orig, Vector::new(-1, -2, -3));
    assert_eq!(accel.dir, Vector::new(0, 0, 1));
    assert!(accel.is_done());
}

#[test]
fn logarithm_power_and_root() {
    assert_eq!(log2_64(0), 0);
    assert_eq!(log2_64(1), 0);
    assert_eq!(log2_64(2), 1);
    assert_eq!(log2_64(3), 1);
    assert_eq!(log2_64(1024), 10);
    assert_eq!(log2_64(u64::MAX), 63);
    assert_eq!(upper_power_of_two(0), 1);
    assert_eq!(upper_power_of_two(1), 1);
    assert_eq!(upper_power_of_two(5), 8);
    assert_eq!(upper_power_of_two(8), 8);
    assert_eq!(upper_power_of_two(1 << 63), 1 << 63);
    assert_eq!(isqrt(0), 0);
    assert_eq!(isqrt(15), 3);
    assert_eq!(isqrt(16), 4);
    assert_eq!(isqrt(u64::MAX), 0xffff_ffff);
}

#[test]
fn the_heuristic_splits_between_two_clusters() {
    let mut mids = Vec::new();
    for i in 0..10 {
        mids.push(bbox((i, 0, 0), (i + 1, 1, 1)));
        mids.push(bbox((0, 1000 + i, 0), (1, 1001 + i, 1)));
    }
    let all = combined_bounds(&mids);
    assert_eq!(all, bbox((0, 0, 0), (10, 1010, 1)));
    assert_eq!(widest_axis(&all), 1);
    let split = sah_split(&mids);
    assert_eq!(split.axis, 1);
    // the first plane between the clusters: 26 times 1010 / 13
    assert_eq!(split.plane, 2 * 1010);
}

#[test]
fn the_heuristic_gives_up_on_crowded_centres() {
    let mut mids = Vec::new();
    for i in 0..10 {
        mids.push(bbox((i, 0, 0), (1300 + i, 1300, 1300)));
    }
    let split = sah_split(&mids);
    assert_eq!(split.axis, 0);
    assert_eq!(split.plane, 0);
    assert_eq!(widest_axis(&bbox((0, 0, 0), (5, 5, 5))), 0);
    assert_eq!(widest_axis(&bbox((0, 0, 0), (5, 5, 6))), 2);
}

fn scale(factor: i32) -> Matrix {
    Matrix {
        row_x: Vector::new(factor * FIXED_ONE, 0, 0),
        row_y: Vector::new(0, factor * FIXED_ONE, 0),
        row_z: Vector::new(0, 0, factor * FIXED_ONE),
        translation: Vector::new(0, 0, 0),
    }
}

fn shift(x: i32, y: i32, z: i32) -> Matrix {
    Matrix { translation: Vector::new(x, y, z), ..Matrix::identity() }
}

#[test]
fn transforms_move_points_and_turn_directions() {
    let p = Vector::new(3, -4, 5);
    assert_eq!(Matrix::identity().transform_point(&p), p);
    assert_eq!(Matrix::identity().transform_dir(&p), p);
    assert_eq!(scale(2).transform_point(&p), Vector::new(6, -8, 10));
    assert_eq!(shift(10, 20, 30).transform_point(&p), Vector::new(13, 16, 35));
    assert_eq!(shift(10, 20, 30).transform_dir(&p), p);
    let half = Matrix {
        row_x: Vector::new(FIXED_ONE / 2, 0, 0),
        row_y: Vector::new(0, FIXED_ONE / 2, 0),
        row_z: Vector::new(0, 0, FIXED_ONE / 2),
        translation: Vector::new(0, 0, 0),
    };
    assert_eq!(half.transform_point(&p), Vector::new(1, -2, 2));
    let far = Vector::new(COORD_MAX, 0, -COORD_MAX);
    assert_eq!(scale(4).transform_point(&far), Vector::new(COORD_MAX, 0, -COORD_MAX));
    // first shift, then scale
    let both = shift(1, 1, 1).compose(&scale(2));
    assert_eq!(both.transform_point(&p), Vector::new(8, -6, 12));
    assert_eq!(scale(2).lerp(scale(4), TIME_HALF), scale(3));
}

#[test]
fn the_transform_stack_composes_its_levels() {
    let mut stack = TransformStack::new();
    assert!(stack.top().is_empty());
    stack.push(&[shift(1, 0, 0)]);
    assert_eq!(stack.top(), &[shift(1, 0, 0)][..]);
    stack.push(&[scale(2), scale(4)]);
    let top = stack.top().to_vec();
    assert_eq!(top.len(), 2);
    assert_eq!(top[0].transform_point(&Vector::new(1, 1, 1)), Vector::new(4, 2, 2));
    assert_eq!(top[1].transform_point(&Vector::new(1, 1, 1)), Vector::new(8, 4, 4));
    stack.push(&[shift(0, 0, 5)]);
    let top = stack.top().to_vec();
    assert_eq!(top.len(), 2);
    assert_eq!(top[1].transform_point(&Vector::new(1, 1, 1)), Vector::new(8, 4, 9));
    stack.pop();
    assert_eq!(stack.top().len(), 2);
    assert_eq!(stack.top()[0].transform_point(&Vector::new(1, 1, 1)), Vector::new(4, 2, 2));
    stack.pop();
    assert_eq!(stack.top(), &[shift(1, 0, 0)][..]);
    stack.pop();
    assert!(stack.top().is_empty());
    stack.push(&[scale(3)]);
    stack.clear();
    assert!(stack.top().is_empty());
}
