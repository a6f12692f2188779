use psychopath::light_path::{
    Contribution, LightPath, LightPathEvent, PathHit, PathStep, SampleDimensions,
    BOUNCE_DIMENSIONS, CAMERA_DIMENSIONS, LIGHT_DIMENSIONS, MAX_BOUNCES,
};
use psychopath::ray::Ray;
use psychopath::vector::Vector;

fn ray(z: i32, shadow: bool) -> Ray {
    Ray::new(Vector::new(0, 0, z), Vector::new(0, 0, 1), 0, 550_000, shadow).unwrap()
}

fn same_ray(a: &Option<Ray>, b: &Ray) -> bool {
    match a {
        Some(r) => r.orig == b.orig && r.dir == b.dir && r.flags == b.flags,
        None => false,
    }
}

fn fresh() -> LightPath {
    LightPath::new((3, 4), 100, 550_000, 17)
}

#[test]
fn a_new_path_waits_for_its_camera_ray() {
    let path = fresh();
    assert_eq!(path.event(), LightPathEvent::CameraRay);
    assert_eq!(path.bounce_count(), 0);
    assert_eq!(path.pixel_co(), (3, 4));
    assert_eq!(path.lds_offset(), 17);
    assert_eq!(path.time(), 100);
    assert_eq!(path.wavelength(), 550_000);
    assert!(!path.is_finished());
    let dims: SampleDimensions = path.sample_dimensions();
    assert_eq!(dims.light_select, CAMERA_DIMENSIONS);
    assert_eq!(dims.light_uvw, (7, 8, 9));
    assert_eq!(dims.bounce_uv, Some((10, 11)));
}

#[test]
fn camera_ray_that_misses_adds_the_background() {
    let mut path = fresh();
    let step = path.next(PathHit::Miss);
    assert_eq!(step.contribution, Contribution::Background);
    assert!(!step.fold_closure_pdf);
    assert!(step.next_ray.is_none());
    assert!(path.is_finished());
}

#[test]
fn camera_ray_sees_emission_directly() {
    let mut path = fresh();
    let step = path.next(PathHit::Emission);
    assert_eq!(step.contribution, Contribution::EmissionDirect);
    assert!(step.next_ray.is_none());
    assert!(path.is_finished());
}

#[test]
fn bounce_ray_weights_emission() {
    let mut path = fresh();
    let bounce = ray(1, false);
    let step = path.next(PathHit::Surface { shadow_ray: None, bounce_ray: Some(bounce) });
    assert!(same_ray(&step.next_ray, &bounce));
    assert_eq!(path.event(), LightPathEvent::BounceRay);
    let step = path.next(PathHit::Emission);
    assert_eq!(step.contribution, Contribution::EmissionWeighted);
    assert!(path.is_finished());
}

#[test]
fn surface_hit_sends_the_shadow_ray_first() {
    let mut path = fresh();
    let shadow = ray(1, true);
    let bounce = ray(2, false);
    let step: PathStep =
        path.next(PathHit::Surface { shadow_ray: Some(shadow), bounce_ray: Some(bounce) });
    assert_eq!(step.contribution, Contribution::Nothing);
    assert!(step.fold_closure_pdf);
    assert!(step.store_pending);
    assert!(step.store_bounce);
    assert!(!step.fold_bounce);
    assert!(same_ray(&step.next_ray, &shadow));
    assert_eq!(path.event(), LightPathEvent::ShadowRay);
    assert_eq!(path.bounce_count(), 1);
    assert_eq!(
        path.sample_dimensions().light_select,
        CAMERA_DIMENSIONS + LIGHT_DIMENSIONS + BOUNCE_DIMENSIONS
    );

    // the light is visible: its contribution is committed, and the queued
    // bounce goes out
    let step = path.next(PathHit::Miss);
    assert_eq!(step.contribution, Contribution::PendingLight);
    assert!(step.fold_bounce);
    assert!(same_ray(&step.next_ray, &bounce));
    assert_eq!(path.event(), LightPathEvent::BounceRay);
}

#[test]
fn occluded_light_adds_nothing() {
    let mut path = fresh();
    let shadow = ray(1, true);
    let step = path.next(PathHit::Surface { shadow_ray: Some(shadow), bounce_ray: None });
    assert!(same_ray(&step.next_ray, &shadow));
    assert!(!step.store_bounce);
    let step = path.next(PathHit::Surface { shadow_ray: None, bounce_ray: None });
    assert_eq!(step.contribution, Contribution::Nothing);
    assert!(step.next_ray.is_none());
    assert!(path.is_finished());
}

#[test]
fn surface_without_light_or_bounce_ends_the_path() {
    let mut path = fresh();
    let step = path.next(PathHit::Surface { shadow_ray: None, bounce_ray: None });
    assert_eq!(step.contribution, Contribution::Nothing);
    assert!(step.fold_closure_pdf);
    assert!(step.next_ray.is_none());
    assert!(path.is_finished());
    assert_eq!(path.bounce_count(), 1);
}

#[test]
fn no_bounce_is_sampled_after_the_last() {
    let mut path = fresh();
    let b1 = ray(1, false);
    let b2 = ray(2, false);
    let b3 = ray(3, false);
    path.next(PathHit::Surface { shadow_ray: None, bounce_ray: Some(b1) });
    path.next(PathHit::Surface { shadow_ray: None, bounce_ray: Some(b2) });
    assert_eq!(path.bounce_count(), MAX_BOUNCES);
    let dims = path.sample_dimensions();
    assert_eq!(dims.light_select, 18);
    assert_eq!(dims.bounce_uv, None);
    let step = path.next(PathHit::Surface { shadow_ray: None, bounce_ray: Some(b3) });
    assert!(!step.store_bounce);
    assert!(step.next_ray.is_none());
    assert!(path.is_finished());
    assert_eq!(path.sample_dimensions().light_select, 22);
}

#[test]
fn a_path_takes_at_most_six_steps() {
    let shadow = ray(1, true);
    let bounce = ray(2, false);
    let mut path = fresh();
    let mut steps = 0;
    while !path.is_finished() {
        path.next(PathHit::Surface { shadow_ray: Some(shadow), bounce_ray: Some(bounce) });
        steps += 1;
        assert!(steps <= 6);
    }
    assert_eq!(steps, 6);
    assert_eq!(path.bounce_count(), 2);
}

#[test]
fn a_finished_path_stays_finished() {
    let mut path = fresh();
    path.next(PathHit::Miss);
    let step = path.next(PathHit::Surface { shadow_ray: Some(ray(1, true)), bounce_ray: None });
    assert_eq!(step.contribution, Contribution::Nothing);
    assert!(step.next_ray.is_none());
    assert!(!step.fold_closure_pdf);
    assert!(path.is_finished());
    assert_eq!(path.sample_dimensions().light_select, CAMERA_DIMENSIONS);
}

#[test]
fn a_failed_bounce_sample_queues_no_bounce() {
    let mut path = fresh();
    let shadow = ray(1, true);
    let b1 = ray(2, false);
    path.next(PathHit::Surface { shadow_ray: Some(shadow), bounce_ray: Some(b1) });
    let step = path.next(PathHit::Miss);
    assert!(same_ray(&step.next_ray, &b1));
    // second hit: the bounce sample fails, the light sample does not
    let step = path.next(PathHit::Surface { shadow_ray: Some(shadow), bounce_ray: None });
    assert!(!step.store_bounce);
    assert_eq!(path.event(), LightPathEvent::ShadowRay);
    // the shadow ray ends the path: the earlier bounce ray is not sent again
    let step = path.next(PathHit::Emission);
    assert_eq!(step.contribution, Contribution::Nothing);
    assert!(step.next_ray.is_none());
    assert!(!step.fold_bounce);
    assert!(path.is_finished());
}
