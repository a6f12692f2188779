use psychopath::algorithm::{partition, partition_pair, partition_range};
use psychopath::hash::hash_u32;
use psychopath::hilbert::d2xy;
use psychopath::light_path::LightPathEvent;
use psychopath::renderer::{
    bucket_dim, bucket_jobs, bucket_paths, percentage, pixel_path, progress_changed,
    render_region, BucketJob, RenderRegion, Renderer,
};
use psychopath::sampling::{
    get_sample, sample_time, sample_wavelength, MAX_DIMENSION, WAVELENGTH_MAX, WAVELENGTH_MIN,
};
use psychopath::scene::Assembly;
use psychopath::cuboid::Cuboid;

fn covered(jobs: &[BucketJob], width: usize, height: usize) -> Vec<Vec<u32>> {
    let mut count = vec![vec![0u32; width]; height];
    for job in jobs {
        for y in job.y..job.y + job.h {
            for x in job.x..job.x + job.w {
                count[y as usize][x as usize] += 1;
            }
        }
    }
    count
}

#[test]
fn the_hilbert_curve_starts_in_the_corner() {
    let first: Vec<(u32, u32)> = (0..16).map(d2xy).collect();
    assert_eq!(
        first,
        vec![
            (0, 0), (1, 0), (1, 1), (0, 1), (0, 2), (0, 3), (1, 3), (1, 2),
            (2, 2), (2, 3), (3, 3), (3, 2), (3, 1), (2, 1), (2, 0), (3, 0),
        ]
    );
    for d in 0..1023u64 {
        let (x1, y1) = d2xy(d);
        let (x2, y2) = d2xy(d + 1);
        let step = (x1 as i64 - x2 as i64).abs() + (y1 as i64 - y2 as i64).abs();
        assert_eq!(step, 1);
        assert!(x1 < 32 && y1 < 32);
    }
}

#[test]
fn the_hilbert_curve_fills_squares() {
    let mut seen = vec![vec![false; 64]; 64];
    for d in 0..64 * 64 {
        let (x, y) = d2xy(d);
        assert!(!seen[y as usize][x as usize]);
        seen[y as usize][x as usize] = true;
    }
    assert!(seen.iter().all(|row| row.iter().all(|&s| s)));
}

#[test]
fn hashes_are_fixed() {
    assert_eq!(hash_u32(0, 0), 0);
    let a = hash_u32(1, 0);
    let mut h: u32 = 1;
    for _ in 0..3 {
        h = h.wrapping_mul(1936502639);
        h ^= h >> 16;
    }
    assert_eq!(a, h);
    assert_ne!(hash_u32(1, 1), hash_u32(1, 2));
    assert_ne!(hash_u32(1, 1), hash_u32(2, 1));
    assert_eq!(hash_u32(12345, 678), hash_u32(12345, 678));
}

#[test]
fn samples_follow_the_halton_sequence() {
    // base two: 0, 1/2, 1/4, 3/4, 1/8
    assert_eq!(get_sample(0, 0), 0);
    assert_eq!(get_sample(0, 1), 1 << 31);
    assert_eq!(get_sample(0, 2), 1 << 30);
    assert_eq!(get_sample(0, 3), 3 << 30);
    assert_eq!(get_sample(0, 4), 1 << 29);
    // base three: 1/3, 2/3, 1/9
    assert_eq!(get_sample(1, 1), ((1u64 << 32) / 3) as u32);
    assert_eq!(get_sample(1, 2), ((2u64 << 32) / 3) as u32);
    assert_eq!(get_sample(1, 3), ((1u64 << 32) / 9) as u32);
    // base five: 7 = 12 in base five mirrors to 0.21 = 11/25
    assert_eq!(get_sample(2, 7), ((11u64 << 32) / 25) as u32);
    assert_eq!(get_sample(31, 1), ((1u64 << 32) / 131) as u32);
    assert_eq!(get_sample(0, u32::MAX), u32::MAX);
    assert_eq!(get_sample(MAX_DIMENSION, 99), hash_u32(MAX_DIMENSION, 99));
    assert_eq!(get_sample(1000, 3), hash_u32(1000, 3));
    for d in 0..40 {
        for i in 0..50 {
            assert_eq!(get_sample(d, i), get_sample(d, i));
        }
    }
}

#[test]
fn samples_become_times_and_wavelengths() {
    assert_eq!(sample_time(0), 0);
    assert_eq!(sample_time(1 << 31), 1 << 15);
    assert_eq!(sample_time(u32::MAX), 65535);
    assert_eq!(sample_wavelength(0), WAVELENGTH_MIN);
    assert_eq!(sample_wavelength(1 << 31), 540_000);
    assert_eq!(sample_wavelength(u32::MAX), WAVELENGTH_MAX - 1);
}

#[test]
fn the_region_without_a_crop_is_the_image() {
    assert_eq!(
        render_region((640, 480), None),
        RenderRegion { width: 640, height: 480, start_x: 0, start_y: 0 }
    );
    assert_eq!(
        render_region((32, 32), Some((4, 4, 7, 7))),
        RenderRegion { width: 4, height: 4, start_x: 4, start_y: 4 }
    );
    assert_eq!(
        render_region((32, 32), Some((30, 0, 100, 100))),
        RenderRegion { width: 2, height: 32, start_x: 30, start_y: 0 }
    );
    assert_eq!(
        render_region((32, 32), Some((40, 50, 100, 100))),
        RenderRegion { width: 1, height: 1, start_x: 31, start_y: 31 }
    );
}

#[test]
fn buckets_hold_about_the_samples_asked_for() {
    assert_eq!(bucket_dim(4096, 16), 16);
    assert_eq!(bucket_dim(64, 1), 8);
    assert_eq!(bucket_dim(63, 1), 7);
    assert_eq!(bucket_dim(4096, 1), 64);
    assert_eq!(bucket_dim(4096, 5000), 1);
    assert_eq!(bucket_dim(0, 1), 1);
    assert_eq!(bucket_dim(u32::MAX, 1), 65535);
    assert_eq!(bucket_dim(100, 3), 5);
}

#[test]
fn buckets_tile_the_image() {
    let region = render_region((100, 60), None);
    let jobs = bucket_jobs(&region, bucket_dim(64, 1));
    let count = covered(&jobs, 100, 60);
    assert!(count.iter().all(|row| row.iter().all(|&c| c == 1)));
    assert_eq!(jobs.len(), 13 * 8);
    for job in &jobs {
        assert!(job.w == 8 || job.w == 4);
        assert!(job.h == 8 || job.h == 4);
        assert_eq!(job.x % 8, 0);
        assert_eq!(job.y % 8, 0);
    }
    // along the curve: the first buckets lie around the corner
    assert_eq!(jobs[0], BucketJob { x: 0, y: 0, w: 8, h: 8 });
    assert_eq!(jobs[1], BucketJob { x: 8, y: 0, w: 8, h: 8 });
    assert_eq!(jobs[2], BucketJob { x: 8, y: 8, w: 8, h: 8 });
    assert_eq!(jobs[3], BucketJob { x: 0, y: 8, w: 8, h: 8 });
}

#[test]
fn buckets_of_an_image_that_they_divide() {
    let region = render_region((64, 64), None);
    let jobs = bucket_jobs(&region, 8);
    assert_eq!(jobs.len(), 64);
    let count = covered(&jobs, 64, 64);
    assert!(count.iter().all(|row| row.iter().all(|&c| c == 1)));
    assert!(jobs.iter().all(|j| j.w == 8 && j.h == 8));
}

#[test]
fn a_crop_is_rendered_and_nothing_else() {
    let region = render_region((32, 32), Some((4, 4, 7, 7)));
    let jobs = bucket_jobs(&region, bucket_dim(4096, 16));
    let count = covered(&jobs, 32, 32);
    for y in 0..32 {
        for x in 0..32 {
            let inside = (4..=7).contains(&x) && (4..=7).contains(&y);
            assert_eq!(count[y][x], if inside { 1 } else { 0 });
        }
    }
    assert_eq!(jobs, vec![BucketJob { x: 4, y: 4, w: 4, h: 4 }]);
}

#[test]
fn an_empty_region_has_no_buckets() {
    let region = render_region((0, 10), None);
    assert!(bucket_jobs(&region, 4).is_empty());
}

#[test]
fn a_renderer_plans_its_buckets() {
    let scene: Assembly<Cuboid> =
        Assembly::new(Vec::new(), Vec::new(), Vec::new(), Vec::new(), Vec::new()).unwrap();
    let renderer = Renderer {
        output_file: String::from("out.png"),
        resolution: (16, 16),
        spp: 1,
        seed: 5,
        scene,
    };
    let jobs = renderer.bucket_jobs(64, None);
    assert_eq!(jobs.len(), 4);
    let count = covered(&jobs, 16, 16);
    assert!(count.iter().all(|row| row.iter().all(|&c| c == 1)));
    let cropped = renderer.bucket_jobs(64, Some((1, 2, 3, 4)));
    assert_eq!(cropped, vec![BucketJob { x: 1, y: 2, w: 3, h: 3 }]);
    let paths = renderer.bucket_paths(&cropped[0]);
    assert_eq!(paths.len(), 9);
    assert_eq!(paths[0].pixel_co(), (1, 2));
    assert_eq!(paths[8].pixel_co(), (3, 4));
}

#[test]
fn every_sample_of_a_bucket_gets_a_path() {
    let job = BucketJob { x: 10, y: 20, w: 3, h: 2 };
    let paths = bucket_paths(&job, 4, 99);
    assert_eq!(paths.len(), 24);
    for (i, path) in paths.iter().enumerate() {
        let pixel = i / 4;
        let x = 10 + (pixel % 3) as u32;
        let y = 20 + (pixel / 3) as u32;
        let index = hash_u32((x << 16) ^ y, 99).wrapping_add((i % 4) as u32);
        assert_eq!(path.pixel_co(), (x, y));
        assert_eq!(path.lds_offset(), index);
        assert_eq!(path.time(), sample_time(get_sample(2, index)));
        assert_eq!(path.wavelength(), sample_wavelength(get_sample(3, index)));
        assert_eq!(path.event(), LightPathEvent::CameraRay);
        assert_eq!(path.sample_dimensions().light_select, 6);
    }
    assert!(bucket_paths(&job, 0, 99).is_empty());
    let same = pixel_path(11, 20, 99, 2);
    assert_eq!(same.lds_offset(), paths[6].lds_offset());
    assert_eq!(same.time(), paths[6].time());
}

#[test]
fn the_same_seed_gives_the_same_paths() {
    let job = BucketJob { x: 0, y: 0, w: 4, h: 4 };
    let a = bucket_paths(&job, 2, 7);
    let b = bucket_paths(&job, 2, 7);
    let c = bucket_paths(&job, 2, 8);
    assert_eq!(a.len(), b.len());
    let mut differs = false;
    for i in 0..a.len() {
        assert_eq!(a[i].lds_offset(), b[i].lds_offset());
        assert_eq!(a[i].time(), b[i].time());
        assert_eq!(a[i].wavelength(), b[i].wavelength());
        differs = differs || a[i].lds_offset() != c[i].lds_offset();
    }
    assert!(differs);
}

#[test]
fn progress_is_shown_when_the_percentage_changes() {
    assert_eq!(percentage(0, 200), 0);
    assert_eq!(percentage(1, 200), 0);
    assert_eq!(percentage(2, 200), 1);
    assert_eq!(percentage(199, 200), 99);
    assert_eq!(percentage(200, 200), 100);
    assert_eq!(percentage(5, 0), 0);
    assert_eq!(percentage(usize::MAX, usize::MAX), 100);
    assert!(!progress_changed(0, 1, 200));
    assert!(progress_changed(1, 1, 200));
    assert!(progress_changed(0, 64, 256));
    assert!(!progress_changed(10, 0, 256));
    assert!(!progress_changed(3, 4, 0));
}

#[test]
fn partition_puts_the_chosen_first() {
    let mut v = vec![5, 2, 8, 1, 9, 4, 7];
    let n = partition(&mut v, |x: &i32| *x >= 5);
    assert_eq!(n, 4);
    assert_eq!(v, vec![5, 7, 8, 9, 1, 4, 2]);
    let mut w = vec![1, 2, 3, 4, 5, 6];
    let n = partition_range(&mut w, 1, 5, |x: &i32| *x % 2 == 1);
    assert_eq!(n, 2);
    assert_eq!(w, vec![1, 5, 3, 4, 2, 6]);
    let mut none: Vec<i32> = Vec::new();
    assert_eq!(partition(&mut none, |_: &i32| true), 0);
    let mut all = vec![1, 2, 3];
    assert_eq!(partition(&mut all, |_: &i32| true), 3);
    assert_eq!(all, vec![1, 2, 3]);
    assert_eq!(partition(&mut all, |_: &i32| false), 0);
    assert_eq!(all, vec![1, 2, 3]);
}

#[test]
fn two_slices_are_partitioned_in_step() {
    let mut names = vec!["a", "b", "c", "d", "e"];
    let mut numbers = vec![1, 2, 3, 4, 5];
    let keep = [false, true, false, true, true];
    let n = partition_pair(&mut names, &mut numbers, &keep);
    assert_eq!(n, 3);
    assert_eq!(names, vec!["e", "b", "d", "c", "a"]);
    assert_eq!(numbers, vec![5, 2, 4, 3, 1]);
    let mut a: Vec<u8> = Vec::new();
    let mut b: Vec<u8> = Vec::new();
    assert_eq!(partition_pair(&mut a, &mut b, &[]), 0);
}

#[test]
fn samples_are_the_plain_halton_numbers() {
    // The samples are the radical inverse of the index in the prime base of
    // the dimension, rounded down to a fraction of two to the thirty-second;
    // no digit is permuted.
    let primes: [u8; 32] = [
        2, 3, 5, 7, 11, 13, 17, 19, 23, 29, 31, 37, 41, 43, 47, 53, 59, 61, 67, 71, 73, 79, 83,
        89, 97, 101, 103, 107, 109, 113, 127, 131,
    ];
    let unit = 4294967296.0f64;
    for (d, base) in primes.iter().enumerate() {
        assert_eq!(psychopath::sampling::base(d as u32), *base as u64);
        for i in (0u32..2000).chain([65_535u32, 1_000_003, 123_456_789].iter().cloned()) {
            let expected = halton::number(*base, i as usize);
            let ours = get_sample(d as u32, i) as f64 / unit;
            assert!(
                (ours - expected).abs() < 2.0 / unit,
                "dimension {}, index {}: {} and {}",
                d,
                i,
                ours,
                expected
            );
        }
    }
}
