use vstd::prelude::*;
use crate::hash::{hash_u32, spec_hash_u32};
use crate::hilbert::{d2xy, lemma_cells_positive, lemma_hilbert_fills_square, spec_cells, spec_d2xy, spec_side, spec_xy2d};
use crate::light_path::{LightPath, PathState};
use crate::math::{is_upper_power_of_two, isqrt, upper_power_of_two};
use crate::sampling::{
    get_sample,
    sample_time,
    sample_wavelength,
    spec_get_sample,
    spec_sample_time,
    spec_sample_wavelength,
};
use crate::scene::Assembly;

verus! {

/// The dimension of the sample that gives a path its time.
pub const TIME_DIMENSION: u32 = 2;

/// The dimension of the sample that gives a path its wavelength.
pub const WAVELENGTH_DIMENSION: u32 = 3;

/// A rectangle of pixels that one worker renders in one go.
#[derive(Clone, Copy, Debug, PartialEq, Eq, Structural)]
pub struct BucketJob {
    pub x: u32,
    pub y: u32,
    pub w: u32,
    pub h: u32,
}

/// The part of the image that is rendered.
#[derive(Clone, Copy, Debug, PartialEq, Eq, Structural)]
pub struct RenderRegion {
    pub width: usize,
    pub height: usize,
    pub start_x: usize,
    pub start_y: usize,
}

/// What is rendered: a scene, into an image of a given size, with a given
/// number of samples per pixel.
pub struct Renderer<S> {
    pub output_file: String,
    pub resolution: (usize, usize),
    pub spp: usize,
    pub seed: u32,
    pub scene: Assembly<S>,
}

pub open spec fn spec_min_usize(a: usize, b: usize) -> usize {
    if a <= b {
        a
    } else {
        b
    }
}

fn min_usize(a: usize, b: usize) -> (m: usize)
    ensures
        m == spec_min_usize(a, b),
{
    if a <= b {
        a
    } else {
        b
    }
}

/// The part of an image of size `resolution` that is rendered under
/// `crop`: all of it without a crop, and else the rectangle between the
/// corners of the crop, both of which belong to it, moved into the image.
pub open spec fn spec_render_region(
    resolution: (usize, usize),
    crop: Option<(u32, u32, u32, u32)>,
) -> RenderRegion {
    match crop {
        Some((x1, y1, x2, y2)) => {
            let cx1 = spec_min_usize(x1 as usize, (resolution.0 - 1) as usize);
            let cy1 = spec_min_usize(y1 as usize, (resolution.1 - 1) as usize);
            let cx2 = spec_min_usize(x2 as usize, (resolution.0 - 1) as usize);
            let cy2 = spec_min_usize(y2 as usize, (resolution.1 - 1) as usize);
            RenderRegion {
                width: (cx2 - cx1 + 1) as usize,
                height: (cy2 - cy1 + 1) as usize,
                start_x: cx1,
                start_y: cy1,
            }
        },
        None => RenderRegion {
            width: resolution.0,
            height: resolution.1,
            start_x: 0,
            start_y: 0,
        },
    }
}

/// Whether `crop` names two corners in order.
pub open spec fn crop_ok(crop: Option<(u32, u32, u32, u32)>) -> bool {
    match crop {
        Some((x1, y1, x2, y2)) => x1 <= x2 && y1 <= y2,
        None => true,
    }
}

/// The part of an image of size `resolution` that is rendered under
/// `crop`.
pub fn render_region(resolution: (usize, usize), crop: Option<(u32, u32, u32, u32)>) -> (r:
    RenderRegion)
    requires
        crop_ok(crop),
        crop.is_some() ==> resolution.0 >= 1 && resolution.1 >= 1,
    ensures
        r == spec_render_region(resolution, crop),
        r.start_x + r.width <= resolution.0,
        r.start_y + r.height <= resolution.1,
        crop.is_some() ==> r.width >= 1 && r.height >= 1,
{
    match crop {
        Some((x1, y1, x2, y2)) => {
            let cx1: usize = min_usize(x1 as usize, resolution.0 - 1);
            let cy1: usize = min_usize(y1 as usize, resolution.1 - 1);
            let cx2: usize = min_usize(x2 as usize, resolution.0 - 1);
            let cy2: usize = min_usize(y2 as usize, resolution.1 - 1);
            RenderRegion {
                width: cx2 - cx1 + 1,
                height: cy2 - cy1 + 1,
                start_x: cx1,
                start_y: cy1,
            }
        },
        None => RenderRegion {
            width: resolution.0,
            height: resolution.1,
            start_x: 0,
            start_y: 0,
        },
    }
}

/// Whether `dim` is the side of a square bucket for `spp` samples per
/// pixel and at most `max_samples_per_bucket` samples per bucket: the
/// largest with that many samples or fewer, and one if there is none.
pub open spec fn is_bucket_dim(max_samples_per_bucket: u32, spp: usize, dim: usize) -> bool {
    &&& dim >= 1
    &&& dim == 1 || dim * dim * spp <= max_samples_per_bucket
    &&& (dim + 1) * (dim + 1) * spp > max_samples_per_bucket
}

/// The side of the buckets.
pub fn bucket_dim(max_samples_per_bucket: u32, spp: usize) -> (dim: usize)
    requires
        spp >= 1,
    ensures
        is_bucket_dim(max_samples_per_bucket, spp, dim),
        dim <= 0x1_0000,
{
    let pixels: u64 = (max_samples_per_bucket as u64) / (spp as u64);
    let root: u64 = isqrt(pixels);
    proof {
        let q = pixels as int;
        let r = root as int;
        let m = max_samples_per_bucket as int;
        let s = spp as int;
        vstd::arithmetic::div_mod::lemma_fundamental_div_mod(m, s);
        assert(q * s <= m < (q + 1) * s) by (nonlinear_arith)
            requires
                m == s * q + m % s,
                0 <= m % s < s,
        ;
        assert(r * r * s <= m) by (nonlinear_arith)
            requires
                r * r <= q,
                q * s <= m,
                s >= 1,
        ;
        assert((r + 1) * (r + 1) * s > m) by (nonlinear_arith)
            requires
                (r + 1) * (r + 1) >= q + 1,
                m < (q + 1) * s,
                s >= 1,
        ;
        assert(r < 0x1_0000) by (nonlinear_arith)
            requires
                r * r <= q,
                q <= 0xffff_ffff,
                r >= 0,
        ;
        if r == 0 {
            assert((1 + 1) * (1 + 1) * s > m) by (nonlinear_arith)
                requires
                    (r + 1) * (r + 1) * s > m,
                    r == 0,
                    s >= 1,
            ;
        }
    }
    if root < 1 {
        1
    } else {
        root as usize
    }
}

/// The number of cells along one side of the square that the Hilbert
/// curve has to run through to reach every bucket.
pub open spec fn is_grid_side(region: RenderRegion, dim: usize, side: nat) -> bool {
    let across = region.width / dim + 1;
    let down = region.height / dim + 1;
    is_upper_power_of_two(
        if across >= down {
            across as nat
        } else {
            down as nat
        },
        side,
    )
}

/// The bucket that lies in cell number `d` along the Hilbert curve, if that
/// cell lies on the region.
pub open spec fn spec_bucket_at(region: RenderRegion, dim: usize, d: int) -> Option<BucketJob> {
    let (bx, by) = spec_d2xy(d);
    let x = bx * dim;
    let y = by * dim;
    if x < region.width && y < region.height {
        Some(
            BucketJob {
                x: (region.start_x + x) as u32,
                y: (region.start_y + y) as u32,
                w: (if region.width - x < dim {
                    region.width - x
                } else {
                    dim as int
                }) as u32,
                h: (if region.height - y < dim {
                    region.height - y
                } else {
                    dim as int
                }) as u32,
            },
        )
    } else {
        None
    }
}

/// The buckets in the first `count` cells along the Hilbert curve, in the
/// order of the curve.
pub open spec fn spec_bucket_jobs(region: RenderRegion, dim: usize, count: int) -> Seq<BucketJob>
    decreases count,
{
    if count <= 0 {
        Seq::empty()
    } else {
        let before = spec_bucket_jobs(region, dim, count - 1);
        match spec_bucket_at(region, dim, count - 1) {
            Some(job) => before.push(job),
            None => before,
        }
    }
}

/// Whether `job` is a bucket of the region: not empty, no larger than
/// `dim` a side, and within the region.
pub open spec fn job_in_region(job: BucketJob, region: RenderRegion, dim: usize) -> bool {
    &&& 1 <= job.w <= dim
    &&& 1 <= job.h <= dim
    &&& region.start_x <= job.x
    &&& job.x + job.w <= region.start_x + region.width
    &&& region.start_y <= job.y
    &&& job.y + job.h <= region.start_y + region.height
    &&& (job.x - region.start_x) % (dim as int) == 0
    &&& (job.y - region.start_y) % (dim as int) == 0
}

/// Whether `jobs` are the buckets of the region, each within the region, in
/// the order in which the Hilbert curve through a square of `side` cells a
/// side reaches them, and `side` is the smallest power of two for which
/// the square covers the region.
pub open spec fn is_job_list(
    jobs: Seq<BucketJob>,
    region: RenderRegion,
    dim: usize,
    side: nat,
) -> bool {
    &&& is_grid_side(region, dim, side)
    &&& jobs == spec_bucket_jobs(region, dim, (side * side) as int)
    &&& forall|i: int| 0 <= i < jobs.len() ==> job_in_region(#[trigger] jobs[i], region, dim)
}

/// The bucket that lies in cell number `d` along the Hilbert curve, if that
/// cell lies on the region.
fn bucket_at(region: &RenderRegion, dim: usize, d: u64) -> (job: Option<BucketJob>)
    requires
        dim >= 1,
        region.start_x + region.width <= u32::MAX,
        region.start_y + region.height <= u32::MAX,
    ensures
        job == spec_bucket_at(*region, dim, d as int),
        job.is_some() ==> job_in_region(job.unwrap(), *region, dim),
{
    let (bx, by) = d2xy(d);
    assert(0 <= bx * dim <= 0xffff_ffff * 0xffff_ffff_ffff_ffff && 0 <= by * dim <= 0xffff_ffff
        * 0xffff_ffff_ffff_ffff) by (nonlinear_arith)
        requires
            0 <= bx <= 0xffff_ffff,
            0 <= by <= 0xffff_ffff,
            0 <= dim <= 0xffff_ffff_ffff_ffff,
    ;
    let x: u128 = (bx as u128) * (dim as u128);
    let y: u128 = (by as u128) * (dim as u128);
    if x < region.width as u128 && y < region.height as u128 {
        let xs: usize = x as usize;
        let ys: usize = y as usize;
        let w: usize = min_usize(dim, region.width - xs);
        let h: usize = min_usize(dim, region.height - ys);
        proof {
            vstd::arithmetic::div_mod::lemma_mod_multiples_basic(bx as int, dim as int);
            vstd::arithmetic::div_mod::lemma_mod_multiples_basic(by as int, dim as int);
        }
        Some(
            BucketJob {
                x: (region.start_x + xs) as u32,
                y: (region.start_y + ys) as u32,
                w: w as u32,
                h: h as u32,
            },
        )
    } else {
        None
    }
}

/// The buckets of the region, in the order in which the Hilbert curve
/// through the smallest power-of-two square of cells that covers the
/// region reaches them.
pub fn bucket_jobs(region: &RenderRegion, dim: usize) -> (jobs: Vec<BucketJob>)
    requires
        dim >= 1,
        region.start_x + region.width <= u32::MAX,
        region.start_y + region.height <= u32::MAX,
    ensures
        exists|side: nat| #[trigger] is_job_list(jobs@, *region, dim, side),
{
    let across: u64 = (region.width / dim) as u64 + 1;
    let down: u64 = (region.height / dim) as u64 + 1;
    let larger: u64 = if across >= down {
        across
    } else {
        down
    };
    let side: u64 = upper_power_of_two(larger);
    assert(side <= 0x1_0000_0000) by {
        vstd::arithmetic::power2::lemma2_to64();
        assert(larger <= vstd::arithmetic::power2::pow2(32));
    }
    assert(side * side <= 0x1_0000_0000 * 0x1_0000_0000) by (nonlinear_arith)
        requires
            0 <= side <= 0x1_0000_0000,
    ;
    let count: u128 = (side as u128) * (side as u128);
    let mut jobs: Vec<BucketJob> = Vec::new();
    let mut d: u128 = 0;
    while d < count
        invariant
            d <= count,
            count == side * side,
            count <= 0x1_0000_0000 * 0x1_0000_0000,
            dim >= 1,
            region.start_x + region.width <= u32::MAX,
            region.start_y + region.height <= u32::MAX,
            jobs@ == spec_bucket_jobs(*region, dim, d as int),
            forall|i: int| 0 <= i < jobs@.len() ==> job_in_region(#[trigger] jobs@[i], *region, dim),
        decreases count - d,
    {
        match bucket_at(region, dim, d as u64) {
            Some(job) => {
                jobs.push(job);
            },
            None => {},
        }
        d += 1;
    }
    proof {
        assert(is_grid_side(*region, dim, side as nat));
        assert(is_job_list(jobs@, *region, dim, side as nat));
    }
    jobs
}

/// The index in the low-discrepancy sequence of sample `si` of the pixel
/// at `(x, y)`: a hash of the pixel under the seed, plus the number of the
/// sample, modulo two to the thirty-second.
pub open spec fn spec_lds_index(x: u32, y: u32, seed: u32, si: int) -> u32 {
    spec_hash_u32((x.wrapping_shl(16)) ^ y, seed).wrapping_add((si % 0x1_0000_0000) as u32)
}

/// The path of sample `si` of the pixel at `(x, y)` before its camera ray
/// is traced.
pub open spec fn spec_pixel_path(x: u32, y: u32, seed: u32, si: int) -> PathState {
    let index = spec_lds_index(x, y, seed, si);
    PathState::initial(
        (x, y),
        spec_sample_time(spec_get_sample(TIME_DIMENSION, index) as u32),
        spec_sample_wavelength(spec_get_sample(WAVELENGTH_DIMENSION, index) as u32) as u32,
        index,
    )
}

/// Path number `i` of a bucket: the paths run through the rows of the
/// bucket, through the pixels of each row, and through the samples of each
/// pixel.
pub open spec fn spec_bucket_path(job: BucketJob, spp: usize, seed: u32, i: int) -> PathState {
    let pixel = i / (spp as int);
    spec_pixel_path(
        (job.x + pixel % (job.w as int)) as u32,
        (job.y + pixel / (job.w as int)) as u32,
        seed,
        i % (spp as int),
    )
}

/// The path of sample `si` of the pixel at `(x, y)`.
pub fn pixel_path(x: u32, y: u32, seed: u32, si: usize) -> (path: LightPath)
    ensures
        path@ == spec_pixel_path(x, y, seed, si as int),
        path.wf(),
{
    let offset: u32 = hash_u32((x.wrapping_shl(16)) ^ y, seed);
    let index: u32 = offset.wrapping_add((si as u64 % 0x1_0000_0000) as u32);
    LightPath::new(
        (x, y),
        sample_time(get_sample(TIME_DIMENSION, index)),
        sample_wavelength(get_sample(WAVELENGTH_DIMENSION, index)),
        index,
    )
}

/// The paths of the samples of a bucket, each before its camera ray is
/// traced.
pub fn bucket_paths(job: &BucketJob, spp: usize, seed: u32) -> (paths: Vec<LightPath>)
    requires
        job.x + job.w <= u32::MAX,
        job.y + job.h <= u32::MAX,
    ensures
        paths@.len() == job.w * job.h * spp,
        forall|i: int|
            0 <= i < paths@.len() ==> (#[trigger] paths@[i])@ == spec_bucket_path(
                *job,
                spp,
                seed,
                i,
            ),
        forall|i: int| 0 <= i < paths@.len() ==> (#[trigger] paths@[i]).wf(),
{
    let mut paths: Vec<LightPath> = Vec::new();
    let mut yo: u32 = 0;
    while yo < job.h
        invariant
            yo <= job.h,
            job.x + job.w <= u32::MAX,
            job.y + job.h <= u32::MAX,
            paths@.len() == yo * job.w * spp,
            forall|i: int|
                0 <= i < paths@.len() ==> (#[trigger] paths@[i])@ == spec_bucket_path(
                    *job,
                    spp,
                    seed,
                    i,
                ),
            forall|i: int| 0 <= i < paths@.len() ==> (#[trigger] paths@[i]).wf(),
        decreases job.h - yo,
    {
        let mut xo: u32 = 0;
        while xo < job.w
            invariant
                yo < job.h,
                xo <= job.w,
                job.x + job.w <= u32::MAX,
                job.y + job.h <= u32::MAX,
                paths@.len() == (yo * job.w + xo) * spp,
                forall|i: int|
                    0 <= i < paths@.len() ==> (#[trigger] paths@[i])@ == spec_bucket_path(
                        *job,
                        spp,
                        seed,
                        i,
                    ),
                forall|i: int| 0 <= i < paths@.len() ==> (#[trigger] paths@[i]).wf(),
            decreases job.w - xo,
        {
            let mut si: usize = 0;
            while si < spp
                invariant
                    yo < job.h,
                    xo < job.w,
                    si <= spp,
                    job.x + job.w <= u32::MAX,
                    job.y + job.h <= u32::MAX,
                    paths@.len() == (yo * job.w + xo) * spp + si,
                    forall|i: int|
                        0 <= i < paths@.len() ==> (#[trigger] paths@[i])@ == spec_bucket_path(
                            *job,
                            spp,
                            seed,
                            i,
                        ),
                    forall|i: int| 0 <= i < paths@.len() ==> (#[trigger] paths@[i]).wf(),
                decreases spp - si,
            {
                let path: LightPath = pixel_path(job.x + xo, job.y + yo, seed, si);
                proof {
                    let i = paths@.len() as int;
                    let pixel = yo * job.w + xo;
                    vstd::arithmetic::div_mod::lemma_fundamental_div_mod_converse(
                        i,
                        spp as int,
                        pixel,
                        si as int,
                    );
                    vstd::arithmetic::div_mod::lemma_fundamental_div_mod_converse(
                        pixel,
                        job.w as int,
                        yo as int,
                        xo as int,
                    );
                }
                paths.push(path);
                si += 1;
            }
            proof {
                assert((yo * job.w + xo) * spp + spp == (yo * job.w + (xo + 1)) * spp)
                    by (nonlinear_arith);
            }
            xo += 1;
        }
        proof {
            assert((yo * job.w + job.w) * spp == (yo + 1) * job.w * spp) by (nonlinear_arith);
            assert((yo * job.w + 0) * spp == yo * job.w * spp) by (nonlinear_arith);
        }
        yo += 1;
    }
    proof {
        assert(job.h * job.w * spp == job.w * job.h * spp) by (nonlinear_arith);
    }
    paths
}

/// The whole part of the percentage that `done` is of `total`; zero if
/// `total` is zero.
pub open spec fn spec_percentage(done: usize, total: usize) -> int {
    if total == 0 {
        0
    } else {
        done * 100 / (total as int)
    }
}

/// The whole part of the percentage that `done` is of `total`.
pub fn percentage(done: usize, total: usize) -> (p: u128)
    ensures
        p == spec_percentage(done, total),
{
    if total == 0 {
        0
    } else {
        (done as u128) * 100 / (total as u128)
    }
}

/// Whether the progress shown changes when the number of pixels rendered
/// grows from `before` by `added`.
pub fn progress_changed(before: usize, added: usize, total: usize) -> (changed: bool)
    requires
        before + added <= usize::MAX,
    ensures
        changed == (spec_percentage(before, total) != spec_percentage(
            (before + added) as usize,
            total,
        )),
{
    percentage(before, total) != percentage(before + added, total)
}

impl<S> Renderer<S> {
    /// Whether the image is small enough for its pixels to be addressed.
    pub open spec fn resolution_ok(&self) -> bool {
        self.resolution.0 <= u32::MAX && self.resolution.1 <= u32::MAX
    }

    /// The buckets to render, in the order in which to hand them out.
    pub fn bucket_jobs(&self, max_samples_per_bucket: u32, crop: Option<(u32, u32, u32, u32)>) -> (jobs:
        Vec<BucketJob>)
        requires
            self.resolution_ok(),
            self.spp >= 1,
            crop_ok(crop),
            crop.is_some() ==> self.resolution.0 >= 1 && self.resolution.1 >= 1,
        ensures
            exists|side: nat, dim: usize|
                is_bucket_dim(max_samples_per_bucket, self.spp, dim) && #[trigger] is_job_list(
                    jobs@,
                    spec_render_region(self.resolution, crop),
                    dim,
                    side,
                ),
    {
        let region: RenderRegion = render_region(self.resolution, crop);
        let dim: usize = bucket_dim(max_samples_per_bucket, self.spp);
        let jobs = bucket_jobs(&region, dim);
        proof {
            let side = choose|side: nat| #[trigger] is_job_list(jobs@, region, dim, side);
            assert(is_bucket_dim(max_samples_per_bucket, self.spp, dim) && is_job_list(
                jobs@,
                spec_render_region(self.resolution, crop),
                dim,
                side,
            ));
        }
        jobs
    }

    /// The paths of the samples of a bucket, each before its camera ray is
    /// traced.
    pub fn bucket_paths(&self, job: &BucketJob) -> (paths: Vec<LightPath>)
        requires
            job.x + job.w <= u32::MAX,
            job.y + job.h <= u32::MAX,
        ensures
            paths@.len() == job.w * job.h * self.spp,
            forall|i: int|
                0 <= i < paths@.len() ==> (#[trigger] paths@[i])@ == spec_bucket_path(
                    *job,
                    self.spp,
                    self.seed,
                    i,
                ),
            forall|i: int| 0 <= i < paths@.len() ==> (#[trigger] paths@[i]).wf(),
    {
        bucket_paths(job, self.spp, self.seed)
    }
}

/// Whether the pixel `(px, py)` belongs to the bucket `job`.
pub open spec fn job_covers(job: BucketJob, px: int, py: int) -> bool {
    job.x <= px < job.x + job.w && job.y <= py < job.y + job.h
}

/// Powers of two are the sides of the squares of the Hilbert curve.
proof fn lemma_side_is_power(e: nat)
    ensures
        vstd::arithmetic::power2::pow2(e) == spec_side(e),
    decreases e,
{
    vstd::arithmetic::power2::lemma2_to64();
    if e > 0 {
        vstd::arithmetic::power2::lemma_pow2_unfold(e);
        lemma_side_is_power((e - 1) as nat);
    }
}

/// The bucket of a cell on the region is listed at the place that the
/// number of buckets before it gives.
proof fn lemma_job_is_listed(region: RenderRegion, dim: usize, count: int, d: int)
    requires
        0 <= d < count,
        spec_bucket_at(region, dim, d).is_some(),
    ensures
        spec_bucket_jobs(region, dim, d).len() < spec_bucket_jobs(region, dim, count).len(),
        spec_bucket_jobs(region, dim, count)[spec_bucket_jobs(region, dim, d).len() as int]
            == spec_bucket_at(region, dim, d).unwrap(),
    decreases count,
{
    if d < count - 1 {
        lemma_job_is_listed(region, dim, count - 1, d);
    }
}

/// Every bucket listed is the bucket of a cell on the region, and stands
/// at the place that the number of buckets before it gives.
proof fn lemma_listed_job_has_cell(region: RenderRegion, dim: usize, count: int, i: int) -> (d: int)
    requires
        0 <= i < spec_bucket_jobs(region, dim, count).len(),
    ensures
        0 <= d < count,
        spec_bucket_at(region, dim, d) == Some(spec_bucket_jobs(region, dim, count)[i]),
        spec_bucket_jobs(region, dim, d).len() == i,
    decreases count,
{
    if count <= 0 {
        0
    } else {
        let before = spec_bucket_jobs(region, dim, count - 1);
        if i < before.len() {
            lemma_listed_job_has_cell(region, dim, count - 1, i)
        } else {
            count - 1
        }
    }
}

/// The cell of the bucket grid that a pixel of the region lies in.
pub open spec fn spec_pixel_cell(region: RenderRegion, dim: usize, px: int, py: int) -> (int, int) {
    ((px - region.start_x) / (dim as int), (py - region.start_y) / (dim as int))
}

/// A bucket that holds a pixel is the bucket of the cell that the pixel
/// lies in.
proof fn lemma_covering_job_cell(region: RenderRegion, dim: usize, d: int, px: int, py: int)
    requires
        dim >= 1,
        0 <= d,
        region.start_x + region.width <= u32::MAX,
        region.start_y + region.height <= u32::MAX,
        0 <= spec_d2xy(d).0,
        0 <= spec_d2xy(d).1,
        spec_bucket_at(region, dim, d).is_some(),
        job_covers(spec_bucket_at(region, dim, d).unwrap(), px, py),
    ensures
        spec_d2xy(d) == spec_pixel_cell(region, dim, px, py),
        region.start_x <= px < region.start_x + region.width,
        region.start_y <= py < region.start_y + region.height,
{
    let (bx, by) = spec_d2xy(d);
    let x = bx * dim;
    let y = by * dim;
    assert(x >= 0 && y >= 0) by (nonlinear_arith)
        requires
            bx >= 0,
            by >= 0,
            dim >= 1,
            x == bx * dim,
            y == by * dim,
    ;
    let rx = px - region.start_x - x;
    let ry = py - region.start_y - y;
    assert(bx * dim + rx == px - region.start_x);
    assert(by * dim + ry == py - region.start_y);
    vstd::arithmetic::div_mod::lemma_fundamental_div_mod_converse(
        px - region.start_x,
        dim as int,
        bx,
        rx,
    );
    vstd::arithmetic::div_mod::lemma_fundamental_div_mod_converse(
        py - region.start_y,
        dim as int,
        by,
        ry,
    );
}

/// The bucket of the cell that a pixel of the region lies in holds the
/// pixel.
proof fn lemma_cell_job_covers(region: RenderRegion, dim: usize, d: int, px: int, py: int)
    requires
        dim >= 1,
        region.start_x + region.width <= u32::MAX,
        region.start_y + region.height <= u32::MAX,
        region.start_x <= px < region.start_x + region.width,
        region.start_y <= py < region.start_y + region.height,
        spec_d2xy(d) == spec_pixel_cell(region, dim, px, py),
    ensures
        spec_bucket_at(region, dim, d).is_some(),
        job_covers(spec_bucket_at(region, dim, d).unwrap(), px, py),
{
    let (bx, by) = spec_d2xy(d);
    let ox = px - region.start_x;
    let oy = py - region.start_y;
    vstd::arithmetic::div_mod::lemma_fundamental_div_mod(ox, dim as int);
    vstd::arithmetic::div_mod::lemma_fundamental_div_mod(oy, dim as int);
    assert(bx * dim == dim * bx && by * dim == dim * by) by (nonlinear_arith);
    assert(0 <= ox % (dim as int) < dim);
    assert(0 <= oy % (dim as int) < dim);
}

/// The buckets tile the region: every pixel of the region belongs to
/// one bucket of the list and to no other, and no bucket holds a pixel
/// outside the region.
pub proof fn lemma_buckets_tile_region(
    region: RenderRegion,
    dim: usize,
    side: nat,
    px: int,
    py: int,
)
    requires
        dim >= 1,
        region.start_x + region.width <= u32::MAX,
        region.start_y + region.height <= u32::MAX,
        is_grid_side(region, dim, side),
    ensures
        ({
            let jobs = spec_bucket_jobs(region, dim, (side * side) as int);
            let inside = region.start_x <= px < region.start_x + region.width && region.start_y
                <= py < region.start_y + region.height;
            &&& inside ==> exists|i: int| 0 <= i < jobs.len() && job_covers(#[trigger] jobs[i], px, py)
            &&& forall|i: int, j: int|
                0 <= i < jobs.len() && 0 <= j < jobs.len() && job_covers(
                    #[trigger] jobs[i],
                    px,
                    py,
                ) && job_covers(#[trigger] jobs[j], px, py) ==> i == j
            &&& forall|i: int|
                0 <= i < jobs.len() && job_covers(#[trigger] jobs[i], px, py) ==> inside
        }),
{
    let count = (side * side) as int;
    let jobs = spec_bucket_jobs(region, dim, count);
    let across = region.width / dim + 1;
    let down = region.height / dim + 1;
    let larger: nat = if across >= down {
        across as nat
    } else {
        down as nat
    };
    let e = choose|e: nat| side == vstd::arithmetic::power2::pow2(e);
    vstd::arithmetic::power2::lemma2_to64();
    assert(larger <= vstd::arithmetic::power2::pow2(32));
    assert(side <= vstd::arithmetic::power2::pow2(32));
    if e > 32 {
        vstd::arithmetic::power2::lemma_pow2_strictly_increases(32, e);
    }
    assert(e <= 32);
    lemma_side_is_power(e);
    lemma_cells_positive(e);
    lemma_hilbert_fills_square(e);
    assert(count == spec_cells(e));
    let inside = region.start_x <= px < region.start_x + region.width && region.start_y <= py
        < region.start_y + region.height;
    let cell = spec_pixel_cell(region, dim, px, py);
    if inside {
        let ox = px - region.start_x;
        let oy = py - region.start_y;
        vstd::arithmetic::div_mod::lemma_div_is_ordered(ox, region.width as int, dim as int);
        vstd::arithmetic::div_mod::lemma_div_is_ordered(oy, region.height as int, dim as int);
        vstd::arithmetic::div_mod::lemma_div_pos_is_pos(ox, dim as int);
        vstd::arithmetic::div_mod::lemma_div_pos_is_pos(oy, dim as int);
        assert(0 <= cell.0 < side && 0 <= cell.1 < side);
        let d = spec_xy2d(cell.0, cell.1, e);
        assert(spec_d2xy(d) == cell);
        lemma_cell_job_covers(region, dim, d, px, py);
        lemma_job_is_listed(region, dim, count, d);
        let i = spec_bucket_jobs(region, dim, d).len() as int;
        assert(job_covers(jobs[i], px, py));
    }
    assert forall|i: int| 0 <= i < jobs.len() && job_covers(#[trigger] jobs[i], px, py) implies inside by {
        let d = lemma_listed_job_has_cell(region, dim, count, i);
        assert(0 <= spec_d2xy(d).0);
        lemma_covering_job_cell(region, dim, d, px, py);
    }
    assert forall|i: int, j: int|
        0 <= i < jobs.len() && 0 <= j < jobs.len() && job_covers(#[trigger] jobs[i], px, py)
            && job_covers(#[trigger] jobs[j], px, py) implies i == j by {
        let di = lemma_listed_job_has_cell(region, dim, count, i);
        let dj = lemma_listed_job_has_cell(region, dim, count, j);
        assert(0 <= spec_d2xy(di).0 && 0 <= spec_d2xy(dj).0);
        lemma_covering_job_cell(region, dim, di, px, py);
        lemma_covering_job_cell(region, dim, dj, px, py);
        assert(spec_xy2d(spec_d2xy(di).0, spec_d2xy(di).1, e) == di);
        assert(spec_xy2d(spec_d2xy(dj).0, spec_d2xy(dj).1, e) == dj);
    }
}

} // verus!
