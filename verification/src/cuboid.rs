use vstd::prelude::*;
use crate::bbox::{same_geometry, spec_bound_le, BBox};
use crate::boundable::{samples_ok, Boundable};
use crate::lerp::{lerp_slice, spec_lerp_slice, Lerp};
use crate::hits::{
    course, in_space, instance_hit, instance_levels, instance_rests, object_surface, record_agrees,
    recorded_with, records_agree, scene_sound, space_rests, surface_hit, tested_with,
};
use crate::ray::{AccelRay, Ray, FLAG_SHADOW, MAX_T_INFINITY, T_ONE};
use crate::sah::lemma_lerp_slice_wf;
use crate::scene::{
    batch_ok, Assembly, InstanceType, ShaderChoice, Surface, SurfaceIntersection,
};
use crate::traverse::culls;
use crate::transform::Matrix;
use crate::vector::Vector;
use crate::traverse::{all_agree, distinct_ids, hit_depends_on_course, hit_lies_in_bounds, hit_model_ok, id_absent, rays_ok, tested, Intersectable, RayTester};

verus! {

/// A solid box that moves with time: one box per time sample.
#[derive(Debug)]
pub struct Cuboid {
    /// The handle under which hits on the cuboid are recorded.
    pub id: u64,
    /// The box at each time sample.
    pub bounds: Vec<BBox>,
}

/// The lower bound `lo` on a ray parameter in units of `1 / T_ONE`, rounded
/// up; zero if the bound is not above zero.
pub open spec fn spec_bound_t(lo: (int, int)) -> int {
    if lo.0 > 0 && lo.1 > 0 {
        (lo.0 * T_ONE + lo.1 - 1) / lo.1
    } else {
        0
    }
}

pub open spec fn spec_max3(a: int, b: int, c: int) -> int {
    if a >= b && a >= c {
        a
    } else if b >= c {
        b
    } else {
        c
    }
}

/// The parameter at which a ray from `ray.orig` along `ray.dir` enters the
/// box `b`, in units of `1 / T_ONE`, rounded up: the last of the slabs'
/// lower bounds, and zero if the ray starts inside.
pub open spec fn spec_entry(b: BBox, ray: AccelRay) -> int {
    spec_max3(
        spec_bound_t(b.slab_lo(ray.orig, ray.dir, 0)),
        spec_bound_t(b.slab_lo(ray.orig, ray.dir, 1)),
        spec_bound_t(b.slab_lo(ray.orig, ray.dir, 2)),
    )
}

/// The ray with all the reach there is.
pub open spec fn spec_unbounded(ray: AccelRay) -> AccelRay {
    AccelRay { max_t: MAX_T_INFINITY, ..ray }
}

/// The parameter at which `ray` meets the box `b`, however far the ray
/// reaches.
pub open spec fn spec_box_hit(b: BBox, ray: AccelRay) -> Option<u64> {
    if b.spec_intersect_accel_ray(spec_unbounded(ray)) {
        Some(spec_entry(b, ray) as u64)
    } else {
        None
    }
}

/// A bound rounded up lies at or above the bound.
pub proof fn lemma_bound_t(lo: (int, int))
    requires
        lo.1 > 0 || (lo.1 == 0 && lo.0 <= 0),
    ensures
        lo.0 * T_ONE <= spec_bound_t(lo) * lo.1,
        spec_bound_t(lo) >= 0,
        lo.0 <= 0x4000_0000 ==> spec_bound_t(lo) <= 0x4000_0000 * T_ONE,
{
    let n = lo.0;
    let d = lo.1;
    let t = T_ONE as int;
    if n > 0 && d > 0 {
        let x = n * t;
        assert(x > 0) by (nonlinear_arith)
            requires
                n > 0,
                t > 0,
                x == n * t,
        ;
        vstd::arithmetic::div_mod::lemma_fundamental_div_mod(x + d - 1, d);
        let q = (x + d - 1) / d;
        let r = (x + d - 1) % d;
        assert(q >= 0 && x <= q * d) by (nonlinear_arith)
            requires
                x + d - 1 == d * q + r,
                0 <= r < d,
                x > 0,
                d > 0,
        ;
        if n <= 0x4000_0000 {
            assert(q <= 0x4000_0000 * t) by (nonlinear_arith)
                requires
                    x + d - 1 == d * q + r,
                    0 <= r < d,
                    x == n * t,
                    n <= 0x4000_0000,
                    t > 0,
                    d >= 1,
            ;
        }
    } else {
        assert(n * t <= 0 && 0 * d == 0) by (nonlinear_arith)
            requires
                n <= 0,
                t > 0,
        ;
    }
}

/// The lower bound that the slab of axis `n` puts on the parameter of
/// `ray`, in units of `1 / T_ONE`, rounded up; zero if the slab puts none
/// above zero.
fn slab_entry(b: &BBox, ray: &AccelRay, n: usize) -> (t: u64)
    requires
        b.wf(),
        ray.wf(),
        n < 3,
    ensures
        t == spec_bound_t(b.slab_lo(ray.orig, ray.dir, n as int)),
{
    proof {
        lemma_bound_t(b.slab_lo(ray.orig, ray.dir, n as int));
    }
    match b.slab_bounds(ray, n) {
        Some((lo, _)) => {
            if lo.0 > 0 && lo.1 > 0 {
                assert(lo.0 * 0x1_0000 <= 0x4000_0000 * 0x1_0000) by (nonlinear_arith)
                    requires
                        lo.0 <= 0x4000_0000,
                ;
                ((lo.0 * 0x1_0000 + lo.1 - 1) / lo.1) as u64
            } else {
                0
            }
        },
        None => 0,
    }
}

/// The parameter at which `ray` meets the box `b`, however far the ray
/// reaches.
pub fn box_hit(b: &BBox, ray: &AccelRay) -> (hit: Option<u64>)
    requires
        b.wf(),
        ray.wf(),
    ensures
        hit == spec_box_hit(*b, *ray),
{
    let unbounded = AccelRay { max_t: MAX_T_INFINITY, ..*ray };
    if !b.intersect_accel_ray(&unbounded) {
        return None;
    }
    let tx: u64 = slab_entry(b, ray, 0);
    let ty: u64 = slab_entry(b, ray, 1);
    let tz: u64 = slab_entry(b, ray, 2);
    if tx >= ty && tx >= tz {
        Some(tx)
    } else if ty >= tz {
        Some(ty)
    } else {
        Some(tz)
    }
}

impl Boundable for Cuboid {
    open spec fn spec_bounds(&self) -> Seq<BBox> {
        self.bounds@
    }

    fn bounds(&self) -> (r: &[BBox]) {
        self.bounds.as_slice()
    }
}

/// The parameter at which `ray` enters the box that the samples `bounds`
/// give for the time of the ray.
pub open spec fn spec_bounds_hit(bounds: Seq<BBox>, ray: AccelRay) -> Option<u64> {
    spec_box_hit(spec_lerp_slice(bounds, ray.time as int), ray)
}

/// Where a ray enters a box depends only on where the ray runs.
pub proof fn lemma_bounds_hit_geometry(bounds: Seq<BBox>, a: AccelRay, b: AccelRay)
    requires
        same_geometry(a, b),
    ensures
        spec_bounds_hit(bounds, a) == spec_bounds_hit(bounds, b),
{
    let bx = spec_lerp_slice(bounds, a.time as int);
    let ua = spec_unbounded(a);
    let ub = spec_unbounded(b);
    assert(bx.spec_intersect_accel_ray(ua) == bx.spec_intersect_accel_ray(ub)) by {
        if bx.spec_intersect_accel_ray(ua) {
            crate::bbox::lemma_intersect_monotone(bx, bx, ub, ua);
        }
        if bx.spec_intersect_accel_ray(ub) {
            crate::bbox::lemma_intersect_monotone(bx, bx, ua, ub);
        }
    }
}

/// A ray that enters a box within its reach passes through the box.
pub proof fn lemma_bounds_hit_in_bounds(bounds: Seq<BBox>, ray: AccelRay)
    requires
        ray.wf(),
        bounds.len() > 0,
        samples_ok(bounds, bounds.len()),
        spec_bounds_hit(bounds, ray).is_some(),
        spec_bounds_hit(bounds, ray).unwrap() < ray.max_t,
    ensures
        spec_lerp_slice(bounds, ray.time as int).spec_intersect_accel_ray(ray),
{
    let bx = spec_lerp_slice(bounds, ray.time as int);
    let un = spec_unbounded(ray);
    let t = spec_entry(bx, ray);
    lemma_lerp_slice_wf(bounds, ray.time as int);
    lemma_bound_t(bx.slab_lo(ray.orig, ray.dir, 0));
    lemma_bound_t(bx.slab_lo(ray.orig, ray.dir, 1));
    lemma_bound_t(bx.slab_lo(ray.orig, ray.dir, 2));
    assert forall|n: int| 0 <= n < 3 implies #[trigger] bx.slab_open(ray.orig, ray.dir, n) by {
        assert(bx.slab_open(un.orig, un.dir, n));
    }
    assert forall|i: int, j: int| 0 <= i < 4 && 0 <= j < 4 implies spec_bound_le(
        #[trigger] bx.ray_lo(ray, i),
        #[trigger] bx.ray_hi(ray, j),
    ) by {
        let lo = bx.ray_lo(ray, i);
        let hi = bx.ray_hi(ray, j);
        assert(spec_bound_le(bx.ray_lo(un, i), bx.ray_hi(un, j)));
        if j == 3 {
            if i < 3 {
                lemma_bound_t(lo);
                let bt = spec_bound_t(lo);
                assert(bt <= t);
                assert(lo.0 * T_ONE <= ray.max_t * lo.1) by (nonlinear_arith)
                    requires
                        lo.0 * T_ONE <= bt * lo.1,
                        bt <= t,
                        t < ray.max_t,
                        lo.1 >= 0,
                ;
            }
        }
    }
}

impl Intersectable for Cuboid {
    /// A ray meets a cuboid where it enters the box that the cuboid is at
    /// the time of the ray.
    open spec fn spec_hit(&self, ray: AccelRay) -> Option<u64> {
        spec_bounds_hit(self.bounds@, ray)
    }
}

/// Cuboids are met where their bounds say, and the same by rays that run
/// the same.
pub proof fn lemma_cuboids_model_ok(objs: Seq<Cuboid>)
    ensures
        hit_model_ok(objs),
{
    assert forall|k: int| 0 <= k < objs.len() implies hit_depends_on_course(#[trigger] objs[k])
        && hit_lies_in_bounds(objs[k]) by {
        let obj = objs[k];
        assert forall|a: AccelRay, b: AccelRay| same_geometry(a, b) implies #[trigger] obj.spec_hit(
            a,
        ) == #[trigger] obj.spec_hit(b) by {
            lemma_bounds_hit_geometry(obj.bounds@, a, b);
        }
        assert forall|ray: AccelRay|
            ray.wf() && obj.spec_bounds().len() > 0 && samples_ok(
                obj.spec_bounds(),
                obj.spec_bounds().len(),
            ) && (#[trigger] obj.spec_hit(ray)).is_some() && obj.spec_hit(ray).unwrap()
                < ray.max_t implies spec_lerp_slice(
            obj.spec_bounds(),
            ray.time as int,
        ).spec_intersect_accel_ray(ray) by {
            lemma_bounds_hit_in_bounds(obj.bounds@, ray);
        }
    }
}

/// Records for each ray the nearest cuboid that it meets.
pub struct ClosestHits {
    /// What each world ray has found; rays whose number lies beyond the
    /// end are not recorded.
    pub isects: Vec<SurfaceIntersection>,
}

impl ClosestHits {
    /// A record for `count` world rays that have found nothing yet.
    pub fn new(count: usize) -> (hits: ClosestHits)
        ensures
            hits.isects@.len() == count,
            forall|i: int| 0 <= i < count ==> #[trigger] hits.isects@[i] == SurfaceIntersection::Miss,
            forall|ray: AccelRay|
                ray.max_t == MAX_T_INFINITY && !ray.spec_is_done() ==> #[trigger] hits.agrees(ray),
    {
        let mut isects: Vec<SurfaceIntersection> = Vec::new();
        let mut i: usize = 0;
        while i < count
            invariant
                i <= count,
                isects@.len() == i,
                forall|j: int| 0 <= j < i ==> #[trigger] isects@[j] == SurfaceIntersection::Miss,
            decreases count - i,
        {
            isects.push(SurfaceIntersection::Miss);
            i += 1;
        }
        ClosestHits { isects }
    }
}

impl RayTester<Cuboid> for ClosestHits {
    open spec fn inv(&self) -> bool {
        true
    }

    /// A ray of which a hit is on record reaches as far as the hit, a ray
    /// of which none is on record has all the reach there is, and only
    /// shadow rays are done.
    open spec fn agrees(&self, ray: AccelRay) -> bool {
        ray.id < self.isects@.len() ==> {
            &&& ray.spec_is_done() ==> ray.flags & FLAG_SHADOW != 0
            &&& match self.isects@[ray.id as int] {
                SurfaceIntersection::Hit { t, .. } => ray.max_t == t && t < MAX_T_INFINITY,
                SurfaceIntersection::Miss => ray.max_t == MAX_T_INFINITY,
            }
        }
    }

    /// Draws in the reach of every ray that meets the cuboid within its
    /// reach, records the hit, and marks the ray as done if it is a shadow
    /// ray, to which any hit is as good as the nearest.
    fn test(&mut self, obj: &Cuboid, rays: &mut [AccelRay]) {
        let mut j: usize = 0;
        while j < rays.len()
            invariant
                j <= rays@.len(),
                rays@.len() == old(rays)@.len(),
                obj.spec_bounds().len() > 0,
                samples_ok(obj.spec_bounds(), obj.spec_bounds().len()),
                distinct_ids(old(rays)@),
                self.isects@.len() == old(self).isects@.len(),
                forall|i: int| j <= i < rays@.len() ==> #[trigger] rays@[i] == old(rays)@[i],
                forall|i: int| 0 <= i < rays@.len() ==> (#[trigger] rays@[i]).wf(),
                forall|i: int| 0 <= i < rays@.len() ==> (#[trigger] rays@[i]).id == old(rays)@[i].id,
                forall|i: int| 0 <= i < j ==> tested(*obj, #[trigger] old(rays)@[i], rays@[i]),
                forall|i: int| 0 <= i < rays@.len() ==> self.agrees(#[trigger] rays@[i]),
                forall|r: AccelRay|
                    old(self).agrees(r) && id_absent(old(rays)@, r.id) ==> #[trigger] self.agrees(r),
            decreases rays@.len() - j,
        {
            let mut ray: AccelRay = rays[j];
            let ghost before = ray;
            let ghost rays1 = rays@;
            let ghost hits1 = *self;
            assert(before == old(rays)@[j as int]);
            if !ray.is_done() {
                let boxes: &[BBox] = obj.bounds();
                assert forall|i: int| 0 <= i < boxes@.len() implies (#[trigger] boxes@[i]).lerp_ok() by {
                    assert(boxes@[i].wf());
                }
                let b: BBox = lerp_slice(boxes, ray.time);
                match box_hit(&b, &ray) {
                    Some(t) => {
                        if t < ray.max_t {
                            ray.max_t = t;
                            let id: usize = ray.id as usize;
                            if id < self.isects.len() {
                                self.isects[id] = SurfaceIntersection::Hit {
                                    t,
                                    handle: obj.id,
                                    shader: ShaderChoice::Unassigned,
                                };
                            }
                            if ray.flags & FLAG_SHADOW != 0 {
                                let ghost f: u32 = ray.flags;
                                assert((f | crate::ray::FLAG_DONE) & FLAG_SHADOW == f
                                    & FLAG_SHADOW) by (bit_vector);
                                ray.mark_done();
                            }
                            proof {
                                lemma_bounds_hit_geometry(obj.bounds@, before, ray);
                                assert(self.agrees(ray));
                            }
                        }
                    },
                    None => {},
                }
            }
            rays[j] = ray;
            proof {
                assert(self.agrees(ray)) by {
                    if ray == before && self.isects@ == hits1.isects@ {
                        assert(hits1.agrees(rays1[j as int]));
                    }
                }
                assert forall|i: int| 0 <= i < rays@.len() implies self.agrees(
                    #[trigger] rays@[i],
                ) by {
                    if i != j {
                        assert(rays@[i] == rays1[i]);
                        assert(hits1.agrees(rays1[i]));
                        if i < j {
                            assert(old(rays)@[i].id != old(rays)@[j as int].id);
                        } else {
                            assert(old(rays)@[j as int].id != old(rays)@[i].id);
                        }
                    }
                }
                assert forall|r: AccelRay|
                    old(self).agrees(r) && id_absent(old(rays)@, r.id) implies #[trigger] self.agrees(
                    r,
                ) by {
                    assert(hits1.agrees(r));
                    assert(old(rays)@[j as int].id != r.id);
                }
            }
            j += 1;
        }
    }
}

/// A ray meets a box on the lattice within the lattice.
pub proof fn lemma_box_hit_bounded(b: BBox, ray: AccelRay)
    requires
        b.wf(),
        ray.wf(),
    ensures
        spec_box_hit(b, ray).is_some() ==> spec_box_hit(b, ray).unwrap() < MAX_T_INFINITY,
{
    lemma_bound_t(b.slab_lo(ray.orig, ray.dir, 0));
    lemma_bound_t(b.slab_lo(ray.orig, ray.dir, 1));
    lemma_bound_t(b.slab_lo(ray.orig, ray.dir, 2));
}

/// After a walk with a record of the nearest hits, begun with rays that had
/// all the reach there is: a ray that is no shadow ray has a hit on record if
/// and only if it meets one of the objects, and the hit lies where the ray
/// meets the nearest of them, which is where its reach ends.
pub proof fn lemma_nearest_hit_on_record(
    objs: Seq<Cuboid>,
    hits: ClosestHits,
    first: Seq<AccelRay>,
    rays: Seq<AccelRay>,
    j: int,
)
    requires
        objs.len() > 0 ==> crate::boundable::objects_ok(objs, objs[0].spec_bounds().len())
            && objs[0].spec_bounds().len() > 0,
        crate::traverse::descends(objs, first, rays),
        rays_ok(rays),
        forall|i: int| 0 <= i < first.len() ==> (#[trigger] first[i]).max_t == MAX_T_INFINITY,
        forall|i: int, k: int|
            0 <= i < rays.len() && 0 <= k < objs.len() ==> #[trigger] crate::traverse::settled_at(
                objs,
                rays,
                i,
                k,
            ),
        all_agree(hits, rays),
        0 <= j < rays.len(),
        rays[j].id < hits.isects@.len(),
        rays[j].flags & FLAG_SHADOW == 0,
    ensures
        (forall|k: int| 0 <= k < objs.len() ==> (#[trigger] objs[k]).spec_hit(rays[j]).is_none())
            ==> rays[j].max_t == MAX_T_INFINITY && hits.isects@[rays[j].id as int]
            == SurfaceIntersection::Miss,
        (exists|k: int| 0 <= k < objs.len() && (#[trigger] objs[k]).spec_hit(rays[j]).is_some())
            ==> {
            &&& hits.isects@[rays[j].id as int] is Hit
            &&& hits.isects@[rays[j].id as int]->t == rays[j].max_t
            &&& exists|k: int|
                0 <= k < objs.len() && (#[trigger] objs[k]).spec_hit(rays[j]) == Some(
                    rays[j].max_t,
                )
            &&& forall|k: int|
                0 <= k < objs.len() && (#[trigger] objs[k]).spec_hit(rays[j]).is_some()
                    ==> rays[j].max_t <= objs[k].spec_hit(rays[j]).unwrap()
        },
{
    let ray = rays[j];
    assert(crate::traverse::has_ancestor(objs, first, ray));
    let i = choose|i: int|
        0 <= i < first.len() && crate::traverse::advanced(objs, #[trigger] first[i], ray);
    let origin = first[i];
    lemma_cuboids_model_ok(objs);
    assert(hits.agrees(ray));
    assert(ray.wf());
    assert forall|k: int| 0 <= k < objs.len() implies (#[trigger] objs[k]).spec_hit(ray)
        == objs[k].spec_hit(origin) && (objs[k].spec_hit(ray).is_some() ==> ray.max_t
        <= objs[k].spec_hit(ray).unwrap() && objs[k].spec_hit(ray).unwrap() < MAX_T_INFINITY) by {
        assert(hit_depends_on_course(objs[k]));
        assert(crate::traverse::settled_at(objs, rays, j, k));
        assert(samples_ok(objs[k].spec_bounds(), objs[0].spec_bounds().len()));
        lemma_lerp_slice_wf(objs[k].bounds@, ray.time as int);
        lemma_box_hit_bounded(spec_lerp_slice(objs[k].bounds@, ray.time as int), ray);
    }
    if ray.max_t != origin.max_t {
        let w = choose|w: int|
            0 <= w < objs.len() && (#[trigger] objs[w]).spec_hit(origin) == Some(ray.max_t);
        assert(objs[w].spec_hit(ray) == Some(ray.max_t));
    }
}

/// Where a ray enters a box depends only on origin, direction and time of
/// the ray.
pub proof fn lemma_bounds_hit_course(bounds: Seq<BBox>, a: AccelRay, b: AccelRay)
    requires
        a.orig == b.orig,
        a.dir == b.dir,
        a.time == b.time,
    ensures
        spec_bounds_hit(bounds, a) == spec_bounds_hit(bounds, b),
{
    let named = AccelRay { id: b.id, ..a };
    lemma_bounds_hit_geometry(bounds, named, b);
    let bx = spec_lerp_slice(bounds, a.time as int);
    let ua = spec_unbounded(a);
    let un = spec_unbounded(named);
    assert(bx.spec_intersect_accel_ray(un) == bx.spec_intersect_accel_ray(ua)) by {
        if bx.spec_intersect_accel_ray(ua) {
            crate::bbox::lemma_intersect_monotone(bx, bx, un, ua);
        }
        if bx.spec_intersect_accel_ray(un) {
            crate::bbox::lemma_intersect_monotone(bx, bx, ua, un);
        }
    }
    assert(spec_entry(bx, named) == spec_entry(bx, a));
}

impl Cuboid {
    /// Whether the cuboid has a box for one time sample at least, and
    /// all its boxes lie on the lattice.
    pub open spec fn spec_is_solid(&self) -> bool {
        self.bounds@.len() > 0 && samples_ok(self.bounds@, self.bounds@.len())
    }

    /// Whether the cuboid has a box for one time sample at least, and
    /// all its boxes lie on the lattice.
    pub fn is_solid(&self) -> (r: bool)
        ensures
            r == self.spec_is_solid(),
    {
        if self.bounds.len() == 0 {
            return false;
        }
        let mut k: usize = 0;
        while k < self.bounds.len()
            invariant
                k <= self.bounds@.len(),
                forall|t: int| 0 <= t < k ==> (#[trigger] self.bounds@[t]).wf(),
            decreases self.bounds@.len() - k,
        {
            if !(self.bounds[k].min.in_range() && self.bounds[k].max.in_range()) {
                assert(!self.bounds@[k as int].wf());
                return false;
            }
            k += 1;
        }
        true
    }
}

impl Surface for Cuboid {
    /// A ray meets a solid cuboid where it enters the box that the cuboid
    /// is at the time of the ray, and never meets one that is not solid.
    open spec fn spec_hit_at(&self, orig: Vector, dir: Vector, time: u32) -> Option<u64> {
        if self.spec_is_solid() {
            spec_bounds_hit(
                self.bounds@,
                AccelRay { orig, dir, max_t: 0, time, flags: 0, id: 0 },
            )
        } else {
            None
        }
    }

    /// Hits on a cuboid are recorded under its `id`.
    open spec fn spec_handle(&self) -> u64 {
        self.id
    }

    /// Draws in the reach of every ray that meets the cuboid within its
    /// reach, records the hit under the handle of the cuboid and with
    /// `shader`, and marks the ray as done if it is a shadow ray.
    fn intersect_rays(
        &self,
        accel_rays: &mut [AccelRay],
        wrays: &[Ray],
        isects: &mut [SurfaceIntersection],
        shader: ShaderChoice,
        space: &[Matrix],
    ) {
        if !self.is_solid() {
            return ;
        }
        let mut j: usize = 0;
        while j < accel_rays.len()
            invariant
                j <= accel_rays@.len(),
                accel_rays@.len() == old(accel_rays)@.len(),
                isects@.len() == wrays@.len(),
                self.spec_is_solid(),
                batch_ok(old(accel_rays)@, wrays@.len() as int),
                distinct_ids(old(accel_rays)@),
                forall|i: int|
                    j <= i < accel_rays@.len() ==> #[trigger] accel_rays@[i] == old(accel_rays)@[i],
                forall|i: int|
                    0 <= i < accel_rays@.len() ==> (#[trigger] accel_rays@[i]).wf()
                        && accel_rays@[i].id == old(accel_rays)@[i].id,
                forall|i: int|
                    0 <= i < j ==> tested_with(
                        self.spec_hit_at(
                            old(accel_rays)@[i].orig,
                            old(accel_rays)@[i].dir,
                            old(accel_rays)@[i].time,
                        ),
                        #[trigger] old(accel_rays)@[i],
                        accel_rays@[i],
                    ),
                records_agree(isects@, wrays@, accel_rays@),
                forall|i: int|
                    0 <= i < j ==> recorded_with(
                        old(isects)@,
                        isects@,
                        #[trigger] old(accel_rays)@[i],
                        accel_rays@[i],
                        self.id,
                        shader,
                    ),
                forall|i: int|
                    j <= i < accel_rays@.len() ==> isects@[(#[trigger] old(accel_rays)@[i]).id as int]
                        == old(isects)@[old(accel_rays)@[i].id as int],
                forall|i: int|
                    0 <= i < wrays@.len() && id_absent(old(accel_rays)@, i as u32)
                        ==> #[trigger] isects@[i] == old(isects)@[i],
            decreases accel_rays@.len() - j,
        {
            let mut ray: AccelRay = accel_rays[j];
            let ghost before = ray;
            let ghost rays1 = accel_rays@;
            let ghost found1 = isects@;
            assert(before == old(accel_rays)@[j as int]);
            assert(record_agrees(found1, wrays@, rays1[j as int]));
            if !ray.is_done() {
                let boxes: &[BBox] = self.bounds.as_slice();
                assert forall|i: int| 0 <= i < boxes@.len() implies (#[trigger] boxes@[i]).lerp_ok() by {
                    assert(boxes@[i].wf());
                }
                proof {
                    lemma_lerp_slice_wf(boxes@, ray.time as int);
                }
                let b: BBox = lerp_slice(boxes, ray.time);
                proof {
                    lemma_bounds_hit_course(
                        self.bounds@,
                        before,
                        AccelRay {
                            orig: before.orig,
                            dir: before.dir,
                            max_t: 0,
                            time: before.time,
                            flags: 0,
                            id: 0,
                        },
                    );
                }
                match box_hit(&b, &ray) {
                    Some(t) => {
                        if t < ray.max_t {
                            ray.max_t = t;
                            let id: usize = ray.id as usize;
                            isects[id] = SurfaceIntersection::Hit { t, handle: self.id, shader };
                            if ray.flags & FLAG_SHADOW != 0 {
                                let ghost f: u32 = ray.flags;
                                assert((f | crate::ray::FLAG_DONE) & FLAG_SHADOW == f
                                    & FLAG_SHADOW) by (bit_vector);
                                ray.mark_done();
                            }
                        }
                    },
                    None => {},
                }
            }
            accel_rays[j] = ray;
            proof {
                assert(record_agrees(isects@, wrays@, ray));
                assert forall|i: int| 0 <= i < accel_rays@.len() implies record_agrees(
                    isects@,
                    wrays@,
                    #[trigger] accel_rays@[i],
                ) by {
                    if i != j {
                        assert(accel_rays@[i] == rays1[i]);
                        assert(record_agrees(found1, wrays@, rays1[i]));
                        if i < j {
                            assert(old(accel_rays)@[i].id != old(accel_rays)@[j as int].id);
                        } else {
                            assert(old(accel_rays)@[j as int].id != old(accel_rays)@[i].id);
                        }
                    }
                }
                assert forall|i: int| 0 <= i < j + 1 implies recorded_with(
                    old(isects)@,
                    isects@,
                    #[trigger] old(accel_rays)@[i],
                    accel_rays@[i],
                    self.id,
                    shader,
                ) by {
                    if i < j {
                        assert(accel_rays@[i] == rays1[i]);
                        assert(recorded_with(
                            old(isects)@,
                            found1,
                            old(accel_rays)@[i],
                            rays1[i],
                            self.id,
                            shader,
                        ));
                        assert(old(accel_rays)@[i].id != old(accel_rays)@[j as int].id);
                    } else {
                        assert(found1[before.id as int] == old(isects)@[before.id as int]);
                    }
                }
                assert forall|i: int| j + 1 <= i < accel_rays@.len() implies isects@[(
                #[trigger] old(accel_rays)@[i]).id as int] == old(isects)@[old(accel_rays)@[i].id as int] by {
                    assert(old(accel_rays)@[j as int].id != old(accel_rays)@[i].id);
                    assert(found1[old(accel_rays)@[i].id as int] == old(isects)@[old(
                        accel_rays,
                    )@[i].id as int]);
                }
                assert forall|i: int|
                    0 <= i < wrays@.len() && id_absent(
                        old(accel_rays)@,
                        i as u32,
                    ) implies #[trigger] isects@[i] == old(isects)@[i] by {
                    assert(old(accel_rays)@[j as int].id != i as u32);
                    assert(found1[i] == old(isects)@[i]);
                }
            }
            j += 1;
        }
    }
}

/// Whether `a` is a scene of cuboids that stand where they are: every
/// instance places a cuboid, without a transform, and has the boxes of
/// the cuboid for its bounds.
pub open spec fn cuboids_in_place(a: &Assembly<Cuboid>) -> bool {
    forall|k: int|
        0 <= k < a.instances@.len() ==> {
            let inst = #[trigger] a.instances@[k];
            &&& inst.instance_type == InstanceType::Object
            &&& inst.transform_indices.is_none()
            &&& inst.data_index < a.objects@.len()
            &&& inst.bounds@ == object_surface(a.objects@[inst.data_index as int]).bounds@
        }
}

/// In a scene of cuboids that stand where they are, the bounds of the
/// instances hold what the instances place: the tracer leaves nothing out.
pub proof fn lemma_cuboids_in_place_sound(
    a: &Assembly<Cuboid>,
    levels: Seq<Seq<Matrix>>,
    wrays: Seq<Ray>,
)
    requires
        cuboids_in_place(a),
    ensures
        scene_sound(a, levels, wrays),
{
    let rests = space_rests(a, levels, wrays);
    assert forall|k: int, ray: AccelRay|
        0 <= k < a.instances@.len() && ray.wf() && a.instances@[k].spec_bounds().len() > 0
            && samples_ok(a.instances@[k].spec_bounds(), a.instances@[k].spec_bounds().len()) && (
        ray.spec_is_done() || !spec_lerp_slice(
            a.instances@[k].spec_bounds(),
            ray.time as int,
        ).spec_intersect_accel_ray(ray)) implies #[trigger] rests(k, ray) by {
        let inst = a.instances@[k];
        let cuboid = object_surface(a.objects@[inst.data_index as int]);
        if in_space(ray, wrays, levels) && !ray.spec_is_done() {
            assert(instance_levels(a, inst, levels) == levels);
            let c = course(ray.id, ray.time, wrays, levels);
            assert(cuboid.spec_is_solid());
            lemma_bounds_hit_course(
                cuboid.bounds@,
                ray,
                AccelRay { orig: c.orig, dir: c.dir, max_t: 0, time: c.time, flags: 0, id: 0 },
            );
            assert(surface_hit(cuboid, levels, wrays, ray.id, ray.time) == spec_bounds_hit(
                cuboid.bounds@,
                ray,
            ));
            assert forall|t: u64| #[trigger]
                instance_hit(a, inst, levels, wrays, ray.id, ray.time, t) implies ray.max_t
                <= t by {
                if t < ray.max_t {
                    lemma_bounds_hit_in_bounds(cuboid.bounds@, ray);
                }
            }
            assert(instance_rests(a, inst, levels, wrays, ray));
        }
    }
    assert(culls(a.instances@, rests));
}

} // verus!
