use vstd::prelude::*;
use crate::algorithm::{
    lemma_count_agrees,
    lemma_partition_agrees,
    lemma_partition_properties,
    lemma_permuted_rearranged,
    lemma_rearranged_all,
    lemma_rearranged_step,
    rearranged_in,
    partition_range,
    pred_answers,
    pred_decides,
    pred_fn,
    spec_count,
    spec_partition,
};
use crate::lerp::{lerp_slice, Lerp};
use crate::ray::{AccelRay, Ray};
use crate::scene::{
    batch_ok, shader_choice, spec_shader_choice, world_rays_ok, Assembly, InstanceType, Object,
    ShaderChoice, Surface, SurfaceIntersection,
};
use crate::transform::Matrix;
use crate::transform_stack::TransformStack;
use crate::hits::{
    all_in_space, all_rest, all_rest_at, assembly_hits, assembly_marks, follows_in, found_kept,
    fresh_rays, id_absent_in, in_space, in_top, instance_hits, instance_levels, instance_marks,
    instance_rests, leaf_rests, lemma_assembly_mark_of_instance, lemma_assembly_rests,
    lemma_follows_extend, lemma_follows_heir, lemma_follows_outside, lemma_follows_pointwise,
    lemma_follows_refl, lemma_follows_source, lemma_follows_step, lemma_follows_trans,
    lemma_follows_weaken, lemma_follows_widen, lemma_found_kept_refl, lemma_found_kept_step,
    lemma_instance_hit_in_assembly, lemma_instance_mark_in_assembly, lemma_instance_of_assembly,
    lemma_instance_of_object, lemma_leaf_rests_step, lemma_marks_after_object,
    lemma_marks_within_trans, lemma_moved, lemma_reordered, lemma_rests_extend,
    lemma_rests_follow, lemma_rests_stable, lemma_space_kept, lemma_traced_finds, mark_ok,
    marks_ok, marks_within, nothing_met, object_surface, record_agrees, record_attained,
    record_nearest, recorded_with, records_agree, scene_sound, space_rests, spec_accel,
    spec_shader_of, tested_with, traced,
};
use crate::traverse::{culls, distinct_ids, id_absent, rays_ok, Traverser};

verus! {

/// Whether a ray runs towards higher coordinates, or keeps its coordinate,
/// along `axis`.
pub open spec fn axis_positive(axis: int) -> spec_fn(AccelRay) -> bool {
    |r: AccelRay| r.dir.at(axis) >= 0
}

/// Whether the rays from `a` up to `b` all run along `axis` the way that
/// `positive` says.
#[verifier::opaque]
pub open spec fn all_signed(s: Seq<AccelRay>, a: int, b: int, axis: int, positive: bool) -> bool {
    forall|k: int| a <= k < b ==> ((#[trigger] s[k]).dir.at(axis) >= 0) == positive
}

/// The rays after those from `lo` up to `hi` have been partitioned by
/// their direction along `axis`, and where the rays of negative direction
/// begin.
pub open spec fn spec_split_axis(s: Seq<AccelRay>, axis: int, lo: int, hi: int) -> (
    Seq<AccelRay>,
    int,
) {
    (
        spec_partition(s, axis_positive(axis), lo, hi),
        lo + spec_count(s, axis_positive(axis), lo, hi),
    )
}

/// The rays from `lo` up to `hi` sorted into the eight octants of their
/// direction, and the nine places where the octants begin and end: the
/// rays are partitioned by their direction along the first axis, each half
/// by the direction along the second, and each quarter by the direction
/// along the third.
pub open spec fn spec_split(s: Seq<AccelRay>, lo: int, hi: int) -> (Seq<AccelRay>, Seq<int>) {
    let (a, s4) = spec_split_axis(s, 0, lo, hi);
    let (b, s2) = spec_split_axis(a, 1, lo, s4);
    let (c, s6) = spec_split_axis(b, 1, s4, hi);
    let (d, s1) = spec_split_axis(c, 2, lo, s2);
    let (e, s3) = spec_split_axis(d, 2, s2, s4);
    let (f, s5) = spec_split_axis(e, 2, s4, s6);
    let (g, s7) = spec_split_axis(f, 2, s6, hi);
    (g, seq![lo, s1, s2, s3, s4, s5, s6, s7, hi])
}

/// Partitions the rays from `lo` up to `hi` by their direction along
/// `axis`, and returns where the rays of negative direction begin.
fn partition_axis(rays: &mut [AccelRay], lo: usize, hi: usize, axis: usize) -> (mid: usize)
    requires
        lo <= hi <= old(rays)@.len(),
        axis < 3,
    ensures
        (final(rays)@, mid as int) == spec_split_axis(
            old(rays)@,
            axis as int,
            lo as int,
            hi as int,
        ),
        lo <= mid <= hi,
        final(rays)@.len() == old(rays)@.len(),
        final(rays)@.to_multiset() == old(rays)@.to_multiset(),
        rearranged_in(old(rays)@, final(rays)@, lo as int, hi as int),
        all_signed(final(rays)@, lo as int, mid as int, axis as int, true),
        all_signed(final(rays)@, mid as int, hi as int, axis as int, false),
        forall|ax: int, positive: bool, a: int, b: int|
            0 <= a <= b <= old(rays)@.len() && (a <= lo && hi <= b || b <= lo || hi <= a)
                && all_signed(old(rays)@, a, b, ax, positive) ==> #[trigger] all_signed(
                final(rays)@,
                a,
                b,
                ax,
                positive,
            ),
{
    let ghost s0 = rays@;
    let pred = |r: &AccelRay| -> (b: bool)
        requires
            axis < 3,
        ensures
            b == (r.dir.at(axis as int) >= 0),
        { r.dir.get_n(axis) >= 0 };
    assert forall|k: int| lo <= k < hi implies pred_decides(pred, #[trigger] rays@[k]) by {}
    let count: usize = partition_range(rays, lo, hi, pred);
    proof {
        let p = axis_positive(axis as int);
        assert forall|k: int| lo <= k < hi implies pred_fn(pred)(#[trigger] s0[k]) == p(s0[k]) by {
            assert(pred_answers(pred, s0[k]));
        }
        lemma_partition_agrees(s0, pred_fn(pred), p, lo as int, hi as int);
        lemma_count_agrees(s0, s0, pred_fn(pred), p, lo as int, hi as int);
        lemma_partition_properties(s0, p, lo as int, hi as int);
        let s1 = rays@;
        lemma_permuted_rearranged(s0, s1, lo as int, hi as int);
        reveal(all_signed);
        assert forall|ax: int, positive: bool, a: int, b: int|
            0 <= a <= b <= s0.len() && (a <= lo && hi <= b || b <= lo || hi <= a) && all_signed(
                s0,
                a,
                b,
                ax,
                positive,
            ) implies #[trigger] all_signed(s1, a, b, ax, positive) by {
            assert forall|k: int| a <= k < b implies ((#[trigger] s1[k]).dir.at(ax) >= 0)
                == positive by {
                if lo <= k < hi {
                    let x = s1[k];
                    let r1 = s1.subrange(lo as int, hi as int);
                    let r0 = s0.subrange(lo as int, hi as int);
                    assert(r1[k - lo] == x);
                    assert(r1.contains(x));
                    vstd::seq_lib::to_multiset_contains(r1, x);
                    vstd::seq_lib::to_multiset_contains(r0, x);
                    let w = choose|w: int| 0 <= w < r0.len() && r0[w] == x;
                    assert(s0[lo + w] == x);
                } else {
                    assert(s1[k] == s0[k]);
                }
            }
        }
    }
    lo + count
}

/// What holds of the rays of a range holds of the rays of a range within.
pub proof fn lemma_signed_narrow(
    s: Seq<AccelRay>,
    a: int,
    b: int,
    c: int,
    d: int,
    axis: int,
    positive: bool,
)
    requires
        a <= c,
        d <= b,
        all_signed(s, a, b, axis, positive),
    ensures
        all_signed(s, c, d, axis, positive),
{
    reveal(all_signed);
}

/// Sorts the rays from `lo` up to `hi` into the eight octants of their
/// direction, so that the rays of each run share the order in which they
/// pass through the children of any node.  Returns the nine places where
/// the runs begin and end.
pub fn split_rays_by_direction_range(rays: &mut [AccelRay], lo: usize, hi: usize) -> (points: [usize; 9])
    requires
        lo <= hi <= old(rays)@.len(),
    ensures
        final(rays)@ == spec_split(old(rays)@, lo as int, hi as int).0,
        points@.map_values(|p: usize| p as int) == spec_split(old(rays)@, lo as int, hi as int).1,
        final(rays)@.len() == old(rays)@.len(),
        final(rays)@.to_multiset() == old(rays)@.to_multiset(),
        rearranged_in(old(rays)@, final(rays)@, lo as int, hi as int),
        points[0] == lo,
        points[8] == hi,
        forall|m: int| 0 <= m < 8 ==> #[trigger] points[m] <= points[m + 1],
        forall|m: int|
            0 <= m < 8 ==> all_signed(
                final(rays)@,
                #[trigger] points[m] as int,
                points[m + 1] as int,
                0,
                m < 4,
            ),
        forall|m: int|
            0 <= m < 8 ==> all_signed(
                final(rays)@,
                #[trigger] points[m] as int,
                points[m + 1] as int,
                1,
                m % 4 < 2,
            ),
        forall|m: int|
            0 <= m < 8 ==> all_signed(
                final(rays)@,
                #[trigger] points[m] as int,
                points[m + 1] as int,
                2,
                m % 2 == 0,
            ),
{
    let s4: usize = partition_axis(rays, lo, hi, 0);
    let ghost ra = rays@;
    let s2: usize = partition_axis(rays, lo, s4, 1);
    let ghost rb = rays@;
    proof {
        lemma_rearranged_step(old(rays)@, ra, rb, lo as int, hi as int, lo as int, s4 as int);
        assert(all_signed(rb, lo as int, s4 as int, 0, true));
        assert(all_signed(rb, s4 as int, hi as int, 0, false));
    }
    let s6: usize = partition_axis(rays, s4, hi, 1);
    let ghost rc = rays@;
    proof {
        lemma_rearranged_step(old(rays)@, rb, rc, lo as int, hi as int, s4 as int, hi as int);
        assert(all_signed(rc, lo as int, s4 as int, 0, true));
        assert(all_signed(rc, s4 as int, hi as int, 0, false));
        assert(all_signed(rc, lo as int, s2 as int, 1, true));
        assert(all_signed(rc, s2 as int, s4 as int, 1, false));
        lemma_signed_narrow(rc, lo as int, s4 as int, lo as int, s2 as int, 0, true);
        lemma_signed_narrow(rc, lo as int, s4 as int, s2 as int, s4 as int, 0, true);
        lemma_signed_narrow(rc, s4 as int, hi as int, s4 as int, s6 as int, 0, false);
        lemma_signed_narrow(rc, s4 as int, hi as int, s6 as int, hi as int, 0, false);
    }
    let s1: usize = partition_axis(rays, lo, s2, 2);
    let ghost rd = rays@;
    proof {
        lemma_rearranged_step(old(rays)@, rc, rd, lo as int, hi as int, lo as int, s2 as int);
        assert(all_signed(rd, lo as int, s2 as int, 0, true));
        assert(all_signed(rd, lo as int, s2 as int, 1, true));
        assert(all_signed(rd, s2 as int, s4 as int, 0, true));
        assert(all_signed(rd, s2 as int, s4 as int, 1, false));
        assert(all_signed(rd, s4 as int, s6 as int, 0, false));
        assert(all_signed(rd, s4 as int, s6 as int, 1, true));
        assert(all_signed(rd, s6 as int, hi as int, 0, false));
        assert(all_signed(rd, s6 as int, hi as int, 1, false));
        lemma_signed_narrow(rd, lo as int, s2 as int, lo as int, s1 as int, 0, true);
        lemma_signed_narrow(rd, lo as int, s2 as int, s1 as int, s2 as int, 0, true);
        lemma_signed_narrow(rd, lo as int, s2 as int, lo as int, s1 as int, 1, true);
        lemma_signed_narrow(rd, lo as int, s2 as int, s1 as int, s2 as int, 1, true);
    }
    let s3: usize = partition_axis(rays, s2, s4, 2);
    let ghost re = rays@;
    proof {
        lemma_rearranged_step(old(rays)@, rd, re, lo as int, hi as int, s2 as int, s4 as int);
        assert(all_signed(re, lo as int, s1 as int, 0, true));
        assert(all_signed(re, lo as int, s1 as int, 1, true));
        assert(all_signed(re, lo as int, s1 as int, 2, true));
        assert(all_signed(re, s1 as int, s2 as int, 0, true));
        assert(all_signed(re, s1 as int, s2 as int, 1, true));
        assert(all_signed(re, s1 as int, s2 as int, 2, false));
        assert(all_signed(re, s2 as int, s4 as int, 0, true));
        assert(all_signed(re, s2 as int, s4 as int, 1, false));
        assert(all_signed(re, s4 as int, s6 as int, 0, false));
        assert(all_signed(re, s4 as int, s6 as int, 1, true));
        assert(all_signed(re, s6 as int, hi as int, 0, false));
        assert(all_signed(re, s6 as int, hi as int, 1, false));
        lemma_signed_narrow(re, s2 as int, s4 as int, s2 as int, s3 as int, 0, true);
        lemma_signed_narrow(re, s2 as int, s4 as int, s3 as int, s4 as int, 0, true);
        lemma_signed_narrow(re, s2 as int, s4 as int, s2 as int, s3 as int, 1, false);
        lemma_signed_narrow(re, s2 as int, s4 as int, s3 as int, s4 as int, 1, false);
    }
    let s5: usize = partition_axis(rays, s4, s6, 2);
    let ghost rf = rays@;
    proof {
        lemma_rearranged_step(old(rays)@, re, rf, lo as int, hi as int, s4 as int, s6 as int);
        assert(all_signed(rf, lo as int, s1 as int, 0, true));
        assert(all_signed(rf, lo as int, s1 as int, 1, true));
        assert(all_signed(rf, lo as int, s1 as int, 2, true));
        assert(all_signed(rf, s1 as int, s2 as int, 0, true));
        assert(all_signed(rf, s1 as int, s2 as int, 1, true));
        assert(all_signed(rf, s1 as int, s2 as int, 2, false));
        assert(all_signed(rf, s2 as int, s3 as int, 0, true));
        assert(all_signed(rf, s2 as int, s3 as int, 1, false));
        assert(all_signed(rf, s2 as int, s3 as int, 2, true));
        assert(all_signed(rf, s3 as int, s4 as int, 0, true));
        assert(all_signed(rf, s3 as int, s4 as int, 1, false));
        assert(all_signed(rf, s3 as int, s4 as int, 2, false));
        assert(all_signed(rf, s4 as int, s6 as int, 0, false));
        assert(all_signed(rf, s4 as int, s6 as int, 1, true));
        assert(all_signed(rf, s6 as int, hi as int, 0, false));
        assert(all_signed(rf, s6 as int, hi as int, 1, false));
        lemma_signed_narrow(rf, s4 as int, s6 as int, s4 as int, s5 as int, 0, false);
        lemma_signed_narrow(rf, s4 as int, s6 as int, s5 as int, s6 as int, 0, false);
        lemma_signed_narrow(rf, s4 as int, s6 as int, s4 as int, s5 as int, 1, true);
        lemma_signed_narrow(rf, s4 as int, s6 as int, s5 as int, s6 as int, 1, true);
    }
    let s7: usize = partition_axis(rays, s6, hi, 2);
    let ghost rg = rays@;
    let points: [usize; 9] = [lo, s1, s2, s3, s4, s5, s6, s7, hi];
    proof {
        lemma_rearranged_step(old(rays)@, rf, rg, lo as int, hi as int, s6 as int, hi as int);
        assert(all_signed(rg, lo as int, s1 as int, 0, true));
        assert(all_signed(rg, lo as int, s1 as int, 1, true));
        assert(all_signed(rg, lo as int, s1 as int, 2, true));
        assert(all_signed(rg, s1 as int, s2 as int, 0, true));
        assert(all_signed(rg, s1 as int, s2 as int, 1, true));
        assert(all_signed(rg, s1 as int, s2 as int, 2, false));
        assert(all_signed(rg, s2 as int, s3 as int, 0, true));
        assert(all_signed(rg, s2 as int, s3 as int, 1, false));
        assert(all_signed(rg, s2 as int, s3 as int, 2, true));
        assert(all_signed(rg, s3 as int, s4 as int, 0, true));
        assert(all_signed(rg, s3 as int, s4 as int, 1, false));
        assert(all_signed(rg, s3 as int, s4 as int, 2, false));
        assert(all_signed(rg, s4 as int, s5 as int, 0, false));
        assert(all_signed(rg, s4 as int, s5 as int, 1, true));
        assert(all_signed(rg, s4 as int, s5 as int, 2, true));
        assert(all_signed(rg, s5 as int, s6 as int, 0, false));
        assert(all_signed(rg, s5 as int, s6 as int, 1, true));
        assert(all_signed(rg, s5 as int, s6 as int, 2, false));
        assert(all_signed(rg, s6 as int, hi as int, 0, false));
        assert(all_signed(rg, s6 as int, hi as int, 1, false));
        lemma_signed_narrow(rg, s6 as int, hi as int, s6 as int, s7 as int, 0, false);
        lemma_signed_narrow(rg, s6 as int, hi as int, s7 as int, hi as int, 0, false);
        lemma_signed_narrow(rg, s6 as int, hi as int, s6 as int, s7 as int, 1, false);
        lemma_signed_narrow(rg, s6 as int, hi as int, s7 as int, hi as int, 1, false);
        assert(points@.map_values(|p: usize| p as int) =~= spec_split(
            old(rays)@,
            lo as int,
            hi as int,
        ).1);
    }
    points
}

/// Sorts the rays into the eight octants of their direction, and returns
/// the nine places where the octants begin and end.
pub fn split_rays_by_direction(rays: &mut [AccelRay]) -> (points: [usize; 9])
    ensures
        final(rays)@ == spec_split(old(rays)@, 0, old(rays)@.len() as int).0,
        points@.map_values(|p: usize| p as int) == spec_split(
            old(rays)@,
            0,
            old(rays)@.len() as int,
        ).1,
        final(rays)@.len() == old(rays)@.len(),
        final(rays)@.to_multiset() == old(rays)@.to_multiset(),
        rearranged_in(old(rays)@, final(rays)@, 0, old(rays)@.len() as int),
        points[0] == 0,
        points[8] == old(rays)@.len(),
        forall|m: int| 0 <= m < 8 ==> #[trigger] points[m] <= points[m + 1],
        forall|m: int|
            0 <= m < 8 ==> all_signed(
                final(rays)@,
                #[trigger] points[m] as int,
                points[m + 1] as int,
                0,
                m < 4,
            ),
        forall|m: int|
            0 <= m < 8 ==> all_signed(
                final(rays)@,
                #[trigger] points[m] as int,
                points[m + 1] as int,
                1,
                m % 4 < 2,
            ),
        forall|m: int|
            0 <= m < 8 ==> all_signed(
                final(rays)@,
                #[trigger] points[m] as int,
                points[m + 1] as int,
                2,
                m % 2 == 0,
            ),
{
    let len: usize = rays.len();
    split_rays_by_direction_range(rays, 0, len)
}

/// The ray `before` put into the space that the value of `xforms` at the
/// time of the ray maps the world to.
pub open spec fn spec_xformed(before: AccelRay, wrays: Seq<Ray>, xforms: Seq<Matrix>) -> AccelRay {
    let m = crate::lerp::spec_lerp_slice(xforms, before.time as int);
    let wr = wrays[before.id as int];
    AccelRay { orig: m.spec_transform_point(wr.orig), dir: m.spec_transform_dir(wr.dir), ..before }
}

/// The ray `before` put back into world space.
pub open spec fn spec_restored(before: AccelRay, wrays: Seq<Ray>) -> AccelRay {
    let wr = wrays[before.id as int];
    AccelRay { orig: wr.orig, dir: wr.dir, ..before }
}

/// Puts the rays from `lo` up to `hi` into the space that `xforms` maps
/// the world to: each takes origin and direction of its world ray through
/// the value of `xforms` at its time.
fn xform_rays(rays: &mut [AccelRay], lo: usize, hi: usize, wrays: &[Ray], xforms: &[Matrix])
    requires
        lo <= hi <= old(rays)@.len(),
        batch_ok(old(rays)@, wrays@.len() as int),
        xforms@.len() > 0,
    ensures
        final(rays)@.len() == old(rays)@.len(),
        batch_ok(final(rays)@, wrays@.len() as int),
        forall|j: int|
            lo <= j < hi ==> #[trigger] final(rays)@[j] == spec_xformed(
                old(rays)@[j],
                wrays@,
                xforms@,
            ),
        forall|j: int|
            0 <= j < lo || hi <= j < old(rays)@.len() ==> #[trigger] final(rays)@[j] == old(
                rays,
            )@[j],
{
    let mut j: usize = lo;
    while j < hi
        invariant
            lo <= j <= hi <= rays@.len(),
            rays@.len() == old(rays)@.len(),
            batch_ok(rays@, wrays@.len() as int),
            xforms@.len() > 0,
            forall|i: int|
                lo <= i < j ==> #[trigger] rays@[i] == spec_xformed(
                    old(rays)@[i],
                    wrays@,
                    xforms@,
                ),
            forall|i: int|
                0 <= i < lo || j <= i < old(rays)@.len() ==> #[trigger] rays@[i] == old(rays)@[i],
        decreases hi - j,
    {
        let mut ray: AccelRay = rays[j];
        assert(ray.wf() && ray.id < wrays@.len());
        assert forall|i: int| 0 <= i < xforms@.len() implies (#[trigger] xforms@[i]).lerp_ok() by {}
        let m: Matrix = lerp_slice(xforms, ray.time);
        ray.update_from_xformed_world_ray(&wrays[ray.id as usize], &m);
        rays[j] = ray;
        j += 1;
    }
}

/// Puts the rays from `lo` up to `hi` back into world space.
fn restore_rays(rays: &mut [AccelRay], lo: usize, hi: usize, wrays: &[Ray])
    requires
        lo <= hi <= old(rays)@.len(),
        batch_ok(old(rays)@, wrays@.len() as int),
        world_rays_ok(wrays@),
    ensures
        final(rays)@.len() == old(rays)@.len(),
        batch_ok(final(rays)@, wrays@.len() as int),
        forall|j: int|
            lo <= j < hi ==> #[trigger] final(rays)@[j] == spec_restored(old(rays)@[j], wrays@),
        forall|j: int|
            0 <= j < lo || hi <= j < old(rays)@.len() ==> #[trigger] final(rays)@[j] == old(
                rays,
            )@[j],
{
    let mut j: usize = lo;
    while j < hi
        invariant
            lo <= j <= hi <= rays@.len(),
            rays@.len() == old(rays)@.len(),
            batch_ok(rays@, wrays@.len() as int),
            world_rays_ok(wrays@),
            forall|i: int|
                lo <= i < j ==> #[trigger] rays@[i] == spec_restored(old(rays)@[i], wrays@),
            forall|i: int|
                0 <= i < lo || j <= i < old(rays)@.len() ==> #[trigger] rays@[i] == old(rays)@[i],
        decreases hi - j,
    {
        let mut ray: AccelRay = rays[j];
        assert(ray.wf() && ray.id < wrays@.len());
        assert(wrays@[ray.id as int].wf());
        ray.update_from_world_ray(&wrays[ray.id as usize]);
        rays[j] = ray;
        j += 1;
    }
}

/// The part of the tracer that walks the scene.
struct TracerInner<'a, S: Surface> {
    root: &'a Assembly<S>,
    xform_stack: TransformStack,
    isects: Vec<SurfaceIntersection>,
}

/// When the rays that have reached a leaf are traced through its
/// instances, the leaf is accounted for.
proof fn lemma_leaf_done<S: Surface>(
    trav: &Traverser,
    a: &Assembly<S>,
    levels: Seq<Seq<Matrix>>,
    wrays: Seq<Ray>,
    before: Seq<AccelRay>,
    after: Seq<AccelRay>,
    lo: int,
    hi: int,
    leaf: (usize, usize, usize),
    attained: spec_fn(u32, u32, u64) -> bool,
)
    requires
        0 <= lo <= lo + leaf.2 <= hi <= before.len(),
        leaf.0 <= leaf.1 <= a.instances@.len(),
        trav.accounts(
            a.object_accel@,
            a.instances@.len() as int,
            before.subrange(lo, hi),
            space_rests(a, levels, wrays),
            Some(leaf),
        ),
        trav.all_live(leaf.2 as int),
        follows_in(before, after, lo, lo + leaf.2, attained),
        all_in_space(before, lo, hi, wrays, levels),
        batch_ok(before, wrays.len() as int),
        leaf_rests(a, levels, wrays, after, lo, lo + leaf.2, leaf.0 as int, leaf.1 as int),
    ensures
        trav.accounts(
            a.object_accel@,
            a.instances@.len() as int,
            after.subrange(lo, hi),
            space_rests(a, levels, wrays),
            None,
        ),
{
    let v = a.object_accel@;
    let rests = space_rests(a, levels, wrays);
    let set0 = before.subrange(lo, hi);
    let set1 = after.subrange(lo, hi);
    let part = leaf.2 as int;
    lemma_follows_outside(before, after, lo, lo + part, attained);
    assert forall|j: int, k: int|
        0 <= j < set1.len() && 0 <= k < a.instances@.len() implies #[trigger] trav.accounted(
        v,
        set1,
        rests,
        None,
        j,
        k,
    ) by {
        if j < part {
            let i = lemma_follows_source(before, after, lo, lo + part, attained, lo + j);
            assert(traced(before[i], after[lo + j], attained));
            assert(set0[i - lo] == before[i]);
            assert(set1[j] == after[lo + j]);
            assert(trav.accounted(v, set0, rests, Some(leaf), i - lo, k));
            if leaf.0 <= k < leaf.1 {
                assert(all_rest_at(a, a.instances@[k], levels, wrays, after, lo, lo + part));
                assert(instance_rests(a, a.instances@[k], levels, wrays, after[lo + j]));
                assert(rests(k, set1[j]));
            } else if rests(k, set0[i - lo]) {
                assert(in_space(before[i], wrays, levels));
                assert(before[i].id < wrays.len());
                assert(instance_rests(a, a.instances@[k], levels, wrays, before[i]));
                lemma_rests_stable(a, a.instances@[k], levels, wrays, before[i], after[lo + j]);
                assert(rests(k, set1[j]));
            } else {
                assert(trav.pending(v, i - lo, k));
                let s = choose|s: int|
                    1 <= s <= trav.sp() && i - lo < trav.live_at(s) && v.object_lo(
                        #[trigger] trav.node_at(s),
                    ) <= k < v.object_hi(trav.node_at(s));
                assert(part <= trav.live_at(s));
                assert(trav.pending(v, j, k));
            }
        } else {
            assert(set1[j] == after[lo + j]);
            assert(set0[j] == before[lo + j]);
            assert(after[lo + j] == before[lo + j]);
            assert(trav.accounted(v, set0, rests, Some(leaf), j, k));
        }
    }
}

/// When the walk is over, no ray has anything to gain from the assembly.
proof fn lemma_walk_done<S: Surface>(
    trav: &Traverser,
    a: &Assembly<S>,
    levels: Seq<Seq<Matrix>>,
    wrays: Seq<Ray>,
    rays: Seq<AccelRay>,
    lo: int,
    hi: int,
)
    requires
        0 <= lo <= hi <= rays.len(),
        trav.sp() == 0,
        trav.accounts(
            a.object_accel@,
            a.instances@.len() as int,
            rays.subrange(lo, hi),
            space_rests(a, levels, wrays),
            None,
        ),
        all_in_space(rays, lo, hi, wrays, levels),
        batch_ok(rays, wrays.len() as int),
    ensures
        all_rest(a, levels, wrays, rays, lo, hi),
{
    let v = a.object_accel@;
    let rests = space_rests(a, levels, wrays);
    let set = rays.subrange(lo, hi);
    assert forall|j: int| lo <= j < hi implies crate::hits::assembly_rests(
        a,
        levels,
        wrays,
        #[trigger] rays[j],
    ) by {
        assert(set[j - lo] == rays[j]);
        assert(in_space(rays[j], wrays, levels));
        assert forall|k: int| 0 <= k < a.instances@.len() implies instance_rests(
            a,
            #[trigger] a.instances@[k],
            levels,
            wrays,
            rays[j],
        ) by {
            assert(trav.accounted(v, set, rests, None, j - lo, k));
            assert(rests(k, set[j - lo]));
        }
        lemma_assembly_rests(a, levels, wrays, rays[j]);
    }
}

impl<'a, S: Surface> TracerInner<'a, S> {
    /// The transforms of the instances that the tracer is inside of.
    spec fn levels(&self) -> Seq<Seq<Matrix>> {
        self.xform_stack.levels()
    }

    /// What the rays have found so far.
    spec fn found(&self) -> Seq<SurfaceIntersection> {
        self.isects@
    }

    /// The scene that is traced.
    spec fn scene(&self) -> &Assembly<S> {
        self.root
    }

    /// Whether the tracer is ready to trace rays that stand for `count`
    /// world rays.
    spec fn wf(&self, count: int) -> bool {
        &&& self.root.wf()
        &&& self.xform_stack.wf()
        &&& self.isects@.len() == count
    }

    /// Whether the tracer is outside of all instances and ready to trace.
    spec fn idle(&self) -> bool {
        &&& self.root.wf()
        &&& self.xform_stack.wf()
        &&& self.xform_stack.levels().len() == 0
    }

    /// Whether the rays are a batch that stands for `wrays`, each for a
    /// world ray of its own, and the records go with them.
    spec fn ledger_ok(&self, wrays: Seq<Ray>, rays: Seq<AccelRay>) -> bool {
        &&& self.wf(wrays.len() as int)
        &&& wrays.len() <= u32::MAX
        &&& batch_ok(rays, wrays.len() as int)
        &&& world_rays_ok(wrays)
        &&& distinct_ids(rays)
        &&& records_agree(self.found(), wrays, rays)
    }

    /// Intersects the rays from `lo` up to `hi` with an object: a surface
    /// records its hits with the shader `surface_shader` of the instance,
    /// or with none if the instance has none, a light with none.
    fn trace_object(
        &mut self,
        obj: &Object<S>,
        surface_shader: Option<usize>,
        wrays: &[Ray],
        rays: &mut [AccelRay],
        lo: usize,
        hi: usize,
    )
        requires
            old(self).ledger_ok(wrays@, old(rays)@),
            lo <= hi <= old(rays)@.len(),
            all_in_space(old(rays)@, lo as int, hi as int, wrays@, old(self).levels()),
        ensures
            final(self).ledger_ok(wrays@, final(rays)@),
            final(self).levels() == old(self).levels(),
            final(self).scene() == old(self).scene(),
            final(rays)@.len() == old(rays)@.len(),
            forall|j: int|
                lo <= j < hi ==> tested_with(
                    object_surface(*obj).spec_hit_at(
                        old(rays)@[j].orig,
                        old(rays)@[j].dir,
                        old(rays)@[j].time,
                    ),
                    #[trigger] old(rays)@[j],
                    final(rays)@[j],
                ),
            forall|j: int|
                lo <= j < hi ==> recorded_with(
                    old(self).found(),
                    final(self).found(),
                    #[trigger] old(rays)@[j],
                    final(rays)@[j],
                    object_surface(*obj).spec_handle(),
                    spec_shader_choice(*obj, surface_shader),
                ),
            forall|j: int|
                0 <= j < lo || hi <= j < old(rays)@.len() ==> #[trigger] final(rays)@[j] == old(
                    rays,
                )@[j],
            found_kept(
                old(self).found(),
                final(self).found(),
                old(rays)@,
                lo as int,
                hi as int,
            ),
    {
        let ghost found0 = self.isects@;
        let (head, tail) = rays.split_at_mut(hi);
        let (front, set) = head.split_at_mut(lo);
        let ghost set0 = set@;
        proof {
            assert forall|j: int| 0 <= j < set0.len() implies #[trigger] set0[j] == old(rays)@[lo
                + j] by {}
            assert(batch_ok(set0, wrays@.len() as int)) by {
                assert forall|j: int| 0 <= j < set0.len() implies (#[trigger] set0[j]).wf()
                    && set0[j].id < wrays@.len() by {
                    assert(set0[j] == old(rays)@[lo + j]);
                }
            }
            assert(distinct_ids(set0)) by {
                assert forall|i: int, j: int| 0 <= i < j < set0.len() implies (
                #[trigger] set0[i]).id != (#[trigger] set0[j]).id by {
                    assert(set0[i] == old(rays)@[lo + i]);
                    assert(set0[j] == old(rays)@[lo + j]);
                }
            }
            assert(records_agree(found0, wrays@, set0)) by {
                assert forall|j: int| 0 <= j < set0.len() implies record_agrees(
                    found0,
                    wrays@,
                    #[trigger] set0[j],
                ) by {
                    assert(set0[j] == old(rays)@[lo + j]);
                }
            }
        }
        let shader: ShaderChoice = shader_choice(obj, surface_shader);
        proof {
            self.xform_stack.lemma_top_is_last();
            assert forall|j: int| 0 <= j < set0.len() implies in_top(
                #[trigger] set0[j],
                wrays@,
                self.xform_stack.spec_top(),
            ) by {
                assert(set0[j] == old(rays)@[lo + j]);
                assert(in_space(old(rays)@[lo + j], wrays@, self.levels()));
            }
        }
        match obj {
            Object::Surface(surface) => {
                surface.intersect_rays(
                    set,
                    wrays,
                    self.isects.as_mut_slice(),
                    shader,
                    self.xform_stack.top(),
                );
            },
            Object::SurfaceLight(surface) => {
                surface.intersect_rays(
                    set,
                    wrays,
                    self.isects.as_mut_slice(),
                    shader,
                    self.xform_stack.top(),
                );
            },
        }
        proof {
            let all = front@ + set@ + tail@;
            let found1 = self.isects@;
            let set1 = set@;
            assert forall|j: int| 0 <= j < all.len() implies (#[trigger] all[j]).id == old(rays)@[j].id
                && (lo <= j < hi ==> all[j] == set1[j - lo]) && (!(lo <= j < hi) ==> all[j] == old(
                rays,
            )@[j]) by {
                if j < lo {
                    assert(all[j] == old(rays)@[j]);
                } else if j < hi {
                    assert(all[j] == set1[j - lo]);
                    assert(set0[j - lo] == old(rays)@[j]);
                } else {
                    assert(all[j] == old(rays)@[j]);
                }
            }
            assert forall|j: int| 0 <= j < all.len() implies (#[trigger] all[j]).wf() && all[j].id
                < wrays@.len() by {
                if lo <= j < hi {
                    assert(all[j] == set1[j - lo]);
                } else {
                    assert(all[j] == old(rays)@[j]);
                }
            }
            assert forall|i: int, j: int| 0 <= i < j < all.len() implies (#[trigger] all[i]).id != (
            #[trigger] all[j]).id by {
                assert(old(rays)@[i].id != old(rays)@[j].id);
            }
            assert forall|i: int|
                0 <= i < found0.len() && id_absent_in(
                    old(rays)@,
                    lo as int,
                    hi as int,
                    i,
                ) implies #[trigger] found1[i] == found0[i] by {
                assert forall|m: int| 0 <= m < set0.len() implies (#[trigger] set0[m]).id
                    != i as u32 by {
                    assert(set0[m] == old(rays)@[lo + m]);
                    assert(old(rays)@[lo + m].id != i);
                }
                assert(id_absent(set0, i as u32));
            }
            assert forall|j: int| 0 <= j < all.len() implies record_agrees(
                found1,
                wrays@,
                #[trigger] all[j],
            ) by {
                if lo <= j < hi {
                    assert(all[j] == set1[j - lo]);
                    assert(record_agrees(found1, wrays@, set1[j - lo]));
                } else {
                    let r = old(rays)@[j];
                    assert(all[j] == r);
                    assert(record_agrees(found0, wrays@, r));
                    assert(id_absent_in(old(rays)@, lo as int, hi as int, r.id as int)) by {
                        assert forall|m: int| lo <= m < hi implies (#[trigger] old(rays)@[m]).id
                            != r.id by {
                            if m < j {
                                assert(old(rays)@[m].id != old(rays)@[j].id);
                            } else {
                                assert(old(rays)@[j].id != old(rays)@[m].id);
                            }
                        }
                    }
                    assert(found1[r.id as int] == found0[r.id as int]);
                }
            }
            assert forall|j: int| lo <= j < hi implies tested_with(
                object_surface(*obj).spec_hit_at(
                    old(rays)@[j].orig,
                    old(rays)@[j].dir,
                    old(rays)@[j].time,
                ),
                #[trigger] old(rays)@[j],
                all[j],
            ) && recorded_with(
                found0,
                found1,
                old(rays)@[j],
                all[j],
                object_surface(*obj).spec_handle(),
                spec_shader_choice(*obj, surface_shader),
            ) by {
                assert(set0[j - lo] == old(rays)@[j]);
                assert(all[j] == set1[j - lo]);
            }
        }
    }

    /// Starts a walk of the rays from `lo` up to `hi` through the
    /// hierarchy over the instances of `assembly`.
    fn begin_walk(assembly: &Assembly<S>, rays: &[AccelRay], lo: usize, hi: usize) -> (trav:
        Traverser)
        requires
            assembly.wf(),
            lo <= hi <= rays@.len(),
        ensures
            trav.wf(assembly.object_accel@, assembly.instances@, hi - lo),
            forall|rests: spec_fn(int, AccelRay) -> bool| #[trigger]
                trav.accounts(
                    assembly.object_accel@,
                    assembly.instances@.len() as int,
                    rays@.subrange(lo as int, hi as int),
                    rests,
                    None,
                ),
    {
        let set: &[AccelRay] = vstd::slice::slice_subrange(rays, lo, hi);
        assembly.object_accel.traverse_begin(set, assembly.instances.as_slice())
    }

    /// Walks the rays from `lo` up to `hi` on to the next leaf of the
    /// hierarchy over the instances of `assembly`.
    fn next_leaf(
        assembly: &Assembly<S>,
        trav: &mut Traverser,
        rays: &mut [AccelRay],
        lo: usize,
        hi: usize,
        count: Ghost<int>,
    ) -> (leaf: Option<(usize, usize, usize)>)
        requires
            assembly.wf(),
            lo <= hi <= old(rays)@.len(),
            old(trav).wf(assembly.object_accel@, assembly.instances@, hi - lo),
            batch_ok(old(rays)@, count@),
        ensures
            final(trav).wf(assembly.object_accel@, assembly.instances@, hi - lo),
            final(rays)@.len() == old(rays)@.len(),
            batch_ok(final(rays)@, count@),
            rearranged_in(old(rays)@, final(rays)@, lo as int, hi as int),
            final(rays)@.to_multiset() == old(rays)@.to_multiset(),
            leaf.is_some() ==> leaf.unwrap().0 < leaf.unwrap().1 <= assembly.instances@.len() && 0
                < leaf.unwrap().2 <= hi - lo,
            leaf.is_some() ==> 0 <= final(trav).work(assembly.object_accel@) < old(trav).work(
                assembly.object_accel@,
            ),
            leaf.is_some() ==> final(trav).all_live(leaf.unwrap().2 as int),
            leaf.is_none() ==> final(trav).sp() == 0,
            forall|rests: spec_fn(int, AccelRay) -> bool|
                old(trav).accounts(
                    assembly.object_accel@,
                    assembly.instances@.len() as int,
                    old(rays)@.subrange(lo as int, hi as int),
                    rests,
                    None,
                ) && culls(assembly.instances@, rests) ==> #[trigger] final(trav).accounts(
                    assembly.object_accel@,
                    assembly.instances@.len() as int,
                    final(rays)@.subrange(lo as int, hi as int),
                    rests,
                    leaf,
                ),
    {
        let (head, tail) = rays.split_at_mut(hi);
        let (front, set) = head.split_at_mut(lo);
        let ghost set0 = set@;
        assert(set0 =~= old(rays)@.subrange(lo as int, hi as int));
        assert(rays_ok(set@)) by {
            assert forall|j: int| 0 <= j < set@.len() implies (#[trigger] set@[j]).wf() by {
                assert(set@[j] == old(rays)@[lo + j]);
            }
        }
        let leaf = assembly.object_accel.traverse_next(trav, set, assembly.instances.as_slice());
        proof {
            let ok = |r: AccelRay| r.wf() && r.id < count@;
            assert forall|j: int| 0 <= j < set0.len() implies ok(#[trigger] set0[j]) by {
                assert(set0[j] == old(rays)@[lo + j]);
            }
            lemma_rearranged_all(set0, set@, ok);
            let all = front@ + set@ + tail@;
            assert(set@ =~= all.subrange(lo as int, hi as int));
            assert forall|j: int| 0 <= j < all.len() implies (#[trigger] all[j]).wf() && all[j].id
                < count@ by {
                if j < lo {
                    assert(all[j] == old(rays)@[j]);
                } else if j < hi {
                    assert(all[j] == set@[j - lo]);
                    assert(ok(set@[j - lo]));
                } else {
                    assert(all[j] == old(rays)@[j]);
                }
            }
            assert forall|j: int| 0 <= j < lo || hi <= j < all.len() implies #[trigger] all[j]
                == old(rays)@[j] by {}
            lemma_permuted_rearranged(old(rays)@, all, lo as int, hi as int);
            assert(old(rays)@ =~= front@ + set0 + tail@);
            vstd::seq_lib::lemma_multiset_commutative(front@ + set0, tail@);
            vstd::seq_lib::lemma_multiset_commutative(front@, set0);
            vstd::seq_lib::lemma_multiset_commutative(front@ + set@, tail@);
            vstd::seq_lib::lemma_multiset_commutative(front@, set@);
        }
        leaf
    }

    /// Takes the rays from `lo` up to `hi` into instance `k` of
    /// `assembly`: puts them into the space of the instance, if it has a
    /// transform, and sorts them by direction again.  Returns the places
    /// where the octants begin and end.
    fn enter_instance(
        &mut self,
        assembly: &Assembly<S>,
        k: usize,
        wrays: &[Ray],
        rays: &mut [AccelRay],
        lo: usize,
        hi: usize,
        goal: Ghost<spec_fn(u32, u32, u64, u64, ShaderChoice) -> bool>,
    ) -> (points: [usize; 9])
        requires
            old(self).ledger_ok(wrays@, old(rays)@),
            marks_ok(old(self).found(), old(rays)@, goal@),
            assembly.wf(),
            k < assembly.instances@.len(),
            lo <= hi <= old(rays)@.len(),
            all_in_space(old(rays)@, lo as int, hi as int, wrays@, old(self).levels()),
        ensures
            final(self).ledger_ok(wrays@, final(rays)@),
            marks_ok(final(self).found(), final(rays)@, goal@),
            final(self).found() == old(self).found(),
            final(self).levels() == instance_levels(
                assembly,
                assembly.instances@[k as int],
                old(self).levels(),
            ),
            final(self).scene() == old(self).scene(),
            final(rays)@.len() == old(rays)@.len(),
            all_in_space(final(rays)@, lo as int, hi as int, wrays@, final(self).levels()),
            follows_in(old(rays)@, final(rays)@, lo as int, hi as int, nothing_met()),
            assembly.instances@[k as int].transform_indices.is_some() ==> final(rays)@
                == spec_split(
                Seq::new(
                    old(rays)@.len(),
                    |j: int|
                        if lo <= j < hi {
                            crate::hits::space_ray(old(rays)@[j], wrays@, final(self).levels())
                        } else {
                            old(rays)@[j]
                        },
                ),
                lo as int,
                hi as int,
            ).0,
            assembly.instances@[k as int].transform_indices.is_none() ==> final(rays)@ == old(
                rays,
            )@,
            points[0] == lo,
            points[8] == hi,
            forall|i: int| 0 <= i < 8 ==> #[trigger] points[i] <= points[i + 1],
    {
        assert(assembly.instance_ok(k as int));
        let transform_indices: Option<(usize, usize)> = assembly.instances[k].transform_indices;
        match transform_indices {
            Some((xstart, xend)) => {
                let xforms: &[Matrix] = vstd::slice::slice_subrange(
                    assembly.xforms.as_slice(),
                    xstart,
                    xend,
                );
                self.xform_stack.push(xforms);
                let ghost inner = self.levels();
                proof {
                    self.xform_stack.lemma_top_is_last();
                }
                xform_rays(rays, lo, hi, wrays, self.xform_stack.top());
                let ghost moved = rays@;
                proof {
                    lemma_moved(
                        old(rays)@,
                        moved,
                        lo as int,
                        hi as int,
                        wrays@,
                        inner,
                        self.isects@,
                        goal@,
                    );
                    assert(moved =~= Seq::new(
                        old(rays)@.len(),
                        |j: int|
                            if lo <= j < hi {
                                crate::hits::space_ray(old(rays)@[j], wrays@, inner)
                            } else {
                                old(rays)@[j]
                            },
                    ));
                }
                let points = split_rays_by_direction_range(rays, lo, hi);
                proof {
                    let ok = |r: AccelRay| r.wf() && r.id < wrays@.len();
                    lemma_rearranged_all(moved, rays@, ok);
                    lemma_reordered(
                        moved,
                        rays@,
                        lo as int,
                        hi as int,
                        wrays@,
                        inner,
                        self.isects@,
                        goal@,
                    );
                    lemma_follows_trans(
                        old(rays)@,
                        moved,
                        rays@,
                        lo as int,
                        hi as int,
                        nothing_met(),
                    );
                }
                points
            },
            None => {
                proof {
                    lemma_follows_refl(old(rays)@, lo as int, hi as int, nothing_met());
                }
                [lo, hi, hi, hi, hi, hi, hi, hi, hi]
            },
        }
    }

    /// Takes the rays from `lo` up to `hi` out of instance `k` of
    /// `assembly` again, into the space `outer` that they came from.
    fn leave_instance(
        &mut self,
        assembly: &Assembly<S>,
        k: usize,
        wrays: &[Ray],
        rays: &mut [AccelRay],
        lo: usize,
        hi: usize,
        outer: Ghost<Seq<Seq<Matrix>>>,
        goal: Ghost<spec_fn(u32, u32, u64, u64, ShaderChoice) -> bool>,
    )
        requires
            old(self).ledger_ok(wrays@, old(rays)@),
            marks_ok(old(self).found(), old(rays)@, goal@),
            assembly.wf(),
            k < assembly.instances@.len(),
            lo <= hi <= old(rays)@.len(),
            old(self).levels() == instance_levels(assembly, assembly.instances@[k as int], outer@),
            all_in_space(old(rays)@, lo as int, hi as int, wrays@, old(self).levels()),
        ensures
            final(self).ledger_ok(wrays@, final(rays)@),
            marks_ok(final(self).found(), final(rays)@, goal@),
            final(self).found() == old(self).found(),
            final(self).levels() == outer@,
            final(self).scene() == old(self).scene(),
            final(rays)@.len() == old(rays)@.len(),
            all_in_space(final(rays)@, lo as int, hi as int, wrays@, outer@),
            follows_in(old(rays)@, final(rays)@, lo as int, hi as int, nothing_met()),
    {
        assert(assembly.instance_ok(k as int));
        let transform_indices: Option<(usize, usize)> = assembly.instances[k].transform_indices;
        if transform_indices.is_some() {
            proof {
                self.xform_stack.lemma_top_is_last();
            }
            let ghost inner = self.levels();
            self.xform_stack.pop();
            proof {
                assert(inner.drop_last() =~= outer@);
                self.xform_stack.lemma_top_is_last();
            }
            let xforms: &[Matrix] = self.xform_stack.top();
            if xforms.len() > 0 {
                xform_rays(rays, lo, hi, wrays, xforms);
            } else {
                restore_rays(rays, lo, hi, wrays);
            }
            proof {
                lemma_moved(
                    old(rays)@,
                    rays@,
                    lo as int,
                    hi as int,
                    wrays@,
                    outer@,
                    self.isects@,
                    goal@,
                );
            }
        } else {
            proof {
                lemma_follows_refl(old(rays)@, lo as int, hi as int, nothing_met());
            }
        }
    }

    /// Traces the rays from `lo` up to `hi`, which are in the space of
    /// instance `k` of `assembly`, through the object or the nested
    /// assembly of the instance.
    fn trace_placed(
        &mut self,
        assembly: &Assembly<S>,
        k: usize,
        wrays: &[Ray],
        rays: &mut [AccelRay],
        lo: usize,
        hi: usize,
        outer: Ghost<Seq<Seq<Matrix>>>,
        goal: Ghost<spec_fn(u32, u32, u64, u64, ShaderChoice) -> bool>,
    )
        requires
            old(self).ledger_ok(wrays@, old(rays)@),
            marks_ok(old(self).found(), old(rays)@, goal@),
            marks_within(
                instance_marks(assembly, assembly.instances@[k as int], outer@, wrays@),
                goal@,
            ),
            assembly.wf(),
            k < assembly.instances@.len(),
            lo <= hi <= old(rays)@.len(),
            old(self).levels() == instance_levels(assembly, assembly.instances@[k as int], outer@),
            all_in_space(old(rays)@, lo as int, hi as int, wrays@, old(self).levels()),
        ensures
            final(self).ledger_ok(wrays@, final(rays)@),
            marks_ok(final(self).found(), final(rays)@, goal@),
            found_kept(
                old(self).found(),
                final(self).found(),
                old(rays)@,
                lo as int,
                hi as int,
            ),
            final(self).levels() == old(self).levels(),
            final(self).scene() == old(self).scene(),
            final(rays)@.len() == old(rays)@.len(),
            all_in_space(final(rays)@, lo as int, hi as int, wrays@, final(self).levels()),
            follows_in(
                old(rays)@,
                final(rays)@,
                lo as int,
                hi as int,
                instance_hits(assembly, assembly.instances@[k as int], outer@, wrays@),
            ),
            scene_sound(assembly, outer@, wrays@) ==> all_rest_at(
                assembly,
                assembly.instances@[k as int],
                outer@,
                wrays@,
                final(rays)@,
                lo as int,
                hi as int,
            ),
        decreases assembly, 0int,
    {
        assert(assembly.instance_ok(k as int));
        let ghost inst = assembly.instances@[k as int];
        let ghost inner = self.levels();
        let ghost hits = instance_hits(assembly, inst, outer@, wrays@);
        let ghost found0 = self.found();
        let instance_type: InstanceType = assembly.instances[k].instance_type;
        let data_index: usize = assembly.instances[k].data_index;
        match instance_type {
            InstanceType::Object => {
                let surface_shader: Option<usize> = match assembly.instances[k].surface_shader_index {
                    Some(i) => Some(assembly.surface_shaders[i]),
                    None => None,
                };
                self.trace_object(
                    &assembly.objects[data_index],
                    surface_shader,
                    wrays,
                    rays,
                    lo,
                    hi,
                );
                proof {
                    assert(spec_shader_choice(assembly.objects@[data_index as int], surface_shader)
                        == spec_shader_of(assembly, inst));
                    assert forall|j: int| lo <= j < hi implies traced(
                        #[trigger] old(rays)@[j],
                        rays@[j],
                        hits,
                    ) && instance_rests(assembly, inst, outer@, wrays@, rays@[j]) && in_space(
                        rays@[j],
                        wrays@,
                        inner,
                    ) by {
                        lemma_instance_of_object(
                            assembly,
                            inst,
                            outer@,
                            wrays@,
                            old(rays)@[j],
                            rays@[j],
                        );
                    }
                    lemma_follows_pointwise(old(rays)@, rays@, lo as int, hi as int, hits);
                    assert forall|j: int| lo <= j < hi implies instance_rests(
                        assembly,
                        inst,
                        outer@,
                        wrays@,
                        #[trigger] rays@[j],
                    ) by {
                        assert(traced(old(rays)@[j], rays@[j], hits));
                    }
                    assert forall|j: int| lo <= j < hi implies in_space(
                        #[trigger] rays@[j],
                        wrays@,
                        inner,
                    ) by {
                        assert(traced(old(rays)@[j], rays@[j], hits));
                    }
                    lemma_marks_after_object(
                        assembly,
                        inst,
                        outer@,
                        wrays@,
                        found0,
                        self.found(),
                        old(rays)@,
                        rays@,
                        lo as int,
                        hi as int,
                        goal@,
                    );
                }
            },
            InstanceType::Assembly => {
                assert(assembly.assemblies@[data_index as int].wf());
                proof {
                    lemma_assembly_mark_of_instance(assembly, inst, outer@, wrays@);
                    lemma_marks_within_trans(
                        assembly_marks(&assembly.assemblies@[data_index as int], inner, wrays@),
                        instance_marks(assembly, inst, outer@, wrays@),
                        goal@,
                    );
                }
                self.trace_assembly(&assembly.assemblies[data_index], wrays, rays, lo, hi, goal);
                proof {
                    let child = &assembly.assemblies@[data_index as int];
                    lemma_instance_of_assembly(assembly, inst, outer@, wrays@);
                    lemma_follows_weaken(
                        old(rays)@,
                        rays@,
                        lo as int,
                        hi as int,
                        assembly_hits(child, inner, wrays@),
                        hits,
                    );
                    if scene_sound(assembly, outer@, wrays@) {
                        assert(scene_sound(child, inner, wrays@));
                        assert forall|j: int| lo <= j < hi implies instance_rests(
                            assembly,
                            inst,
                            outer@,
                            wrays@,
                            #[trigger] rays@[j],
                        ) by {
                            assert(crate::hits::assembly_rests(child, inner, wrays@, rays@[j]));
                        }
                    }
                }
            },
        }
    }

    /// Traces the rays from `lo` up to `hi` through instance `k` of
    /// `assembly`: puts them into the space of the instance, if it has a
    /// transform, and sorts them by direction again; hands them on to the
    /// object or the nested assembly of the instance; and puts them back
    /// into the space they came from.
    fn trace_instance(
        &mut self,
        assembly: &Assembly<S>,
        k: usize,
        wrays: &[Ray],
        rays: &mut [AccelRay],
        lo: usize,
        hi: usize,
        goal: Ghost<spec_fn(u32, u32, u64, u64, ShaderChoice) -> bool>,
    )
        requires
            old(self).ledger_ok(wrays@, old(rays)@),
            marks_ok(old(self).found(), old(rays)@, goal@),
            marks_within(
                instance_marks(
                    assembly,
                    assembly.instances@[k as int],
                    old(self).levels(),
                    wrays@,
                ),
                goal@,
            ),
            assembly.wf(),
            k < assembly.instances@.len(),
            lo <= hi <= old(rays)@.len(),
            all_in_space(old(rays)@, lo as int, hi as int, wrays@, old(self).levels()),
        ensures
            final(self).ledger_ok(wrays@, final(rays)@),
            marks_ok(final(self).found(), final(rays)@, goal@),
            found_kept(
                old(self).found(),
                final(self).found(),
                old(rays)@,
                lo as int,
                hi as int,
            ),
            final(self).levels() == old(self).levels(),
            final(self).scene() == old(self).scene(),
            final(rays)@.len() == old(rays)@.len(),
            all_in_space(final(rays)@, lo as int, hi as int, wrays@, final(self).levels()),
            follows_in(
                old(rays)@,
                final(rays)@,
                lo as int,
                hi as int,
                instance_hits(assembly, assembly.instances@[k as int], old(self).levels(), wrays@),
            ),
            scene_sound(assembly, old(self).levels(), wrays@) ==> all_rest_at(
                assembly,
                assembly.instances@[k as int],
                old(self).levels(),
                wrays@,
                final(rays)@,
                lo as int,
                hi as int,
            ),
        decreases assembly, 1int,
    {
        let ghost outer = self.levels();
        let ghost inst = assembly.instances@[k as int];
        let ghost hits = instance_hits(assembly, inst, outer, wrays@);
        let ghost sound = scene_sound(assembly, outer, wrays@);
        let ghost found0 = self.found();
        // Transform rays if needed
        let points: [usize; 9] = self.enter_instance(assembly, k, wrays, rays, lo, hi, goal);
        let ghost entered = rays@;
        let ghost inner = self.levels();
        proof {
            lemma_follows_refl(entered, lo as int, lo as int, hits);
            lemma_found_kept_refl(found0, entered, lo as int, hi as int);
        }
        // Trace rays
        let mut m: usize = 0;
        while m < 8
            invariant
                m <= 8,
                self.ledger_ok(wrays@, rays@),
                marks_ok(self.found(), rays@, goal@),
                marks_within(instance_marks(assembly, inst, outer, wrays@), goal@),
                found_kept(found0, self.found(), entered, lo as int, hi as int),
                self.levels() == inner,
                inner == instance_levels(assembly, inst, outer),
                inst == assembly.instances@[k as int],
                hits == instance_hits(assembly, inst, outer, wrays@),
                sound == scene_sound(assembly, outer, wrays@),
                self.scene() == old(self).scene(),
                assembly.wf(),
                k < assembly.instances@.len(),
                rays@.len() == old(rays)@.len(),
                rays@.len() == entered.len(),
                points[0] == lo,
                points[8] == hi,
                hi <= rays@.len(),
                forall|i: int| 0 <= i < 8 ==> #[trigger] points[i] <= points[i + 1],
                all_in_space(rays@, lo as int, hi as int, wrays@, inner),
                follows_in(entered, rays@, lo as int, points[m as int] as int, hits),
                sound ==> all_rest_at(
                    assembly,
                    inst,
                    outer,
                    wrays@,
                    rays@,
                    lo as int,
                    points[m as int] as int,
                ),
            decreases 8 - m,
        {
            let a: usize = points[m];
            let b: usize = points[m + 1];
            proof {
                Self::lemma_points_bounded(points, m as int);
            }
            if a < b {
                let ghost cur = rays@;
                let ghost found1 = self.found();
                proof {
                    assert forall|j: int| a <= j < b implies in_space(
                        #[trigger] cur[j],
                        wrays@,
                        inner,
                    ) by {}
                }
                self.trace_placed(assembly, k, wrays, rays, a, b, Ghost(outer), goal);
                proof {
                    lemma_follows_widen(entered, cur, lo as int, a as int, lo as int, hi as int, hits);
                    lemma_found_kept_step(
                        found0,
                        found1,
                        self.found(),
                        entered,
                        cur,
                        lo as int,
                        hi as int,
                        a as int,
                        b as int,
                        hits,
                    );
                    lemma_follows_extend(entered, cur, rays@, lo as int, a as int, b as int, hits);
                    lemma_space_kept(
                        cur,
                        rays@,
                        lo as int,
                        hi as int,
                        a as int,
                        b as int,
                        wrays@,
                        inner,
                        hits,
                    );
                    if sound {
                        lemma_rests_extend(
                            assembly,
                            inst,
                            outer,
                            wrays@,
                            cur,
                            rays@,
                            lo as int,
                            a as int,
                            b as int,
                            hits,
                        );
                    }
                }
            }
            m += 1;
        }
        let ghost traced_rays = rays@;
        // Un-transform rays if needed
        self.leave_instance(assembly, k, wrays, rays, lo, hi, Ghost(outer), goal);
        proof {
            lemma_follows_weaken(old(rays)@, entered, lo as int, hi as int, nothing_met(), hits);
            lemma_follows_weaken(traced_rays, rays@, lo as int, hi as int, nothing_met(), hits);
            lemma_follows_trans(old(rays)@, entered, traced_rays, lo as int, hi as int, hits);
            lemma_follows_trans(old(rays)@, traced_rays, rays@, lo as int, hi as int, hits);
            lemma_found_kept_refl(found0, old(rays)@, lo as int, hi as int);
            lemma_found_kept_step(
                found0,
                found0,
                self.found(),
                old(rays)@,
                entered,
                lo as int,
                hi as int,
                lo as int,
                hi as int,
                hits,
            );
            if sound {
                lemma_rests_follow(
                    assembly,
                    inst,
                    outer,
                    wrays@,
                    traced_rays,
                    rays@,
                    lo as int,
                    hi as int,
                    hits,
                );
            }
        }
    }

    /// The places where the octants begin and end lie in order.
    proof fn lemma_points_bounded(points: [usize; 9], m: int)
        requires
            0 <= m < 8,
            forall|i: int| 0 <= i < 8 ==> #[trigger] points[i] <= points[i + 1],
        ensures
            points[0] <= points[m],
            points[m + 1] <= points[8],
    {
        assert(points[0] <= points[1]);
        assert(points[1] <= points[2]);
        assert(points[2] <= points[3]);
        assert(points[3] <= points[4]);
        assert(points[4] <= points[5]);
        assert(points[5] <= points[6]);
        assert(points[6] <= points[7]);
        assert(points[7] <= points[8]);
    }

    /// Traces the rays from `lo` up to `hi` through each of the instances
    /// from `first` up to `end` of `assembly`.
    fn trace_leaf(
        &mut self,
        assembly: &Assembly<S>,
        first: usize,
        end: usize,
        wrays: &[Ray],
        rays: &mut [AccelRay],
        lo: usize,
        hi: usize,
        goal: Ghost<spec_fn(u32, u32, u64, u64, ShaderChoice) -> bool>,
    )
        requires
            old(self).ledger_ok(wrays@, old(rays)@),
            marks_ok(old(self).found(), old(rays)@, goal@),
            marks_within(assembly_marks(assembly, old(self).levels(), wrays@), goal@),
            assembly.wf(),
            first <= end <= assembly.instances@.len(),
            lo <= hi <= old(rays)@.len(),
            all_in_space(old(rays)@, lo as int, hi as int, wrays@, old(self).levels()),
        ensures
            final(self).ledger_ok(wrays@, final(rays)@),
            marks_ok(final(self).found(), final(rays)@, goal@),
            found_kept(
                old(self).found(),
                final(self).found(),
                old(rays)@,
                lo as int,
                hi as int,
            ),
            final(self).levels() == old(self).levels(),
            final(self).scene() == old(self).scene(),
            final(rays)@.len() == old(rays)@.len(),
            all_in_space(final(rays)@, lo as int, hi as int, wrays@, final(self).levels()),
            follows_in(
                old(rays)@,
                final(rays)@,
                lo as int,
                hi as int,
                assembly_hits(assembly, old(self).levels(), wrays@),
            ),
            scene_sound(assembly, old(self).levels(), wrays@) ==> leaf_rests(
                assembly,
                old(self).levels(),
                wrays@,
                final(rays)@,
                lo as int,
                hi as int,
                first as int,
                end as int,
            ),
        decreases assembly, 2int,
    {
        let ghost outer = self.levels();
        let ghost hits = assembly_hits(assembly, outer, wrays@);
        let ghost sound = scene_sound(assembly, outer, wrays@);
        let ghost found0 = self.found();
        proof {
            lemma_follows_refl(old(rays)@, lo as int, hi as int, hits);
            lemma_found_kept_refl(found0, old(rays)@, lo as int, hi as int);
        }
        let mut k: usize = first;
        while k < end
            invariant
                first <= k <= end <= assembly.instances@.len(),
                self.ledger_ok(wrays@, rays@),
                marks_ok(self.found(), rays@, goal@),
                marks_within(assembly_marks(assembly, outer, wrays@), goal@),
                found_kept(found0, self.found(), old(rays)@, lo as int, hi as int),
                self.levels() == outer,
                outer == old(self).levels(),
                hits == assembly_hits(assembly, outer, wrays@),
                sound == scene_sound(assembly, outer, wrays@),
                self.scene() == old(self).scene(),
                assembly.wf(),
                lo <= hi <= rays@.len(),
                rays@.len() == old(rays)@.len(),
                all_in_space(rays@, lo as int, hi as int, wrays@, outer),
                follows_in(old(rays)@, rays@, lo as int, hi as int, hits),
                sound ==> leaf_rests(
                    assembly,
                    outer,
                    wrays@,
                    rays@,
                    lo as int,
                    hi as int,
                    first as int,
                    k as int,
                ),
            decreases end - k,
        {
            let ghost cur = rays@;
            let ghost found1 = self.found();
            proof {
                lemma_instance_mark_in_assembly(assembly, k as int, outer, wrays@);
                lemma_marks_within_trans(
                    instance_marks(assembly, assembly.instances@[k as int], outer, wrays@),
                    assembly_marks(assembly, outer, wrays@),
                    goal@,
                );
            }
            self.trace_instance(assembly, k, wrays, rays, lo, hi, goal);
            proof {
                let own = instance_hits(assembly, assembly.instances@[k as int], outer, wrays@);
                lemma_found_kept_step(
                    found0,
                    found1,
                    self.found(),
                    old(rays)@,
                    cur,
                    lo as int,
                    hi as int,
                    lo as int,
                    hi as int,
                    hits,
                );
                lemma_instance_hit_in_assembly(assembly, k as int, outer, wrays@);
                lemma_follows_weaken(cur, rays@, lo as int, hi as int, own, hits);
                lemma_follows_trans(old(rays)@, cur, rays@, lo as int, hi as int, hits);
                if sound {
                    lemma_leaf_rests_step(
                        assembly,
                        outer,
                        wrays@,
                        cur,
                        rays@,
                        lo as int,
                        hi as int,
                        first as int,
                        k as int,
                        hits,
                    );
                }
            }
            k += 1;
        }
    }

    /// Traces the rays from `lo` up to `hi` through `assembly`: walks them
    /// through the hierarchy over its instances, and through each instance
    /// whose bounds they pass.  The records of the other rays stay as they
    /// are.
    fn trace_assembly(
        &mut self,
        assembly: &Assembly<S>,
        wrays: &[Ray],
        rays: &mut [AccelRay],
        lo: usize,
        hi: usize,
        goal: Ghost<spec_fn(u32, u32, u64, u64, ShaderChoice) -> bool>,
    )
        requires
            old(self).ledger_ok(wrays@, old(rays)@),
            marks_ok(old(self).found(), old(rays)@, goal@),
            marks_within(assembly_marks(assembly, old(self).levels(), wrays@), goal@),
            assembly.wf(),
            lo <= hi <= old(rays)@.len(),
            all_in_space(old(rays)@, lo as int, hi as int, wrays@, old(self).levels()),
        ensures
            final(self).ledger_ok(wrays@, final(rays)@),
            marks_ok(final(self).found(), final(rays)@, goal@),
            found_kept(
                old(self).found(),
                final(self).found(),
                old(rays)@,
                lo as int,
                hi as int,
            ),
            final(self).levels() == old(self).levels(),
            final(self).scene() == old(self).scene(),
            final(rays)@.len() == old(rays)@.len(),
            all_in_space(final(rays)@, lo as int, hi as int, wrays@, final(self).levels()),
            follows_in(
                old(rays)@,
                final(rays)@,
                lo as int,
                hi as int,
                assembly_hits(assembly, old(self).levels(), wrays@),
            ),
            scene_sound(assembly, old(self).levels(), wrays@) ==> all_rest(
                assembly,
                old(self).levels(),
                wrays@,
                final(rays)@,
                lo as int,
                hi as int,
            ),
        decreases assembly, 3int,
    {
        let ghost outer = self.levels();
        let ghost hits = assembly_hits(assembly, outer, wrays@);
        let ghost sound = scene_sound(assembly, outer, wrays@);
        let ghost rests = space_rests(assembly, outer, wrays@);
        let ghost found0 = self.found();
        let mut trav: Traverser = Self::begin_walk(assembly, rays, lo, hi);
        proof {
            lemma_follows_refl(old(rays)@, lo as int, hi as int, hits);
            lemma_found_kept_refl(found0, old(rays)@, lo as int, hi as int);
        }
        loop
            invariant
                self.ledger_ok(wrays@, rays@),
                marks_ok(self.found(), rays@, goal@),
                marks_within(assembly_marks(assembly, outer, wrays@), goal@),
                found_kept(found0, self.found(), old(rays)@, lo as int, hi as int),
                self.levels() == outer,
                outer == old(self).levels(),
                hits == assembly_hits(assembly, outer, wrays@),
                sound == scene_sound(assembly, outer, wrays@),
                rests == space_rests(assembly, outer, wrays@),
                found0 == old(self).found(),
                self.scene() == old(self).scene(),
                assembly.wf(),
                lo <= hi <= rays@.len(),
                rays@.len() == old(rays)@.len(),
                trav.wf(assembly.object_accel@, assembly.instances@, hi - lo),
                all_in_space(rays@, lo as int, hi as int, wrays@, outer),
                follows_in(old(rays)@, rays@, lo as int, hi as int, hits),
                trav.accounts(
                    assembly.object_accel@,
                    assembly.instances@.len() as int,
                    rays@.subrange(lo as int, hi as int),
                    rests,
                    None,
                ) || !sound,
            decreases trav.work(assembly.object_accel@),
        {
            let ghost cur = rays@;
            let ghost found = self.found();
            let leaf = Self::next_leaf(
                assembly,
                &mut trav,
                rays,
                lo,
                hi,
                Ghost(wrays@.len() as int),
            );
            let ghost at_leaf = rays@;
            proof {
                lemma_reordered(cur, at_leaf, lo as int, hi as int, wrays@, outer, found, goal@);
                lemma_follows_weaken(cur, at_leaf, lo as int, hi as int, nothing_met(), hits);
                lemma_follows_trans(old(rays)@, cur, at_leaf, lo as int, hi as int, hits);
            }
            match leaf {
                None => {
                    proof {
                        if sound {
                            lemma_walk_done(
                                &trav,
                                assembly,
                                outer,
                                wrays@,
                                at_leaf,
                                lo as int,
                                hi as int,
                            );
                        }
                    }
                    return ;
                },
                Some((first, end, part)) => {
                    proof {
                        assert forall|j: int| lo <= j < lo + part implies in_space(
                            #[trigger] at_leaf[j],
                            wrays@,
                            outer,
                        ) by {}
                    }
                    self.trace_leaf(assembly, first, end, wrays, rays, lo, lo + part, goal);
                    proof {
                        lemma_found_kept_step(
                            found0,
                            found,
                            self.found(),
                            old(rays)@,
                            at_leaf,
                            lo as int,
                            hi as int,
                            lo as int,
                            lo + part,
                            hits,
                        );
                        lemma_follows_step(
                            old(rays)@,
                            at_leaf,
                            rays@,
                            lo as int,
                            hi as int,
                            lo as int,
                            lo + part,
                            hits,
                        );
                        lemma_space_kept(
                            at_leaf,
                            rays@,
                            lo as int,
                            hi as int,
                            lo as int,
                            lo + part,
                            wrays@,
                            outer,
                            hits,
                        );
                        if sound {
                            lemma_leaf_done(
                                &trav,
                                assembly,
                                outer,
                                wrays@,
                                at_leaf,
                                rays@,
                                lo as int,
                                hi as int,
                                (first, end, part),
                                hits,
                            );
                        }
                    }
                },
            }
        }
    }

    /// Traces the rays `rays`, which stand for the world rays `wrays`,
    /// through the scene, and returns what each world ray has found.
    fn trace<'b>(&'b mut self, wrays: &[Ray], rays: &mut [AccelRay]) -> (isects: &'b [
        SurfaceIntersection
    ])
        requires
            old(self).idle(),
            world_rays_ok(wrays@),
            fresh_rays(old(rays)@, wrays@),
        ensures
            final(self).idle(),
            final(self).scene() == old(self).scene(),
            isects@.len() == wrays@.len(),
            final(rays)@.len() == old(rays)@.len(),
            forall|i: int|
                0 <= i < isects@.len() ==> record_attained(
                    old(self).scene(),
                    wrays@,
                    #[trigger] isects@[i],
                    i,
                ),
            scene_sound(old(self).scene(), Seq::empty(), wrays@) ==> forall|i: int|
                0 <= i < isects@.len() ==> record_nearest(
                    old(self).scene(),
                    wrays@,
                    #[trigger] isects@[i],
                    i,
                ),
    {
        // Ready the isects
        self.isects.clear();
        let mut i: usize = 0;
        while i < wrays.len()
            invariant
                i <= wrays@.len(),
                self.isects@.len() == i,
                self.root == old(self).root,
                self.xform_stack == old(self).xform_stack,
                forall|j: int| 0 <= j < i ==> #[trigger] self.isects@[j] == SurfaceIntersection::Miss,
            decreases wrays@.len() - i,
        {
            self.isects.push(SurfaceIntersection::Miss);
            i += 1;
        }
        let root: &Assembly<S> = self.root;
        let ghost outer = self.levels();
        let ghost hits = assembly_hits(root, outer, wrays@);
        let ghost goal = assembly_marks(root, outer, wrays@);
        let ghost sound = scene_sound(root, outer, wrays@);
        proof {
            assert(outer =~= Seq::empty());
            assert forall|j: int| 0 <= j < rays@.len() implies (#[trigger] rays@[j]).wf() && rays@[j].id
                < wrays@.len() && record_agrees(self.isects@, wrays@, rays@[j]) && in_space(
                rays@[j],
                wrays@,
                outer,
            ) && mark_ok(self.isects@, rays@[j], goal) by {
                assert(rays@[j] == spec_accel(wrays@, j));
                assert(wrays@[j].wf());
            }
            assert forall|a: int, b: int| 0 <= a < b < rays@.len() implies (#[trigger] rays@[a]).id
                != (#[trigger] rays@[b]).id by {
                assert(rays@[a] == spec_accel(wrays@, a));
                assert(rays@[b] == spec_accel(wrays@, b));
            }
        }
        let points: [usize; 9] = split_rays_by_direction(rays);
        let ghost entered = rays@;
        proof {
            let ok = |r: AccelRay| r.wf() && r.id < wrays@.len();
            lemma_rearranged_all(old(rays)@, entered, ok);
            lemma_reordered(
                old(rays)@,
                entered,
                0,
                old(rays)@.len() as int,
                wrays@,
                outer,
                self.isects@,
                goal,
            );
            lemma_follows_weaken(
                old(rays)@,
                entered,
                0,
                old(rays)@.len() as int,
                nothing_met(),
                hits,
            );
            lemma_follows_refl(entered, 0, 0, hits);
        }
        let mut m: usize = 0;
        while m < 8
            invariant
                m <= 8,
                self.ledger_ok(wrays@, rays@),
                marks_ok(self.found(), rays@, goal),
                self.levels() == outer,
                outer == Seq::<Seq<Matrix>>::empty(),
                hits == assembly_hits(root, outer, wrays@),
                goal == assembly_marks(root, outer, wrays@),
                sound == scene_sound(root, outer, wrays@),
                root == self.root,
                root == old(self).root,
                rays@.len() == old(rays)@.len(),
                rays@.len() == entered.len(),
                points[0] == 0,
                points[8] == rays@.len(),
                forall|i: int| 0 <= i < 8 ==> #[trigger] points[i] <= points[i + 1],
                all_in_space(rays@, 0, rays@.len() as int, wrays@, outer),
                follows_in(entered, rays@, 0, points[m as int] as int, hits),
                sound ==> all_rest(root, outer, wrays@, rays@, 0, points[m as int] as int),
            decreases 8 - m,
        {
            let a: usize = points[m];
            let b: usize = points[m + 1];
            proof {
                Self::lemma_points_bounded(points, m as int);
            }
            if a < b {
                let ghost cur = rays@;
                proof {
                    assert forall|j: int| a <= j < b implies in_space(
                        #[trigger] cur[j],
                        wrays@,
                        outer,
                    ) by {}
                }
                self.trace_assembly(root, wrays, rays, a, b, Ghost(goal));
                proof {
                    lemma_follows_extend(entered, cur, rays@, 0, a as int, b as int, hits);
                    lemma_space_kept(
                        cur,
                        rays@,
                        0,
                        rays@.len() as int,
                        a as int,
                        b as int,
                        wrays@,
                        outer,
                        hits,
                    );
                    lemma_follows_outside(cur, rays@, a as int, b as int, hits);
                    if sound {
                        assert forall|j: int| 0 <= j < b implies crate::hits::assembly_rests(
                            root,
                            outer,
                            wrays@,
                            #[trigger] rays@[j],
                        ) by {
                            if j < a {
                                assert(rays@[j] == cur[j]);
                            }
                        }
                    }
                }
            }
            m += 1;
        }
        proof {
            let n = rays@.len() as int;
            lemma_follows_trans(old(rays)@, entered, rays@, 0, n, hits);
            assert forall|i: int| 0 <= i < n implies record_attained(
                root,
                wrays@,
                #[trigger] self.isects@[i],
                i,
            ) && (sound ==> record_nearest(root, wrays@, self.isects@[i], i)) by {
                let j = lemma_follows_heir(old(rays)@, rays@, 0, n, hits, i);
                assert(old(rays)@[i] == spec_accel(wrays@, i));
                assert(record_agrees(self.isects@, wrays@, rays@[j]));
                assert(mark_ok(self.isects@, rays@[j], goal));
                lemma_traced_finds(root, wrays@, self.isects@, rays@[j], i);
            }
        }
        self.isects.as_slice()
    }
}

/// Traces batches of rays through a scene.
pub struct Tracer<'a, S: Surface> {
    rays: Vec<AccelRay>,
    inner: TracerInner<'a, S>,
}

impl<'a, S: Surface> Tracer<'a, S> {
    /// The scene that is traced.
    pub closed spec fn scene(&self) -> &Assembly<S> {
        self.inner.scene()
    }

    /// Whether the tracer is ready to trace.
    pub closed spec fn wf(&self) -> bool {
        self.inner.idle()
    }

    /// A tracer for the scene `assembly`.
    pub fn from_assembly(assembly: &'a Assembly<S>) -> (tracer: Tracer<'a, S>)
        requires
            assembly.wf(),
        ensures
            tracer.wf(),
            tracer.scene() == assembly,
    {
        Tracer {
            rays: Vec::new(),
            inner: TracerInner {
                root: assembly,
                xform_stack: TransformStack::new(),
                isects: Vec::new(),
            },
        }
    }

    /// Traces the world rays `wrays` through the scene, and returns what
    /// each of them has found.  A hit on record is a place where the ray
    /// meets a surface of the scene within its reach, and has the handle
    /// of such a surface and the shader of the instance that places it.
    /// If the bounds of the instances of the scene hold what the instances
    /// place, nothing is left out: a ray with no hit on record meets no
    /// surface within its reach, and a ray that is no shadow ray meets
    /// none before the hit on record.
    pub fn trace<'b>(&'b mut self, wrays: &[Ray]) -> (isects: &'b [SurfaceIntersection])
        requires
            old(self).wf(),
            world_rays_ok(wrays@),
            wrays@.len() <= u32::MAX,
        ensures
            final(self).wf(),
            final(self).scene() == old(self).scene(),
            isects@.len() == wrays@.len(),
            forall|i: int|
                0 <= i < isects@.len() ==> record_attained(
                    old(self).scene(),
                    wrays@,
                    #[trigger] isects@[i],
                    i,
                ),
            scene_sound(old(self).scene(), Seq::empty(), wrays@) ==> forall|i: int|
                0 <= i < isects@.len() ==> record_nearest(
                    old(self).scene(),
                    wrays@,
                    #[trigger] isects@[i],
                    i,
                ),
            old(self).scene().instances@.len() == 0 ==> forall|i: int|
                0 <= i < isects@.len() ==> #[trigger] isects@[i] == SurfaceIntersection::Miss,
    {
        self.rays.clear();
        let mut i: usize = 0;
        while i < wrays.len()
            invariant
                i <= wrays@.len(),
                wrays@.len() <= u32::MAX,
                world_rays_ok(wrays@),
                self.inner == old(self).inner,
                self.rays@.len() == i,
                forall|j: int| 0 <= j < i ==> #[trigger] self.rays@[j] == spec_accel(wrays@, j),
            decreases wrays@.len() - i,
        {
            assert(wrays@[i as int].wf());
            self.rays.push(AccelRay::new(&wrays[i], i as u32));
            i += 1;
        }
        let isects = self.inner.trace(wrays, self.rays.as_mut_slice());
        proof {
            if old(self).scene().instances@.len() == 0 {
                assert forall|i: int| 0 <= i < isects@.len() implies #[trigger] isects@[i]
                    == SurfaceIntersection::Miss by {
                    assert(record_attained(old(self).scene(), wrays@, isects@[i], i));
                }
            }
        }
        isects
    }
}

} // verus!
