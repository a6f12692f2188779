use vstd::prelude::*;
use crate::algorithm::{found_in, lemma_rearranged_all, rearranged_in};
use crate::bbox::same_geometry;
use crate::ray::{AccelRay, Ray, FLAG_DONE, FLAG_SHADOW};
use crate::scene::{
    spec_shader_choice, Assembly, Instance, InstanceType, Object, ShaderChoice, Surface,
    SurfaceIntersection,
};
use crate::tracer::{spec_restored, spec_xformed};
use crate::transform::Matrix;
use crate::transform_stack::{spec_push, spec_top_of};
use crate::traverse::{culls, distinct_ids, lemma_distinct_ids_permuted};
use crate::vector::Vector;

verus! {

/// Whether a ray that meets a surface at `hit` has nothing to gain from the
/// surface: it is done, or it does not meet it, or only beyond its reach.
pub open spec fn settled_with(hit: Option<u64>, ray: AccelRay) -> bool {
    ray.spec_is_done() || match hit {
        Some(t) => ray.max_t <= t,
        None => true,
    }
}

/// What a test against a surface makes of the ray `before`, which meets
/// the surface at `hit`: a ray that is done, or does not meet the surface
/// within its reach, stays as it is; the reach of another is drawn in to
/// where it meets the surface, and it is marked as done if it is a shadow
/// ray, to which any hit is as good as the nearest.
pub open spec fn spec_tested(hit: Option<u64>, before: AccelRay) -> AccelRay {
    match hit {
        Some(t) => {
            if !before.spec_is_done() && t < before.max_t {
                let nearer = AccelRay { max_t: t, ..before };
                if before.flags & FLAG_SHADOW != 0 {
                    nearer.spec_mark_done()
                } else {
                    nearer
                }
            } else {
                before
            }
        },
        None => before,
    }
}

/// Whether `after` is what a test against a surface makes of `before`,
/// which meets the surface at `hit`.
pub open spec fn tested_with(hit: Option<u64>, before: AccelRay, after: AccelRay) -> bool {
    after == spec_tested(hit, before)
}

/// A ray that was tested against a surface keeps its course and its kind,
/// reaches as far as before or up to where it meets the surface, if that
/// is nearer, is left with nothing to gain from the surface, and is
/// marked as done only if it is a shadow ray.
pub proof fn lemma_tested_with(hit: Option<u64>, before: AccelRay, after: AccelRay)
    requires
        tested_with(hit, before, after),
    ensures
        same_geometry(before, after),
        before.spec_is_done() ==> after == before,
        after.flags & FLAG_SHADOW == before.flags & FLAG_SHADOW,
        after.spec_is_done() && !before.spec_is_done() ==> before.flags & FLAG_SHADOW != 0,
        after.max_t == before.max_t || (hit == Some(after.max_t) && after.max_t < before.max_t),
        settled_with(hit, after),
{
    let f: u32 = before.flags;
    assert((f | 1u32) & 2u32 == f & 2u32) by (bit_vector);
    assert((f | 1u32) & 1u32 != 0) by (bit_vector);
}

/// Whether what is on record for the world ray that `ray` stands for goes
/// with the state of `ray`: a ray of which a hit is on record reaches as
/// far as the hit, which lies within the reach of the world ray; a ray of
/// which none is on record reaches as far as the world ray, and is done
/// only if the world ray was.
pub open spec fn record_agrees(
    isects: Seq<SurfaceIntersection>,
    wrays: Seq<Ray>,
    ray: AccelRay,
) -> bool {
    ray.id < isects.len() && ray.id < wrays.len() ==> match isects[ray.id as int] {
        SurfaceIntersection::Hit { t, .. } => ray.max_t == t && t < wrays[ray.id as int].max_t,
        SurfaceIntersection::Miss => ray.max_t == wrays[ray.id as int].max_t && (
        ray.spec_is_done() ==> wrays[ray.id as int].flags & FLAG_DONE != 0),
    }
}

/// Whether the records go with each of `rays`.
pub open spec fn records_agree(
    isects: Seq<SurfaceIntersection>,
    wrays: Seq<Ray>,
    rays: Seq<AccelRay>,
) -> bool {
    forall|j: int| 0 <= j < rays.len() ==> record_agrees(isects, wrays, #[trigger] rays[j])
}

/// Whether the record of the world ray that `before` stands for is what
/// a test against a surface with the handle `handle` leaves when it makes
/// `after` of `before` and is to record its hits with `shader`: if the
/// reach of the ray was drawn in, a hit at the new end of the reach with
/// that handle and that shader; else what it was.
pub open spec fn recorded_with(
    found_before: Seq<SurfaceIntersection>,
    found_after: Seq<SurfaceIntersection>,
    before: AccelRay,
    after: AccelRay,
    handle: u64,
    shader: ShaderChoice,
) -> bool {
    before.id < found_before.len() && before.id < found_after.len() ==> found_after[before.id as int]
        == if after.max_t < before.max_t {
        SurfaceIntersection::Hit { t: after.max_t, handle, shader }
    } else {
        found_before[before.id as int]
    }
}

/// Whether a hit that is on record for the world ray that `ray` stands
/// for is one that `goal` knows: `goal` says which world ray meets at
/// which time, where, a surface with which handle that records its hits
/// with which shader.
pub open spec fn mark_ok(
    found: Seq<SurfaceIntersection>,
    ray: AccelRay,
    goal: spec_fn(u32, u32, u64, u64, ShaderChoice) -> bool,
) -> bool {
    ray.id < found.len() ==> match found[ray.id as int] {
        SurfaceIntersection::Hit { t, handle, shader } => goal(ray.id, ray.time, t, handle, shader),
        SurfaceIntersection::Miss => true,
    }
}

/// Whether the hits on record for `rays` are ones that `goal` knows.
pub open spec fn marks_ok(
    found: Seq<SurfaceIntersection>,
    rays: Seq<AccelRay>,
    goal: spec_fn(u32, u32, u64, u64, ShaderChoice) -> bool,
) -> bool {
    forall|j: int| 0 <= j < rays.len() ==> mark_ok(found, #[trigger] rays[j], goal)
}

/// Whether none of the rays from `lo` up to `hi` stands for world ray
/// `id`.
pub open spec fn id_absent_in(rays: Seq<AccelRay>, lo: int, hi: int, id: int) -> bool {
    forall|j: int| lo <= j < hi ==> (#[trigger] rays[j]).id != id
}

/// Whether the records of the world rays for which none of the rays from
/// `lo` up to `hi` stands are what they were.
pub open spec fn found_kept(
    found_before: Seq<SurfaceIntersection>,
    found_after: Seq<SurfaceIntersection>,
    rays: Seq<AccelRay>,
    lo: int,
    hi: int,
) -> bool {
    &&& found_after.len() == found_before.len()
    &&& forall|i: int|
        0 <= i < found_before.len() && id_absent_in(rays, lo, hi, i) ==> #[trigger] found_after[i]
            == found_before[i]
}

/// The ray `ray` in the space that the top of `levels` maps the world to:
/// origin and direction are those of its world ray, taken through the
/// transform at the time of the ray.
pub open spec fn space_ray(ray: AccelRay, wrays: Seq<Ray>, levels: Seq<Seq<Matrix>>) -> AccelRay {
    let top = spec_top_of(levels);
    if top.len() == 0 {
        spec_restored(ray, wrays)
    } else {
        spec_xformed(ray, wrays, top)
    }
}

/// Whether `ray` runs as its world ray does in the space that the
/// transform samples `top` map the world to; in the world, if there are
/// none.
pub open spec fn in_top(ray: AccelRay, wrays: Seq<Ray>, top: Seq<Matrix>) -> bool {
    let there = if top.len() == 0 {
        spec_restored(ray, wrays)
    } else {
        spec_xformed(ray, wrays, top)
    };
    ray.orig == there.orig && ray.dir == there.dir
}

/// Whether each of `rays` runs as its world ray does in the space that
/// the transform samples `top` map the world to.
pub open spec fn all_in_top(rays: Seq<AccelRay>, wrays: Seq<Ray>, top: Seq<Matrix>) -> bool {
    forall|j: int| 0 <= j < rays.len() ==> in_top(#[trigger] rays[j], wrays, top)
}

/// A ray that stands for world ray `id` at `time`, and says nothing else.
pub open spec fn probe(id: u32, time: u32) -> AccelRay {
    AccelRay {
        orig: Vector { x: 0, y: 0, z: 0 },
        dir: Vector { x: 0, y: 0, z: 0 },
        max_t: 0,
        time,
        flags: 0,
        id,
    }
}

/// How world ray `id` runs at `time` in the space that the top of `levels`
/// maps the world to.
pub open spec fn course(id: u32, time: u32, wrays: Seq<Ray>, levels: Seq<Seq<Matrix>>) -> AccelRay {
    space_ray(probe(id, time), wrays, levels)
}

/// Whether `ray` runs as its world ray does in the space that the top of
/// `levels` maps the world to.
pub open spec fn in_space(ray: AccelRay, wrays: Seq<Ray>, levels: Seq<Seq<Matrix>>) -> bool {
    &&& ray.orig == course(ray.id, ray.time, wrays, levels).orig
    &&& ray.dir == course(ray.id, ray.time, wrays, levels).dir
}

/// Whether the rays from `lo` up to `hi` run as their world rays do in
/// the space that the top of `levels` maps the world to.
pub open spec fn all_in_space(
    rays: Seq<AccelRay>,
    lo: int,
    hi: int,
    wrays: Seq<Ray>,
    levels: Seq<Seq<Matrix>>,
) -> bool {
    forall|j: int| lo <= j < hi ==> in_space(#[trigger] rays[j], wrays, levels)
}

/// The transforms that the tracer is inside of once it has entered the
/// instance `inst` of `a` from within `levels`.
pub open spec fn instance_levels<S>(
    a: &Assembly<S>,
    inst: Instance,
    levels: Seq<Seq<Matrix>>,
) -> Seq<Seq<Matrix>> {
    match inst.transform_indices {
        Some((start, end)) => spec_push(levels, a.xforms@.subrange(start as int, end as int)),
        None => levels,
    }
}

/// The surface of an object.
pub open spec fn object_surface<S>(o: Object<S>) -> S {
    match o {
        Object::Surface(s) => s,
        Object::SurfaceLight(s) => s,
    }
}

/// Where world ray `id` meets the surface `s` at `time`, if it does, in
/// the space that the top of `levels` maps the world to.
pub open spec fn surface_hit<S: Surface>(
    s: S,
    levels: Seq<Seq<Matrix>>,
    wrays: Seq<Ray>,
    id: u32,
    time: u32,
) -> Option<u64> {
    let c = course(id, time, wrays, levels);
    s.spec_hit_at(c.orig, c.dir, c.time)
}

/// Whether world ray `id` meets at `time`, at parameter `t`, the surface
/// of the instance `inst` of `a`, which the tracer has reached through
/// `levels`, or a surface of the assembly that the instance places.
pub open spec fn instance_hit<S: Surface>(
    a: &Assembly<S>,
    inst: Instance,
    levels: Seq<Seq<Matrix>>,
    wrays: Seq<Ray>,
    id: u32,
    time: u32,
    t: u64,
) -> bool
    decreases a, 0int,
{
    let inner = instance_levels(a, inst, levels);
    match inst.instance_type {
        InstanceType::Object => inst.data_index < a.objects@.len() && surface_hit(
            object_surface(a.objects@[inst.data_index as int]),
            inner,
            wrays,
            id,
            time,
        ) == Some(t),
        InstanceType::Assembly => inst.data_index < a.assemblies@.len() && assembly_hit(
            &a.assemblies@[inst.data_index as int],
            inner,
            wrays,
            id,
            time,
            t,
        ),
    }
}

/// Whether world ray `id` meets a surface of `a` at `time`, at parameter
/// `t`.
pub open spec fn assembly_hit<S: Surface>(
    a: &Assembly<S>,
    levels: Seq<Seq<Matrix>>,
    wrays: Seq<Ray>,
    id: u32,
    time: u32,
    t: u64,
) -> bool
    decreases a, 1int,
{
    exists|k: int|
        0 <= k < a.instances@.len() && instance_hit(
            a,
            #[trigger] a.instances@[k],
            levels,
            wrays,
            id,
            time,
            t,
        )
}

/// The shader that the hits of what the instance `inst` of `a` places
/// are recorded with.
pub open spec fn spec_shader_of<S>(a: &Assembly<S>, inst: Instance) -> ShaderChoice {
    spec_shader_choice(
        a.objects@[inst.data_index as int],
        match inst.surface_shader_index {
            Some(i) => Some(a.surface_shaders@[i as int]),
            None => None,
        },
    )
}

/// Whether world ray `id` meets at `time`, at parameter `t`, a surface
/// with the handle `handle` that the instance `inst` of `a` places, itself
/// or through the assembly that it places, and whose hits are recorded
/// with `shader`.
pub open spec fn instance_mark<S: Surface>(
    a: &Assembly<S>,
    inst: Instance,
    levels: Seq<Seq<Matrix>>,
    wrays: Seq<Ray>,
    id: u32,
    time: u32,
    t: u64,
    handle: u64,
    shader: ShaderChoice,
) -> bool
    decreases a, 0int,
{
    let inner = instance_levels(a, inst, levels);
    match inst.instance_type {
        InstanceType::Object => inst.data_index < a.objects@.len() && surface_hit(
            object_surface(a.objects@[inst.data_index as int]),
            inner,
            wrays,
            id,
            time,
        ) == Some(t) && handle == object_surface(a.objects@[inst.data_index as int]).spec_handle()
            && shader == spec_shader_of(a, inst),
        InstanceType::Assembly => inst.data_index < a.assemblies@.len() && assembly_mark(
            &a.assemblies@[inst.data_index as int],
            inner,
            wrays,
            id,
            time,
            t,
            handle,
            shader,
        ),
    }
}

/// Whether world ray `id` meets at `time`, at parameter `t`, a surface of
/// `a` with the handle `handle` whose hits are recorded with `shader`.
pub open spec fn assembly_mark<S: Surface>(
    a: &Assembly<S>,
    levels: Seq<Seq<Matrix>>,
    wrays: Seq<Ray>,
    id: u32,
    time: u32,
    t: u64,
    handle: u64,
    shader: ShaderChoice,
) -> bool
    decreases a, 1int,
{
    exists|k: int|
        0 <= k < a.instances@.len() && instance_mark(
            a,
            #[trigger] a.instances@[k],
            levels,
            wrays,
            id,
            time,
            t,
            handle,
            shader,
        )
}

/// The marked hits of the instance `inst` of `a`.
pub open spec fn instance_marks<S: Surface>(
    a: &Assembly<S>,
    inst: Instance,
    levels: Seq<Seq<Matrix>>,
    wrays: Seq<Ray>,
) -> spec_fn(u32, u32, u64, u64, ShaderChoice) -> bool {
    |id: u32, time: u32, t: u64, handle: u64, shader: ShaderChoice|
        instance_mark(a, inst, levels, wrays, id, time, t, handle, shader)
}

/// The marked hits of `a`.
pub open spec fn assembly_marks<S: Surface>(
    a: &Assembly<S>,
    levels: Seq<Seq<Matrix>>,
    wrays: Seq<Ray>,
) -> spec_fn(u32, u32, u64, u64, ShaderChoice) -> bool {
    |id: u32, time: u32, t: u64, handle: u64, shader: ShaderChoice|
        assembly_mark(a, levels, wrays, id, time, t, handle, shader)
}

/// Whether `goal` knows every hit that `marks` knows.
pub open spec fn marks_within(
    marks: spec_fn(u32, u32, u64, u64, ShaderChoice) -> bool,
    goal: spec_fn(u32, u32, u64, u64, ShaderChoice) -> bool,
) -> bool {
    forall|id: u32, time: u32, t: u64, handle: u64, shader: ShaderChoice| #[trigger]
        marks(id, time, t, handle, shader) ==> goal(id, time, t, handle, shader)
}

/// Whether `ray` has nothing to gain from the instance `inst` of `a`: it
/// is done, or its world ray meets nothing that the instance places
/// within the reach of `ray`.
pub open spec fn instance_rests<S: Surface>(
    a: &Assembly<S>,
    inst: Instance,
    levels: Seq<Seq<Matrix>>,
    wrays: Seq<Ray>,
    ray: AccelRay,
) -> bool {
    ray.spec_is_done() || forall|t: u64| #[trigger]
        instance_hit(a, inst, levels, wrays, ray.id, ray.time, t) ==> ray.max_t <= t
}

/// Whether `ray` has nothing to gain from `a`: it is done, or its world
/// ray meets no surface of `a` within the reach of `ray`.
pub open spec fn assembly_rests<S: Surface>(
    a: &Assembly<S>,
    levels: Seq<Seq<Matrix>>,
    wrays: Seq<Ray>,
    ray: AccelRay,
) -> bool {
    ray.spec_is_done() || forall|t: u64| #[trigger]
        assembly_hit(a, levels, wrays, ray.id, ray.time, t) ==> ray.max_t <= t
}

/// Whether each of the rays from `lo` up to `hi` has nothing to gain from
/// `a`.
pub open spec fn all_rest<S: Surface>(
    a: &Assembly<S>,
    levels: Seq<Seq<Matrix>>,
    wrays: Seq<Ray>,
    rays: Seq<AccelRay>,
    lo: int,
    hi: int,
) -> bool {
    forall|j: int| lo <= j < hi ==> assembly_rests(a, levels, wrays, #[trigger] rays[j])
}

/// A ray in the space of an assembly can rest as far as an instance is
/// concerned from which it has nothing to gain.
pub open spec fn space_rests<S: Surface>(
    a: &Assembly<S>,
    levels: Seq<Seq<Matrix>>,
    wrays: Seq<Ray>,
) -> spec_fn(int, AccelRay) -> bool {
    |k: int, ray: AccelRay|
        in_space(ray, wrays, levels) && ray.id < wrays.len() ==> instance_rests(
            a,
            a.instances@[k],
            levels,
            wrays,
            ray,
        )
}

/// Whether the bounds of the instances in the scene below `a` hold what
/// the instances place: a ray in the space of an assembly that misses the
/// bounds of one of its instances has nothing to gain from the instance.
pub open spec fn scene_sound<S: Surface>(
    a: &Assembly<S>,
    levels: Seq<Seq<Matrix>>,
    wrays: Seq<Ray>,
) -> bool
    decreases a,
{
    &&& culls(a.instances@, space_rests(a, levels, wrays))
    &&& forall|k: int|
        0 <= k < a.instances@.len() && (#[trigger] a.instances@[k]).instance_type
            == InstanceType::Assembly && a.instances@[k].data_index < a.assemblies@.len()
            ==> scene_sound(
            &a.assemblies@[a.instances@[k].data_index as int],
            instance_levels(a, a.instances@[k], levels),
            wrays,
        )
}

/// The hits of the instance `inst` of `a`.
pub open spec fn instance_hits<S: Surface>(
    a: &Assembly<S>,
    inst: Instance,
    levels: Seq<Seq<Matrix>>,
    wrays: Seq<Ray>,
) -> spec_fn(u32, u32, u64) -> bool {
    |id: u32, time: u32, t: u64| instance_hit(a, inst, levels, wrays, id, time, t)
}

/// The hits of `a`.
pub open spec fn assembly_hits<S: Surface>(
    a: &Assembly<S>,
    levels: Seq<Seq<Matrix>>,
    wrays: Seq<Ray>,
) -> spec_fn(u32, u32, u64) -> bool {
    |id: u32, time: u32, t: u64| assembly_hit(a, levels, wrays, id, time, t)
}

/// Whether `after` may be a later state of `before`: it stands for the
/// same world ray at the same time, is of the same kind, reaches no
/// further, and is done if `before` was.
pub open spec fn drawn_in(before: AccelRay, after: AccelRay) -> bool {
    &&& after.id == before.id
    &&& after.time == before.time
    &&& after.flags & FLAG_SHADOW == before.flags & FLAG_SHADOW
    &&& after.max_t <= before.max_t
    &&& before.spec_is_done() ==> after.spec_is_done()
}

/// Whether `after` is what tracing may have made of `before`, where
/// `attained` says where which world ray meets something at which time:
/// it is a later state of `before`, marked as done since only if it is a
/// shadow ray, and reaches as far as before or up to a place where its
/// world ray meets something.
pub open spec fn traced(
    before: AccelRay,
    after: AccelRay,
    attained: spec_fn(u32, u32, u64) -> bool,
) -> bool {
    &&& drawn_in(before, after)
    &&& after.spec_is_done() && !before.spec_is_done() ==> before.flags & FLAG_SHADOW != 0
    &&& after.max_t == before.max_t || attained(after.id, after.time, after.max_t)
}

/// Whether the ray at `j` in `after` is what tracing has made of one of
/// the rays from `lo` up to `hi` in `before`.
pub open spec fn has_source(
    before: Seq<AccelRay>,
    after: Seq<AccelRay>,
    lo: int,
    hi: int,
    attained: spec_fn(u32, u32, u64) -> bool,
    j: int,
) -> bool {
    exists|i: int| lo <= i < hi && traced(#[trigger] before[i], after[j], attained)
}

/// Whether one of the rays from `lo` up to `hi` in `after` is what tracing
/// has made of the ray at `i` in `before`.
pub open spec fn has_heir(
    before: Seq<AccelRay>,
    after: Seq<AccelRay>,
    lo: int,
    hi: int,
    attained: spec_fn(u32, u32, u64) -> bool,
    i: int,
) -> bool {
    exists|j: int| lo <= j < hi && traced(before[i], #[trigger] after[j], attained)
}

/// Whether `after` is what tracing the rays from `lo` up to `hi` has made
/// of `before`: the rays of the range are what tracing has made of the
/// rays of the range, in some order, and the others are as they were.
#[verifier::opaque]
pub open spec fn follows_in(
    before: Seq<AccelRay>,
    after: Seq<AccelRay>,
    lo: int,
    hi: int,
    attained: spec_fn(u32, u32, u64) -> bool,
) -> bool {
    &&& after.len() == before.len()
    &&& forall|j: int| lo <= j < hi ==> #[trigger] has_source(before, after, lo, hi, attained, j)
    &&& forall|i: int| lo <= i < hi ==> #[trigger] has_heir(before, after, lo, hi, attained, i)
    &&& forall|j: int| 0 <= j < lo || hi <= j < after.len() ==> #[trigger] after[j] == before[j]
}

/// Rays that were traced each in its place follow from what they were.
pub proof fn lemma_follows_pointwise(
    before: Seq<AccelRay>,
    after: Seq<AccelRay>,
    lo: int,
    hi: int,
    attained: spec_fn(u32, u32, u64) -> bool,
)
    requires
        0 <= lo <= hi <= before.len(),
        after.len() == before.len(),
        forall|j: int| lo <= j < hi ==> traced(#[trigger] before[j], after[j], attained),
        forall|j: int| 0 <= j < lo || hi <= j < after.len() ==> #[trigger] after[j] == before[j],
    ensures
        follows_in(before, after, lo, hi, attained),
{
    reveal(follows_in);
    assert forall|j: int| lo <= j < hi implies #[trigger] has_source(
        before,
        after,
        lo,
        hi,
        attained,
        j,
    ) by {
        assert(traced(before[j], after[j], attained));
    }
    assert forall|i: int| lo <= i < hi implies #[trigger] has_heir(
        before,
        after,
        lo,
        hi,
        attained,
        i,
    ) by {
        assert(traced(before[i], after[i], attained));
    }
}

/// Rays that changed places follow from what they were.
pub proof fn lemma_follows_rearranged(
    before: Seq<AccelRay>,
    after: Seq<AccelRay>,
    lo: int,
    hi: int,
    attained: spec_fn(u32, u32, u64) -> bool,
)
    requires
        rearranged_in(before, after, lo, hi),
    ensures
        follows_in(before, after, lo, hi, attained),
{
    reveal(follows_in);
    reveal(rearranged_in);
    assert forall|j: int| lo <= j < hi implies #[trigger] has_source(
        before,
        after,
        lo,
        hi,
        attained,
        j,
    ) by {
        assert(found_in(before, lo, hi, after[j]));
        let i = choose|i: int| lo <= i < hi && #[trigger] before[i] == after[j];
        assert(traced(before[i], after[j], attained));
    }
    assert forall|i: int| lo <= i < hi implies #[trigger] has_heir(
        before,
        after,
        lo,
        hi,
        attained,
        i,
    ) by {
        assert(found_in(after, lo, hi, before[i]));
        let j = choose|j: int| lo <= j < hi && #[trigger] after[j] == before[i];
        assert(traced(before[i], after[j], attained));
    }
}

/// What follows from what follows from a batch follows from the batch.
pub proof fn lemma_follows_trans(
    a: Seq<AccelRay>,
    b: Seq<AccelRay>,
    c: Seq<AccelRay>,
    lo: int,
    hi: int,
    attained: spec_fn(u32, u32, u64) -> bool,
)
    requires
        follows_in(a, b, lo, hi, attained),
        follows_in(b, c, lo, hi, attained),
    ensures
        follows_in(a, c, lo, hi, attained),
{
    reveal(follows_in);
    assert forall|j: int| lo <= j < hi implies #[trigger] has_source(a, c, lo, hi, attained, j) by {
        assert(has_source(b, c, lo, hi, attained, j));
        let m = choose|m: int| lo <= m < hi && traced(#[trigger] b[m], c[j], attained);
        assert(has_source(a, b, lo, hi, attained, m));
        let i = choose|i: int| lo <= i < hi && traced(#[trigger] a[i], b[m], attained);
        assert(traced(a[i], c[j], attained));
    }
    assert forall|i: int| lo <= i < hi implies #[trigger] has_heir(a, c, lo, hi, attained, i) by {
        assert(has_heir(a, b, lo, hi, attained, i));
        let m = choose|m: int| lo <= m < hi && traced(a[i], #[trigger] b[m], attained);
        assert(has_heir(b, c, lo, hi, attained, m));
        let j = choose|j: int| lo <= j < hi && traced(b[m], #[trigger] c[j], attained);
        assert(traced(a[i], c[j], attained));
    }
    assert forall|j: int| 0 <= j < lo || hi <= j < c.len() implies #[trigger] c[j] == a[j] by {
        assert(c[j] == b[j]);
        assert(b[j] == a[j]);
    }
}

/// What follows within a range follows within every range around it.
pub proof fn lemma_follows_widen(
    a: Seq<AccelRay>,
    b: Seq<AccelRay>,
    lo: int,
    hi: int,
    wide_lo: int,
    wide_hi: int,
    attained: spec_fn(u32, u32, u64) -> bool,
)
    requires
        0 <= wide_lo <= lo <= hi <= wide_hi <= a.len(),
        follows_in(a, b, lo, hi, attained),
    ensures
        follows_in(a, b, wide_lo, wide_hi, attained),
{
    reveal(follows_in);
    assert forall|j: int| wide_lo <= j < wide_hi implies #[trigger] has_source(
        a,
        b,
        wide_lo,
        wide_hi,
        attained,
        j,
    ) by {
        if lo <= j < hi {
            assert(has_source(a, b, lo, hi, attained, j));
            let i = choose|i: int| lo <= i < hi && traced(#[trigger] a[i], b[j], attained);
            assert(traced(a[i], b[j], attained));
        } else {
            assert(b[j] == a[j]);
            assert(traced(a[j], b[j], attained));
        }
    }
    assert forall|i: int| wide_lo <= i < wide_hi implies #[trigger] has_heir(
        a,
        b,
        wide_lo,
        wide_hi,
        attained,
        i,
    ) by {
        if lo <= i < hi {
            assert(has_heir(a, b, lo, hi, attained, i));
            let j = choose|j: int| lo <= j < hi && traced(a[i], #[trigger] b[j], attained);
            assert(traced(a[i], b[j], attained));
        } else {
            assert(b[i] == a[i]);
            assert(traced(a[i], b[i], attained));
        }
    }
}

/// What follows from a batch, and then within a part of the range,
/// follows from the batch.
pub proof fn lemma_follows_step(
    a: Seq<AccelRay>,
    b: Seq<AccelRay>,
    c: Seq<AccelRay>,
    lo: int,
    hi: int,
    part_lo: int,
    part_hi: int,
    attained: spec_fn(u32, u32, u64) -> bool,
)
    requires
        0 <= lo <= part_lo <= part_hi <= hi <= a.len(),
        follows_in(a, b, lo, hi, attained),
        follows_in(b, c, part_lo, part_hi, attained),
    ensures
        follows_in(a, c, lo, hi, attained),
{
    assert(b.len() == a.len()) by {
        reveal(follows_in);
    }
    lemma_follows_widen(b, c, part_lo, part_hi, lo, hi, attained);
    lemma_follows_trans(a, b, c, lo, hi, attained);
}

/// What follows where rays meet some things follows where they meet more.
pub proof fn lemma_follows_weaken(
    a: Seq<AccelRay>,
    b: Seq<AccelRay>,
    lo: int,
    hi: int,
    fewer: spec_fn(u32, u32, u64) -> bool,
    more: spec_fn(u32, u32, u64) -> bool,
)
    requires
        follows_in(a, b, lo, hi, fewer),
        forall|id: u32, time: u32, t: u64| #[trigger] fewer(id, time, t) ==> more(id, time, t),
    ensures
        follows_in(a, b, lo, hi, more),
{
    reveal(follows_in);
    assert forall|j: int| lo <= j < hi implies #[trigger] has_source(a, b, lo, hi, more, j) by {
        assert(has_source(a, b, lo, hi, fewer, j));
        let i = choose|i: int| lo <= i < hi && traced(#[trigger] a[i], b[j], fewer);
        assert(traced(a[i], b[j], more));
    }
    assert forall|i: int| lo <= i < hi implies #[trigger] has_heir(a, b, lo, hi, more, i) by {
        assert(has_heir(a, b, lo, hi, fewer, i));
        let j = choose|j: int| lo <= j < hi && traced(a[i], #[trigger] b[j], fewer);
        assert(traced(a[i], b[j], more));
    }
}

/// The ray that one of those that follow came from.
pub proof fn lemma_follows_source(
    a: Seq<AccelRay>,
    b: Seq<AccelRay>,
    lo: int,
    hi: int,
    attained: spec_fn(u32, u32, u64) -> bool,
    j: int,
) -> (i: int)
    requires
        follows_in(a, b, lo, hi, attained),
        lo <= j < hi,
    ensures
        lo <= i < hi,
        traced(a[i], b[j], attained),
{
    reveal(follows_in);
    assert(has_source(a, b, lo, hi, attained, j));
    choose|i: int| lo <= i < hi && traced(#[trigger] a[i], b[j], attained)
}

/// The ray that one of a batch has become.
pub proof fn lemma_follows_heir(
    a: Seq<AccelRay>,
    b: Seq<AccelRay>,
    lo: int,
    hi: int,
    attained: spec_fn(u32, u32, u64) -> bool,
    i: int,
) -> (j: int)
    requires
        follows_in(a, b, lo, hi, attained),
        lo <= i < hi,
    ensures
        lo <= j < hi,
        traced(a[i], b[j], attained),
{
    reveal(follows_in);
    assert(has_heir(a, b, lo, hi, attained, i));
    choose|j: int| lo <= j < hi && traced(a[i], #[trigger] b[j], attained)
}

/// The rays outside the range are as they were.
pub proof fn lemma_follows_outside(
    a: Seq<AccelRay>,
    b: Seq<AccelRay>,
    lo: int,
    hi: int,
    attained: spec_fn(u32, u32, u64) -> bool,
)
    requires
        follows_in(a, b, lo, hi, attained),
    ensures
        b.len() == a.len(),
        forall|j: int| 0 <= j < lo || hi <= j < b.len() ==> #[trigger] b[j] == a[j],
{
    reveal(follows_in);
}

/// A ray that has nothing to gain from an instance has nothing to gain
/// from it in any later state.
pub proof fn lemma_rests_stable<S: Surface>(
    a: &Assembly<S>,
    inst: Instance,
    levels: Seq<Seq<Matrix>>,
    wrays: Seq<Ray>,
    before: AccelRay,
    after: AccelRay,
)
    requires
        drawn_in(before, after),
        instance_rests(a, inst, levels, wrays, before),
    ensures
        instance_rests(a, inst, levels, wrays, after),
{
}

/// What an instance places is met where the assembly of the instance is.
pub proof fn lemma_instance_hit_in_assembly<S: Surface>(
    a: &Assembly<S>,
    k: int,
    levels: Seq<Seq<Matrix>>,
    wrays: Seq<Ray>,
)
    requires
        0 <= k < a.instances@.len(),
    ensures
        forall|id: u32, time: u32, t: u64| #[trigger]
            instance_hits(a, a.instances@[k], levels, wrays)(id, time, t) ==> assembly_hits(
                a,
                levels,
                wrays,
            )(id, time, t),
{
    assert forall|id: u32, time: u32, t: u64| #[trigger]
        instance_hits(a, a.instances@[k], levels, wrays)(id, time, t) implies assembly_hits(
        a,
        levels,
        wrays,
    )(id, time, t) by {
        assert(instance_hit(a, a.instances@[k], levels, wrays, id, time, t));
    }
}

/// A ray that has nothing to gain from any instance of an assembly has
/// nothing to gain from the assembly.
pub proof fn lemma_assembly_rests<S: Surface>(
    a: &Assembly<S>,
    levels: Seq<Seq<Matrix>>,
    wrays: Seq<Ray>,
    ray: AccelRay,
)
    requires
        forall|k: int|
            0 <= k < a.instances@.len() ==> instance_rests(
                a,
                #[trigger] a.instances@[k],
                levels,
                wrays,
                ray,
            ),
    ensures
        assembly_rests(a, levels, wrays, ray),
{
    if !ray.spec_is_done() {
        assert forall|t: u64| #[trigger]
            assembly_hit(a, levels, wrays, ray.id, ray.time, t) implies ray.max_t <= t by {
            let k = choose|k: int|
                0 <= k < a.instances@.len() && instance_hit(
                    a,
                    #[trigger] a.instances@[k],
                    levels,
                    wrays,
                    ray.id,
                    ray.time,
                    t,
                );
            assert(instance_rests(a, a.instances@[k], levels, wrays, ray));
            assert(instance_hit(a, a.instances@[k], levels, wrays, ray.id, ray.time, t));
        }
    }
}

/// What the instance of an assembly meets is what the assembly meets, and
/// a ray that has nothing to gain from the assembly has nothing to gain
/// from the instance.
pub proof fn lemma_instance_of_assembly<S: Surface>(
    a: &Assembly<S>,
    inst: Instance,
    levels: Seq<Seq<Matrix>>,
    wrays: Seq<Ray>,
)
    requires
        inst.instance_type == InstanceType::Assembly,
        inst.data_index < a.assemblies@.len(),
    ensures
        forall|id: u32, time: u32, t: u64| #[trigger]
            assembly_hits(
                &a.assemblies@[inst.data_index as int],
                instance_levels(a, inst, levels),
                wrays,
            )(id, time, t) ==> instance_hits(a, inst, levels, wrays)(id, time, t),
        forall|ray: AccelRay| #[trigger]
            assembly_rests(
                &a.assemblies@[inst.data_index as int],
                instance_levels(a, inst, levels),
                wrays,
                ray,
            ) ==> instance_rests(a, inst, levels, wrays, ray),
{
    let child = &a.assemblies@[inst.data_index as int];
    let inner = instance_levels(a, inst, levels);
    assert forall|id: u32, time: u32, t: u64|
        assembly_hit(child, inner, wrays, id, time, t) == instance_hit(
            a,
            inst,
            levels,
            wrays,
            id,
            time,
            t,
        ) by {}
    assert forall|ray: AccelRay| #[trigger]
        assembly_rests(child, inner, wrays, ray) implies instance_rests(
        a,
        inst,
        levels,
        wrays,
        ray,
    ) by {
        if !ray.spec_is_done() {
            assert forall|t: u64| #[trigger]
                instance_hit(a, inst, levels, wrays, ray.id, ray.time, t) implies ray.max_t
                <= t by {
                assert(assembly_hit(child, inner, wrays, ray.id, ray.time, t));
            }
        }
    }
}

/// A ray in the space of an object that was tested against the surface
/// of the object is what tracing through the instance of the object makes
/// of it, and has nothing to gain from the instance.
pub proof fn lemma_instance_of_object<S: Surface>(
    a: &Assembly<S>,
    inst: Instance,
    levels: Seq<Seq<Matrix>>,
    wrays: Seq<Ray>,
    before: AccelRay,
    after: AccelRay,
)
    requires
        inst.instance_type == InstanceType::Object,
        inst.data_index < a.objects@.len(),
        in_space(before, wrays, instance_levels(a, inst, levels)),
        tested_with(
            object_surface(a.objects@[inst.data_index as int]).spec_hit_at(
                before.orig,
                before.dir,
                before.time,
            ),
            before,
            after,
        ),
    ensures
        traced(before, after, instance_hits(a, inst, levels, wrays)),
        instance_rests(a, inst, levels, wrays, after),
        in_space(after, wrays, instance_levels(a, inst, levels)),
{
    lemma_tested_with(
        object_surface(a.objects@[inst.data_index as int]).spec_hit_at(
            before.orig,
            before.dir,
            before.time,
        ),
        before,
        after,
    );
    let inner = instance_levels(a, inst, levels);
    let s = object_surface(a.objects@[inst.data_index as int]);
    let c = course(before.id, before.time, wrays, inner);
    assert(c.time == before.time);
    assert(surface_hit(s, inner, wrays, before.id, before.time) == s.spec_hit_at(
        before.orig,
        before.dir,
        before.time,
    ));
    if after.max_t != before.max_t {
        assert(instance_hit(a, inst, levels, wrays, after.id, after.time, after.max_t));
    }
}

/// Nothing is met anywhere.
pub open spec fn nothing_met() -> spec_fn(u32, u32, u64) -> bool {
    |id: u32, time: u32, t: u64| false
}

/// Rays that were put into another space are, but for that, the rays
/// that they were.
pub proof fn lemma_moved(
    before: Seq<AccelRay>,
    after: Seq<AccelRay>,
    lo: int,
    hi: int,
    wrays: Seq<Ray>,
    levels: Seq<Seq<Matrix>>,
    found: Seq<SurfaceIntersection>,
    goal: spec_fn(u32, u32, u64, u64, ShaderChoice) -> bool,
)
    requires
        0 <= lo <= hi <= before.len(),
        after.len() == before.len(),
        forall|j: int| lo <= j < hi ==> #[trigger] after[j] == space_ray(before[j], wrays, levels),
        forall|j: int| 0 <= j < lo || hi <= j < after.len() ==> #[trigger] after[j] == before[j],
    ensures
        follows_in(before, after, lo, hi, nothing_met()),
        all_in_space(after, lo, hi, wrays, levels),
        distinct_ids(before) ==> distinct_ids(after),
        records_agree(found, wrays, before) ==> records_agree(found, wrays, after),
        marks_ok(found, before, goal) ==> marks_ok(found, after, goal),
{
    if marks_ok(found, before, goal) {
        assert forall|j: int| 0 <= j < after.len() implies mark_ok(
            found,
            #[trigger] after[j],
            goal,
        ) by {
            assert(mark_ok(found, before[j], goal));
            if lo <= j < hi {
                assert(after[j] == space_ray(before[j], wrays, levels));
            } else {
                assert(after[j] == before[j]);
            }
        }
    }
    assert forall|j: int| lo <= j < hi implies traced(
        #[trigger] before[j],
        after[j],
        nothing_met(),
    ) by {
        assert(after[j] == space_ray(before[j], wrays, levels));
    }
    lemma_follows_pointwise(before, after, lo, hi, nothing_met());
    assert forall|j: int| 0 <= j < after.len() implies (#[trigger] after[j]).id == before[j].id
        && after[j].max_t == before[j].max_t && after[j].flags == before[j].flags by {
        if lo <= j < hi {
            assert(after[j] == space_ray(before[j], wrays, levels));
        } else {
            assert(after[j] == before[j]);
        }
    }
    if distinct_ids(before) {
        assert forall|i: int, j: int| 0 <= i < j < after.len() implies (#[trigger] after[i]).id != (
        #[trigger] after[j]).id by {
            assert(before[i].id != before[j].id);
        }
    }
    if records_agree(found, wrays, before) {
        assert forall|j: int| 0 <= j < after.len() implies record_agrees(
            found,
            wrays,
            #[trigger] after[j],
        ) by {
            assert(record_agrees(found, wrays, before[j]));
        }
    }
    assert forall|j: int| lo <= j < hi implies in_space(#[trigger] after[j], wrays, levels) by {
        assert(after[j] == space_ray(before[j], wrays, levels));
    }
}

/// Rays that changed places are the rays that they were.
pub proof fn lemma_reordered(
    before: Seq<AccelRay>,
    after: Seq<AccelRay>,
    lo: int,
    hi: int,
    wrays: Seq<Ray>,
    levels: Seq<Seq<Matrix>>,
    found: Seq<SurfaceIntersection>,
    goal: spec_fn(u32, u32, u64, u64, ShaderChoice) -> bool,
)
    requires
        rearranged_in(before, after, lo, hi),
        after.to_multiset() == before.to_multiset(),
    ensures
        follows_in(before, after, lo, hi, nothing_met()),
        all_in_space(before, lo, hi, wrays, levels) ==> all_in_space(after, lo, hi, wrays, levels),
        distinct_ids(before) ==> distinct_ids(after),
        records_agree(found, wrays, before) ==> records_agree(found, wrays, after),
        marks_ok(found, before, goal) ==> marks_ok(found, after, goal),
{
    if marks_ok(found, before, goal) {
        lemma_rearranged_all(before, after, |r: AccelRay| mark_ok(found, r, goal));
    }
    lemma_follows_rearranged(before, after, lo, hi, nothing_met());
    if distinct_ids(before) {
        lemma_distinct_ids_permuted(before, after);
    }
    if records_agree(found, wrays, before) {
        lemma_rearranged_all(before, after, |r: AccelRay| record_agrees(found, wrays, r));
    }
    if all_in_space(before, lo, hi, wrays, levels) {
        crate::algorithm::lemma_rearranged_keeps(
            before,
            after,
            lo,
            hi,
            |r: AccelRay| in_space(r, wrays, levels),
        );
    }
}

/// Whether each of the rays from `lo` up to `hi` has nothing to gain from
/// the instance `inst` of `a`.
pub open spec fn all_rest_at<S: Surface>(
    a: &Assembly<S>,
    inst: Instance,
    levels: Seq<Seq<Matrix>>,
    wrays: Seq<Ray>,
    rays: Seq<AccelRay>,
    lo: int,
    hi: int,
) -> bool {
    forall|j: int| lo <= j < hi ==> instance_rests(a, inst, levels, wrays, #[trigger] rays[j])
}

/// Whether each of the rays from `lo` up to `hi` has nothing to gain from
/// any of the instances from `first` up to `end` of `a`.
pub open spec fn leaf_rests<S: Surface>(
    a: &Assembly<S>,
    levels: Seq<Seq<Matrix>>,
    wrays: Seq<Ray>,
    rays: Seq<AccelRay>,
    lo: int,
    hi: int,
    first: int,
    end: int,
) -> bool {
    forall|k: int|
        first <= k < end ==> all_rest_at(a, #[trigger] a.instances@[k], levels, wrays, rays, lo, hi)
}

/// A batch follows from itself.
pub proof fn lemma_follows_refl(
    a: Seq<AccelRay>,
    lo: int,
    hi: int,
    attained: spec_fn(u32, u32, u64) -> bool,
)
    requires
        0 <= lo <= hi <= a.len(),
    ensures
        follows_in(a, a, lo, hi, attained),
{
    lemma_follows_pointwise(a, a, lo, hi, attained);
}

/// What follows within a range, and then within the range next to it,
/// follows within both.
pub proof fn lemma_follows_extend(
    a: Seq<AccelRay>,
    b: Seq<AccelRay>,
    c: Seq<AccelRay>,
    lo: int,
    mid: int,
    hi: int,
    attained: spec_fn(u32, u32, u64) -> bool,
)
    requires
        0 <= lo <= mid <= hi <= a.len(),
        follows_in(a, b, lo, mid, attained),
        follows_in(b, c, mid, hi, attained),
    ensures
        follows_in(a, c, lo, hi, attained),
{
    assert(b.len() == a.len()) by {
        reveal(follows_in);
    }
    lemma_follows_widen(a, b, lo, mid, lo, hi, attained);
    lemma_follows_widen(b, c, mid, hi, lo, hi, attained);
    lemma_follows_trans(a, b, c, lo, hi, attained);
}

/// Rays that had nothing to gain from an instance have nothing to gain
/// from it once they were traced further.
pub proof fn lemma_rests_follow<S: Surface>(
    a: &Assembly<S>,
    inst: Instance,
    levels: Seq<Seq<Matrix>>,
    wrays: Seq<Ray>,
    before: Seq<AccelRay>,
    after: Seq<AccelRay>,
    lo: int,
    hi: int,
    attained: spec_fn(u32, u32, u64) -> bool,
)
    requires
        follows_in(before, after, lo, hi, attained),
        all_rest_at(a, inst, levels, wrays, before, lo, hi),
    ensures
        all_rest_at(a, inst, levels, wrays, after, lo, hi),
{
    assert forall|j: int| lo <= j < hi implies instance_rests(
        a,
        inst,
        levels,
        wrays,
        #[trigger] after[j],
    ) by {
        let i = lemma_follows_source(before, after, lo, hi, attained, j);
        assert(instance_rests(a, inst, levels, wrays, before[i]));
        lemma_rests_stable(a, inst, levels, wrays, before[i], after[j]);
    }
}

/// Rays that had nothing to gain from the instances of a leaf have
/// nothing to gain from them once they were traced further, and nothing
/// from the instance that they were traced through.
pub proof fn lemma_leaf_rests_step<S: Surface>(
    a: &Assembly<S>,
    levels: Seq<Seq<Matrix>>,
    wrays: Seq<Ray>,
    before: Seq<AccelRay>,
    after: Seq<AccelRay>,
    lo: int,
    hi: int,
    first: int,
    k: int,
    attained: spec_fn(u32, u32, u64) -> bool,
)
    requires
        follows_in(before, after, lo, hi, attained),
        leaf_rests(a, levels, wrays, before, lo, hi, first, k),
        all_rest_at(a, a.instances@[k], levels, wrays, after, lo, hi),
    ensures
        leaf_rests(a, levels, wrays, after, lo, hi, first, k + 1),
{
    assert forall|m: int| first <= m < k + 1 implies all_rest_at(
        a,
        #[trigger] a.instances@[m],
        levels,
        wrays,
        after,
        lo,
        hi,
    ) by {
        if m < k {
            assert(all_rest_at(a, a.instances@[m], levels, wrays, before, lo, hi));
            lemma_rests_follow(a, a.instances@[m], levels, wrays, before, after, lo, hi, attained);
        }
    }
}

/// Rays of a range that are in a space, but for those of a part of the
/// range that were traced and are in the space again, are in the space.
pub proof fn lemma_space_kept(
    before: Seq<AccelRay>,
    after: Seq<AccelRay>,
    lo: int,
    hi: int,
    part_lo: int,
    part_hi: int,
    wrays: Seq<Ray>,
    levels: Seq<Seq<Matrix>>,
    attained: spec_fn(u32, u32, u64) -> bool,
)
    requires
        0 <= lo <= part_lo <= part_hi <= hi <= before.len(),
        follows_in(before, after, part_lo, part_hi, attained),
        all_in_space(before, lo, hi, wrays, levels),
        all_in_space(after, part_lo, part_hi, wrays, levels),
    ensures
        all_in_space(after, lo, hi, wrays, levels),
{
    lemma_follows_outside(before, after, part_lo, part_hi, attained);
    assert forall|j: int| lo <= j < hi implies in_space(#[trigger] after[j], wrays, levels) by {
        if !(part_lo <= j < part_hi) {
            assert(after[j] == before[j]);
        }
    }
}

/// Rays of a range that have nothing to gain from an instance, but for
/// those of the range next to it, which were traced and have nothing to
/// gain from it either, have nothing to gain from it.
pub proof fn lemma_rests_extend<S: Surface>(
    a: &Assembly<S>,
    inst: Instance,
    levels: Seq<Seq<Matrix>>,
    wrays: Seq<Ray>,
    before: Seq<AccelRay>,
    after: Seq<AccelRay>,
    lo: int,
    mid: int,
    hi: int,
    attained: spec_fn(u32, u32, u64) -> bool,
)
    requires
        0 <= lo <= mid <= hi <= before.len(),
        follows_in(before, after, mid, hi, attained),
        all_rest_at(a, inst, levels, wrays, before, lo, mid),
        all_rest_at(a, inst, levels, wrays, after, mid, hi),
    ensures
        all_rest_at(a, inst, levels, wrays, after, lo, hi),
{
    lemma_follows_outside(before, after, mid, hi, attained);
    assert forall|j: int| lo <= j < hi implies instance_rests(
        a,
        inst,
        levels,
        wrays,
        #[trigger] after[j],
    ) by {
        if j < mid {
            assert(after[j] == before[j]);
        }
    }
}

/// Whether world ray `i` meets a surface of the scene `a` at parameter
/// `t`.
pub open spec fn scene_hit<S: Surface>(a: &Assembly<S>, wrays: Seq<Ray>, i: int, t: u64) -> bool {
    assembly_hit(a, Seq::empty(), wrays, i as u32, wrays[i].time, t)
}

/// Whether world ray `i` meets at parameter `t` a surface of the scene
/// `a` with the handle `handle` whose hits are recorded with `shader`: the
/// shader of the instance that places the surface, none if the instance
/// has none or the surface is a light.
pub open spec fn scene_mark<S: Surface>(
    a: &Assembly<S>,
    wrays: Seq<Ray>,
    i: int,
    t: u64,
    handle: u64,
    shader: ShaderChoice,
) -> bool {
    assembly_mark(a, Seq::empty(), wrays, i as u32, wrays[i].time, t, handle, shader)
}

/// Whether a hit that is on record for world ray `i` is one: the ray
/// meets a surface of the scene there, within its reach, and the record
/// has the handle of such a surface and the shader chosen for it.
pub open spec fn record_attained<S: Surface>(
    a: &Assembly<S>,
    wrays: Seq<Ray>,
    found: SurfaceIntersection,
    i: int,
) -> bool {
    match found {
        SurfaceIntersection::Hit { t, handle, shader } => t < wrays[i].max_t && scene_hit(
            a,
            wrays,
            i,
            t,
        ) && scene_mark(a, wrays, i, t, handle, shader),
        SurfaceIntersection::Miss => true,
    }
}

/// Whether what is on record for world ray `i`, unless the ray was done
/// from the start, leaves nothing out: with no hit on record the ray meets
/// no surface of the scene within its reach, and with a hit on record a
/// ray that is no shadow ray meets none before the hit.
pub open spec fn record_nearest<S: Surface>(
    a: &Assembly<S>,
    wrays: Seq<Ray>,
    found: SurfaceIntersection,
    i: int,
) -> bool {
    wrays[i].flags & FLAG_DONE == 0 ==> match found {
        SurfaceIntersection::Hit { t, .. } => !wrays[i].spec_is_shadow() ==> forall|u: u64| #[trigger]
            scene_hit(a, wrays, i, u) ==> t <= u,
        SurfaceIntersection::Miss => forall|u: u64| #[trigger]
            scene_hit(a, wrays, i, u) ==> wrays[i].max_t <= u,
    }
}

/// The acceleration copy of world ray `i`.
pub open spec fn spec_accel(wrays: Seq<Ray>, i: int) -> AccelRay {
    AccelRay {
        orig: wrays[i].orig,
        dir: wrays[i].dir,
        max_t: wrays[i].max_t,
        time: wrays[i].time,
        flags: wrays[i].flags,
        id: i as u32,
    }
}

/// Whether `rays` are the acceleration copies of `wrays`, in order.
pub open spec fn fresh_rays(rays: Seq<AccelRay>, wrays: Seq<Ray>) -> bool {
    &&& rays.len() == wrays.len()
    &&& wrays.len() <= u32::MAX
    &&& forall|i: int| 0 <= i < rays.len() ==> #[trigger] rays[i] == spec_accel(wrays, i)
}

/// What is on record for a world ray whose copy was traced through the
/// scene is a hit of the ray, and leaves nothing out if the copy is left
/// with nothing to gain from the scene.
pub proof fn lemma_traced_finds<S: Surface>(
    a: &Assembly<S>,
    wrays: Seq<Ray>,
    found: Seq<SurfaceIntersection>,
    after: AccelRay,
    i: int,
)
    requires
        0 <= i < wrays.len() <= u32::MAX,
        found.len() == wrays.len(),
        traced(spec_accel(wrays, i), after, assembly_hits(a, Seq::empty(), wrays)),
        record_agrees(found, wrays, after),
        mark_ok(found, after, assembly_marks(a, Seq::empty(), wrays)),
    ensures
        record_attained(a, wrays, found[i], i),
        assembly_rests(a, Seq::empty(), wrays, after) ==> record_nearest(a, wrays, found[i], i),
{
    let before = spec_accel(wrays, i);
    assert(after.id == i as u32);
    assert(after.time == wrays[i].time);
    assert(before.flags & FLAG_SHADOW != 0 <==> wrays[i].spec_is_shadow());
    assert(before.spec_is_done() <==> wrays[i].flags & FLAG_DONE != 0);
    if assembly_rests(a, Seq::empty(), wrays, after) && wrays[i].flags & FLAG_DONE == 0 {
        match found[i] {
            SurfaceIntersection::Hit { t, .. } => {
                if !wrays[i].spec_is_shadow() {
                    assert(!after.spec_is_done());
                    assert forall|u: u64| #[trigger] scene_hit(a, wrays, i, u) implies t <= u by {
                        assert(assembly_hit(a, Seq::empty(), wrays, after.id, after.time, u));
                    }
                }
            },
            SurfaceIntersection::Miss => {
                assert(!after.spec_is_done());
                assert forall|u: u64| #[trigger] scene_hit(a, wrays, i, u) implies wrays[i].max_t
                    <= u by {
                    assert(assembly_hit(a, Seq::empty(), wrays, after.id, after.time, u));
                }
            },
        }
    }
}

/// What is known of an instance of an assembly is known of the assembly.
pub proof fn lemma_instance_mark_in_assembly<S: Surface>(
    a: &Assembly<S>,
    k: int,
    levels: Seq<Seq<Matrix>>,
    wrays: Seq<Ray>,
)
    requires
        0 <= k < a.instances@.len(),
    ensures
        marks_within(
            instance_marks(a, a.instances@[k], levels, wrays),
            assembly_marks(a, levels, wrays),
        ),
{
    assert forall|id: u32, time: u32, t: u64, handle: u64, shader: ShaderChoice| #[trigger]
        instance_marks(a, a.instances@[k], levels, wrays)(
            id,
            time,
            t,
            handle,
            shader,
        ) implies assembly_marks(a, levels, wrays)(id, time, t, handle, shader) by {
        assert(instance_mark(a, a.instances@[k], levels, wrays, id, time, t, handle, shader));
    }
}

/// What is known of the assembly that an instance places is known of the
/// instance.
pub proof fn lemma_assembly_mark_of_instance<S: Surface>(
    a: &Assembly<S>,
    inst: Instance,
    levels: Seq<Seq<Matrix>>,
    wrays: Seq<Ray>,
)
    requires
        inst.instance_type == InstanceType::Assembly,
        inst.data_index < a.assemblies@.len(),
    ensures
        marks_within(
            assembly_marks(
                &a.assemblies@[inst.data_index as int],
                instance_levels(a, inst, levels),
                wrays,
            ),
            instance_marks(a, inst, levels, wrays),
        ),
{
    let child = &a.assemblies@[inst.data_index as int];
    let inner = instance_levels(a, inst, levels);
    assert forall|id: u32, time: u32, t: u64, handle: u64, shader: ShaderChoice|
        assembly_mark(child, inner, wrays, id, time, t, handle, shader) == instance_mark(
            a,
            inst,
            levels,
            wrays,
            id,
            time,
            t,
            handle,
            shader,
        ) by {}
}

/// What is known within what is known within a goal is known within it.
pub proof fn lemma_marks_within_trans(
    inner: spec_fn(u32, u32, u64, u64, ShaderChoice) -> bool,
    outer: spec_fn(u32, u32, u64, u64, ShaderChoice) -> bool,
    goal: spec_fn(u32, u32, u64, u64, ShaderChoice) -> bool,
)
    requires
        marks_within(inner, outer),
        marks_within(outer, goal),
    ensures
        marks_within(inner, goal),
{
    assert forall|id: u32, time: u32, t: u64, handle: u64, shader: ShaderChoice| #[trigger]
        inner(id, time, t, handle, shader) implies goal(id, time, t, handle, shader) by {
        assert(outer(id, time, t, handle, shader));
    }
}

/// Records that were not written are kept.
pub proof fn lemma_found_kept_refl(
    found: Seq<SurfaceIntersection>,
    rays: Seq<AccelRay>,
    lo: int,
    hi: int,
)
    ensures
        found_kept(found, found, rays, lo, hi),
{
}

/// Records that were kept while a range of rays was traced, and then
/// while a part of the range was traced further, were kept.
pub proof fn lemma_found_kept_step(
    f0: Seq<SurfaceIntersection>,
    f1: Seq<SurfaceIntersection>,
    f2: Seq<SurfaceIntersection>,
    r0: Seq<AccelRay>,
    r1: Seq<AccelRay>,
    lo: int,
    hi: int,
    part_lo: int,
    part_hi: int,
    attained: spec_fn(u32, u32, u64) -> bool,
)
    requires
        0 <= lo <= part_lo <= part_hi <= hi <= r0.len(),
        found_kept(f0, f1, r0, lo, hi),
        follows_in(r0, r1, lo, hi, attained),
        found_kept(f1, f2, r1, part_lo, part_hi),
    ensures
        found_kept(f0, f2, r0, lo, hi),
{
    assert forall|i: int| 0 <= i < f0.len() && id_absent_in(r0, lo, hi, i) implies #[trigger] f2[i]
        == f0[i] by {
        assert forall|j: int| part_lo <= j < part_hi implies (#[trigger] r1[j]).id != i by {
            let m = lemma_follows_source(r0, r1, lo, hi, attained, j);
            assert(r0[m].id != i);
        }
        assert(id_absent_in(r1, part_lo, part_hi, i));
        assert(f2[i] == f1[i]);
        assert(f1[i] == f0[i]);
    }
}

/// When rays in the space of an object were tested against the surface
/// of the object, which recorded its hits with its handle and the shader
/// of its instance, the hits on record are known of the instance.
pub proof fn lemma_marks_after_object<S: Surface>(
    a: &Assembly<S>,
    inst: Instance,
    levels: Seq<Seq<Matrix>>,
    wrays: Seq<Ray>,
    found_before: Seq<SurfaceIntersection>,
    found_after: Seq<SurfaceIntersection>,
    before: Seq<AccelRay>,
    after: Seq<AccelRay>,
    lo: int,
    hi: int,
    goal: spec_fn(u32, u32, u64, u64, ShaderChoice) -> bool,
)
    requires
        0 <= lo <= hi <= before.len(),
        after.len() == before.len(),
        inst.instance_type == InstanceType::Object,
        inst.data_index < a.objects@.len(),
        all_in_space(before, lo, hi, wrays, instance_levels(a, inst, levels)),
        distinct_ids(before),
        forall|j: int|
            lo <= j < hi ==> tested_with(
                object_surface(a.objects@[inst.data_index as int]).spec_hit_at(
                    before[j].orig,
                    before[j].dir,
                    before[j].time,
                ),
                #[trigger] before[j],
                after[j],
            ),
        forall|j: int|
            lo <= j < hi ==> recorded_with(
                found_before,
                found_after,
                #[trigger] before[j],
                after[j],
                object_surface(a.objects@[inst.data_index as int]).spec_handle(),
                spec_shader_of(a, inst),
            ),
        forall|j: int| 0 <= j < lo || hi <= j < after.len() ==> #[trigger] after[j] == before[j],
        found_kept(found_before, found_after, before, lo, hi),
        marks_ok(found_before, before, goal),
        marks_within(instance_marks(a, inst, levels, wrays), goal),
    ensures
        marks_ok(found_after, after, goal),
{
    let inner = instance_levels(a, inst, levels);
    let s = object_surface(a.objects@[inst.data_index as int]);
    let marks = instance_marks(a, inst, levels, wrays);
    assert forall|j: int| 0 <= j < after.len() implies mark_ok(
        found_after,
        #[trigger] after[j],
        goal,
    ) by {
        let b = before[j];
        let r = after[j];
        assert(mark_ok(found_before, b, goal));
        if lo <= j < hi {
            assert(tested_with(s.spec_hit_at(b.orig, b.dir, b.time), b, r));
            lemma_tested_with(s.spec_hit_at(b.orig, b.dir, b.time), b, r);
            assert(recorded_with(found_before, found_after, b, r, s.spec_handle(), spec_shader_of(a, inst)));
            if r.id < found_after.len() && r.max_t < b.max_t {
                assert(in_space(b, wrays, inner));
                assert(surface_hit(s, inner, wrays, b.id, b.time) == s.spec_hit_at(
                    b.orig,
                    b.dir,
                    b.time,
                ));
                assert(marks(r.id, r.time, r.max_t, s.spec_handle(), spec_shader_of(a, inst)));
            }
        } else {
            assert(r == b);
            if r.id < found_after.len() {
                assert forall|m: int| lo <= m < hi implies (#[trigger] before[m]).id != r.id by {
                    if m < j {
                        assert(before[m].id != before[j].id);
                    } else {
                        assert(before[j].id != before[m].id);
                    }
                }
                assert(id_absent_in(before, lo, hi, r.id as int));
                assert(found_after[r.id as int] == found_before[r.id as int]);
            }
        }
    }
}

/// Whether the surfaces that world ray `i` meets in the scene `a` at one
/// distance are recorded alike: no two of them differ in handle or
/// shader.
pub open spec fn marks_unique<S: Surface>(a: &Assembly<S>, wrays: Seq<Ray>, i: int) -> bool {
    forall|t: u64, h1: u64, s1: ShaderChoice, h2: u64, s2: ShaderChoice|
        #![trigger scene_mark(a, wrays, i, t, h1, s1), scene_mark(a, wrays, i, t, h2, s2)]
        scene_mark(a, wrays, i, t, h1, s1) && scene_mark(a, wrays, i, t, h2, s2) ==> h1 == h2 && s1
            == s2
}

/// What a world ray meets in an assembly depends on how the ray runs,
/// not on the batch that it is part of, nor on its place in the batch.
pub proof fn lemma_batch_free<S: Surface>(
    a: &Assembly<S>,
    levels: Seq<Seq<Matrix>>,
    w1: Seq<Ray>,
    i1: u32,
    w2: Seq<Ray>,
    i2: u32,
    time: u32,
    t: u64,
    handle: u64,
    shader: ShaderChoice,
)
    requires
        w1[i1 as int].orig == w2[i2 as int].orig,
        w1[i1 as int].dir == w2[i2 as int].dir,
    ensures
        assembly_hit(a, levels, w1, i1, time, t) == assembly_hit(a, levels, w2, i2, time, t),
        assembly_mark(a, levels, w1, i1, time, t, handle, shader) == assembly_mark(
            a,
            levels,
            w2,
            i2,
            time,
            t,
            handle,
            shader,
        ),
    decreases a,
{
    assert forall|k: int| 0 <= k < a.instances@.len() implies instance_hit(
        a,
        #[trigger] a.instances@[k],
        levels,
        w1,
        i1,
        time,
        t,
    ) == instance_hit(a, a.instances@[k], levels, w2, i2, time, t) && instance_mark(
        a,
        a.instances@[k],
        levels,
        w1,
        i1,
        time,
        t,
        handle,
        shader,
    ) == instance_mark(a, a.instances@[k], levels, w2, i2, time, t, handle, shader) by {
        let inst = a.instances@[k];
        let inner = instance_levels(a, inst, levels);
        match inst.instance_type {
            InstanceType::Object => {
                let c1 = course(i1, time, w1, inner);
                let c2 = course(i2, time, w2, inner);
                assert(c1.orig == c2.orig && c1.dir == c2.dir && c1.time == c2.time);
            },
            InstanceType::Assembly => {
                if inst.data_index < a.assemblies@.len() {
                    lemma_batch_free(
                        &a.assemblies@[inst.data_index as int],
                        inner,
                        w1,
                        i1,
                        w2,
                        i2,
                        time,
                        t,
                        handle,
                        shader,
                    );
                }
            },
        }
    }
    if assembly_hit(a, levels, w1, i1, time, t) {
        let k = choose|k: int|
            0 <= k < a.instances@.len() && instance_hit(
                a,
                #[trigger] a.instances@[k],
                levels,
                w1,
                i1,
                time,
                t,
            );
        assert(instance_hit(a, a.instances@[k], levels, w2, i2, time, t));
    }
    if assembly_hit(a, levels, w2, i2, time, t) {
        let k = choose|k: int|
            0 <= k < a.instances@.len() && instance_hit(
                a,
                #[trigger] a.instances@[k],
                levels,
                w2,
                i2,
                time,
                t,
            );
        assert(instance_hit(a, a.instances@[k], levels, w1, i1, time, t));
    }
    if assembly_mark(a, levels, w1, i1, time, t, handle, shader) {
        let k = choose|k: int|
            0 <= k < a.instances@.len() && instance_mark(
                a,
                #[trigger] a.instances@[k],
                levels,
                w1,
                i1,
                time,
                t,
                handle,
                shader,
            );
        assert(instance_mark(a, a.instances@[k], levels, w2, i2, time, t, handle, shader));
    }
    if assembly_mark(a, levels, w2, i2, time, t, handle, shader) {
        let k = choose|k: int|
            0 <= k < a.instances@.len() && instance_mark(
                a,
                #[trigger] a.instances@[k],
                levels,
                w2,
                i2,
                time,
                t,
                handle,
                shader,
            );
        assert(instance_mark(a, a.instances@[k], levels, w1, i1, time, t, handle, shader));
    }
}

/// Two traces of a ray through a scene, in whatever batches and at
/// whatever places in them, leave the same record, if the records are
/// hits of the ray and leave nothing out, the ray is no shadow ray and
/// was not done from the start, and no two surfaces that it meets at one
/// distance are recorded differently.
pub proof fn lemma_traces_agree<S: Surface>(
    a: &Assembly<S>,
    w1: Seq<Ray>,
    i1: int,
    w2: Seq<Ray>,
    i2: int,
    first: SurfaceIntersection,
    second: SurfaceIntersection,
)
    requires
        0 <= i1 < w1.len() <= u32::MAX,
        0 <= i2 < w2.len() <= u32::MAX,
        w1[i1] == w2[i2],
        record_attained(a, w1, first, i1),
        record_attained(a, w2, second, i2),
        record_nearest(a, w1, first, i1),
        record_nearest(a, w2, second, i2),
        w1[i1].flags & FLAG_DONE == 0,
        !w1[i1].spec_is_shadow(),
        marks_unique(a, w1, i1),
    ensures
        first == second,
{
    let time = w1[i1].time;
    assert forall|t: u64| scene_hit(a, w1, i1, t) == scene_hit(a, w2, i2, t) by {
        lemma_batch_free(
            a,
            Seq::empty(),
            w1,
            i1 as u32,
            w2,
            i2 as u32,
            time,
            t,
            0,
            ShaderChoice::Unassigned,
        );
    }
    match (first, second) {
        (
            SurfaceIntersection::Hit { t: t1, handle: h1, shader: s1 },
            SurfaceIntersection::Hit { t: t2, handle: h2, shader: s2 },
        ) => {
            assert(scene_hit(a, w1, i1, t1));
            assert(scene_hit(a, w2, i2, t2));
            assert(scene_hit(a, w1, i1, t2));
            assert(scene_hit(a, w2, i2, t1));
            assert(t1 == t2);
            lemma_batch_free(a, Seq::empty(), w1, i1 as u32, w2, i2 as u32, time, t2, h2, s2);
            assert(scene_mark(a, w1, i1, t1, h1, s1));
            assert(scene_mark(a, w1, i1, t1, h2, s2));
        },
        (SurfaceIntersection::Hit { t, .. }, SurfaceIntersection::Miss) => {
            assert(scene_hit(a, w1, i1, t));
            assert(scene_hit(a, w2, i2, t));
        },
        (SurfaceIntersection::Miss, SurfaceIntersection::Hit { t, .. }) => {
            assert(scene_hit(a, w2, i2, t));
            assert(scene_hit(a, w1, i1, t));
        },
        (SurfaceIntersection::Miss, SurfaceIntersection::Miss) => {},
    }
}

} // verus!
