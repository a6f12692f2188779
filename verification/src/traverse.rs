use vstd::prelude::*;
use crate::algorithm::{
    lemma_count_agrees,
    lemma_partition_agrees,
    lemma_partition_properties,
    lemma_rearranged_all,
    partition_range,
    pred_answers,
    pred_decides,
    pred_fn,
    spec_count,
    spec_partition,
};
use crate::bbox::{lemma_intersect_monotone, lemma_lerp_slice_contains, same_geometry, BBox};
use crate::boundable::{lemma_union_range_split, objects_ok, samples_ok, Boundable};
use crate::bvh::{lemma_subtree_frame, BVHNode, BVHView, Shape, BVH};
use crate::lerp::{lerp_slice, spec_lerp_slice, Lerp};
use crate::ray::AccelRay;

verus! {

/// The number of entries of the traversal stack: room for one node per
/// level, for the root, and for the last child.
pub const TRAVERSAL_STACK_SIZE: usize = 66;

/// Something that rays can be tested against.
pub trait Intersectable: Boundable {
    /// The parameter at which `ray` meets the object, however far the ray
    /// reaches; `None` if it does not meet it.  An implementation that
    /// does not say where rays meet it is taken never to be met.
    open spec fn spec_hit(&self, ray: AccelRay) -> Option<u64> {
        None
    }
}

/// Whether the place where a ray meets `obj` depends only on where the ray
/// runs.
pub open spec fn hit_depends_on_course<T: Intersectable>(obj: T) -> bool {
    forall|a: AccelRay, b: AccelRay|
        same_geometry(a, b) ==> #[trigger] obj.spec_hit(a) == #[trigger] obj.spec_hit(b)
}

/// Whether every ray that meets `obj` within its reach passes through the
/// bounds that the object has at the time of the ray.
pub open spec fn hit_lies_in_bounds<T: Intersectable>(obj: T) -> bool {
    forall|ray: AccelRay|
        ray.wf() && obj.spec_bounds().len() > 0 && samples_ok(
            obj.spec_bounds(),
            obj.spec_bounds().len(),
        ) && (#[trigger] obj.spec_hit(ray)).is_some() && obj.spec_hit(ray).unwrap() < ray.max_t
            ==> spec_lerp_slice(obj.spec_bounds(), ray.time as int).spec_intersect_accel_ray(ray)
}

/// Whether the objects are met where their bounds say they may be, and
/// the same by rays that run the same.
pub open spec fn hit_model_ok<T: Intersectable>(objs: Seq<T>) -> bool {
    forall|k: int|
        0 <= k < objs.len() ==> hit_depends_on_course(#[trigger] objs[k]) && hit_lies_in_bounds(
            objs[k],
        )
}

/// Whether `ray` has nothing to gain from a test against `obj`: it is done,
/// or it does not meet the object, or only beyond its reach.
pub open spec fn settled<T: Intersectable>(obj: T, ray: AccelRay) -> bool {
    ray.spec_is_done() || match obj.spec_hit(ray) {
        Some(t) => ray.max_t <= t,
        None => true,
    }
}

/// Whether `after` is what a test against `obj` may make of `before`: a ray
/// that is done stays as it is; another keeps its course, reaches as far as
/// before or up to where it meets the object, if that is nearer, and is left
/// with nothing to gain from the object.
pub open spec fn tested<T: Intersectable>(obj: T, before: AccelRay, after: AccelRay) -> bool {
    &&& same_geometry(before, after)
    &&& before.spec_is_done() ==> after == before
    &&& after.max_t == before.max_t || (obj.spec_hit(before) == Some(after.max_t) && after.max_t
        < before.max_t)
    &&& settled(obj, after)
}

/// Whether `after` is what tests against some of `objs` may have made of
/// `before`.
pub open spec fn advanced<T: Intersectable>(objs: Seq<T>, before: AccelRay, after: AccelRay) -> bool {
    &&& same_geometry(before, after)
    &&& before.spec_is_done() ==> after == before
    &&& after.max_t <= before.max_t
    &&& after.max_t == before.max_t || exists|k: int|
        0 <= k < objs.len() && (#[trigger] objs[k]).spec_hit(before) == Some(after.max_t)
}

/// Whether `ray` is what tests against some of `objs` may have made of one
/// of the rays `first`.
pub open spec fn has_ancestor<T: Intersectable>(
    objs: Seq<T>,
    first: Seq<AccelRay>,
    ray: AccelRay,
) -> bool {
    exists|i: int| 0 <= i < first.len() && advanced(objs, #[trigger] first[i], ray)
}

/// Whether one of the rays `after` is what tests against some of `objs` may
/// have made of `ray`.
pub open spec fn has_descendant<T: Intersectable>(
    objs: Seq<T>,
    after: Seq<AccelRay>,
    ray: AccelRay,
) -> bool {
    exists|j: int| 0 <= j < after.len() && advanced(objs, ray, #[trigger] after[j])
}

/// Whether the rays `after` are the rays `before` in some order, each as
/// tests against some of `objs` may have left it.
pub open spec fn descends<T: Intersectable>(
    objs: Seq<T>,
    before: Seq<AccelRay>,
    after: Seq<AccelRay>,
) -> bool {
    &&& after.len() == before.len()
    &&& forall|j: int| 0 <= j < after.len() ==> has_ancestor(objs, before, #[trigger] after[j])
    &&& forall|i: int| 0 <= i < before.len() ==> has_descendant(objs, after, #[trigger] before[i])
}

/// Whether the ray at position `j` has nothing to gain from object `k`.
pub open spec fn settled_at<T: Intersectable>(
    objs: Seq<T>,
    rays: Seq<AccelRay>,
    j: int,
    k: int,
) -> bool {
    settled(objs[k], rays[j])
}

/// Whether all of `rays` lie on the lattice.
pub open spec fn rays_ok(rays: Seq<AccelRay>) -> bool {
    forall|j: int| 0 <= j < rays.len() ==> (#[trigger] rays[j]).wf()
}

/// What tests of rays against an object do.
pub trait RayTester<T: Intersectable>: Sized {
    /// What holds of the tester between tests: nothing, unless an
    /// implementation says otherwise.
    open spec fn inv(&self) -> bool {
        true
    }

    /// Whether what the tester has on record for the ray with the number
    /// of `ray` goes with the state of `ray`: anything does, unless an
    /// implementation says otherwise.
    open spec fn agrees(&self, ray: AccelRay) -> bool {
        true
    }

    /// Tests every one of `rays` against `obj`.  What the tester has on
    /// record goes with the rays afterwards as before, and with every ray
    /// of another number that it went with.
    fn test(&mut self, obj: &T, rays: &mut [AccelRay])
        requires
            old(self).inv(),
            rays_ok(old(rays)@),
            distinct_ids(old(rays)@),
            forall|j: int| 0 <= j < old(rays)@.len() ==> old(self).agrees(#[trigger] old(rays)@[j]),
            obj.spec_bounds().len() > 0,
            samples_ok(obj.spec_bounds(), obj.spec_bounds().len()),
        ensures
            final(self).inv(),
            final(rays)@.len() == old(rays)@.len(),
            rays_ok(final(rays)@),
            forall|j: int|
                0 <= j < old(rays)@.len() ==> tested(
                    *obj,
                    #[trigger] old(rays)@[j],
                    final(rays)@[j],
                ),
            forall|j: int|
                0 <= j < final(rays)@.len() ==> final(self).agrees(#[trigger] final(rays)@[j]),
            forall|r: AccelRay|
                old(self).agrees(r) && id_absent(old(rays)@, r.id) ==> #[trigger] final(self).agrees(r),
    ;
}

/// Whether no two of `rays` have the same number.
pub open spec fn distinct_ids(rays: Seq<AccelRay>) -> bool {
    forall|i: int, j: int|
        0 <= i < j < rays.len() ==> (#[trigger] rays[i]).id != (#[trigger] rays[j]).id
}

/// Whether none of `rays` has the number `id`.
pub open spec fn id_absent(rays: Seq<AccelRay>, id: u32) -> bool {
    forall|j: int| 0 <= j < rays.len() ==> (#[trigger] rays[j]).id != id
}

/// Whether what `tester` has on record goes with each of `rays`.
pub open spec fn all_agree<T: Intersectable, V: RayTester<T>>(
    tester: V,
    rays: Seq<AccelRay>,
) -> bool {
    forall|j: int| 0 <= j < rays.len() ==> tester.agrees(#[trigger] rays[j])
}

/// Rays that changed places still have numbers of their own.
pub proof fn lemma_distinct_ids_permuted(before: Seq<AccelRay>, after: Seq<AccelRay>)
    requires
        distinct_ids(before),
        after.to_multiset() == before.to_multiset(),
    ensures
        distinct_ids(after),
{
    assert(before.no_duplicates()) by {
        assert forall|i: int, j: int|
            0 <= i < before.len() && 0 <= j < before.len() && i != j implies before[i]
            != before[j] by {
            if i < j {
                assert(before[i].id != before[j].id);
            } else {
                assert(before[j].id != before[i].id);
            }
        }
    }
    before.lemma_multiset_has_no_duplicates();
    after.lemma_multiset_has_no_duplicates_conv();
    assert forall|i: int, j: int| 0 <= i < j < after.len() implies (#[trigger] after[i]).id != (
    #[trigger] after[j]).id by {
        let x = after[i];
        let y = after[j];
        assert(after.contains(x) && after.contains(y));
        vstd::seq_lib::to_multiset_contains(after, x);
        vstd::seq_lib::to_multiset_contains(before, x);
        vstd::seq_lib::to_multiset_contains(after, y);
        vstd::seq_lib::to_multiset_contains(before, y);
        let p = choose|p: int| 0 <= p < before.len() && before[p] == x;
        let q = choose|q: int| 0 <= q < before.len() && before[q] == y;
        assert(x != y);
        if p < q {
            assert(before[p].id != before[q].id);
        } else if q < p {
            assert(before[q].id != before[p].id);
        }
    }
}

/// A test leaves a ray with nothing to gain from the objects that it had
/// nothing to gain from before.
pub proof fn lemma_tested_keeps_settled<T: Intersectable>(
    obj: T,
    other: T,
    before: AccelRay,
    after: AccelRay,
)
    requires
        tested(obj, before, after),
        settled(other, before),
        hit_depends_on_course(other),
    ensures
        settled(other, after),
{
    assert(other.spec_hit(before) == other.spec_hit(after));
}

/// A test carries on from what earlier tests have made of a ray.
pub proof fn lemma_tested_advances<T: Intersectable>(
    objs: Seq<T>,
    k: int,
    first: AccelRay,
    before: AccelRay,
    after: AccelRay,
)
    requires
        0 <= k < objs.len(),
        advanced(objs, first, before),
        tested(objs[k], before, after),
        hit_model_ok(objs),
    ensures
        advanced(objs, first, after),
{
    assert(hit_depends_on_course(objs[k]));
    assert(objs[k].spec_hit(first) == objs[k].spec_hit(before));
    if after.max_t != first.max_t {
        if after.max_t == before.max_t {
            let w = choose|w: int|
                0 <= w < objs.len() && (#[trigger] objs[w]).spec_hit(first) == Some(before.max_t);
            assert(objs[w].spec_hit(first) == Some(after.max_t));
        } else {
            assert(objs[k].spec_hit(first) == Some(after.max_t));
        }
    }
}

/// Whether `rests` lets every ray rest, as far as an object is concerned,
/// that is done or misses the bounds that the object has at the time of
/// the ray.
pub open spec fn culls<T: Boundable>(objs: Seq<T>, rests: spec_fn(int, AccelRay) -> bool) -> bool {
    forall|k: int, ray: AccelRay|
        0 <= k < objs.len() && ray.wf() && objs[k].spec_bounds().len() > 0 && samples_ok(
            objs[k].spec_bounds(),
            objs[k].spec_bounds().len(),
        ) && (ray.spec_is_done() || !spec_lerp_slice(
            objs[k].spec_bounds(),
            ray.time as int,
        ).spec_intersect_accel_ray(ray)) ==> #[trigger] rests(k, ray)
}

/// A ray can rest as far as an object is concerned from which it has
/// nothing to gain.
pub open spec fn hit_rests<T: Intersectable>(objs: Seq<T>) -> spec_fn(int, AccelRay) -> bool {
    |k: int, ray: AccelRay| settled(objs[k], ray)
}

/// A ray that is done, or misses the bounds of an object that is met only
/// within its bounds, has nothing to gain from it.
pub proof fn lemma_hit_rests_culls<T: Intersectable>(objs: Seq<T>)
    requires
        hit_model_ok(objs),
    ensures
        culls(objs, hit_rests(objs)),
{
    let rests = hit_rests(objs);
    assert forall|k: int, ray: AccelRay|
        0 <= k < objs.len() && ray.wf() && objs[k].spec_bounds().len() > 0 && samples_ok(
            objs[k].spec_bounds(),
            objs[k].spec_bounds().len(),
        ) && (ray.spec_is_done() || !spec_lerp_slice(
            objs[k].spec_bounds(),
            ray.time as int,
        ).spec_intersect_accel_ray(ray)) implies #[trigger] rests(k, ray) by {
        assert(hit_lies_in_bounds(objs[k]));
        if !ray.spec_is_done() && objs[k].spec_hit(ray).is_some() {
        }
    }
}

/// The state of a walk through a hierarchy with a batch of rays: a stack
/// of nodes still to visit, each with the number of rays at the front of
/// the batch that have to visit it.
pub struct Traverser {
    i_stack: [usize; 66],
    ray_i_stack: [usize; 66],
    stack_ptr: usize,
    depths: Ghost<Seq<nat>>,
}

impl Traverser {
    /// The number of nodes on the stack.
    pub closed spec fn sp(&self) -> int {
        self.stack_ptr as int
    }

    /// The node in slot `s` of the stack; the slots count from one.
    pub closed spec fn node_at(&self, s: int) -> int {
        self.i_stack@[s] as int
    }

    /// The number of rays that have to visit the node in slot `s`.
    pub closed spec fn live_at(&self, s: int) -> int {
        self.ray_i_stack@[s] as int
    }

    /// The depth of the node in slot `s`.
    pub closed spec fn depth_at(&self, s: int) -> nat {
        self.depths@[s]
    }

    /// Whether a depth is on record for every slot.
    pub closed spec fn depths_ok(&self) -> bool {
        self.depths@.len() == TRAVERSAL_STACK_SIZE
    }

    /// The limits of the tree that is walked.
    pub open spec fn shape_of<T: Boundable>(v: BVHView, objs: Seq<T>) -> Shape {
        Shape { samples: objs[0].spec_bounds().len(), max_depth: v.depth, leaf_size: objs.len() }
    }

    /// Whether slot `s` holds the root of a subtree of `v` that lies deep
    /// enough for its slot, to be visited by no more rays than there are and
    /// than visit the slot below.
    pub open spec fn slot_ok<T: Boundable>(
        &self,
        v: BVHView,
        objs: Seq<T>,
        ray_count: int,
        s: int,
    ) -> bool {
        let i = self.node_at(s);
        &&& v.subtree_ok(
            objs,
            i,
            v.object_lo(i),
            v.object_hi(i),
            self.depth_at(s),
            Self::shape_of(v, objs),
        )
        &&& 0 <= self.live_at(s) <= ray_count
        &&& s > 1 ==> self.live_at(s) <= self.live_at(s - 1)
        &&& s <= self.depth_at(s) + 1
    }

    /// Whether this is a state of a walk through `v` with `ray_count` rays.
    pub open spec fn wf<T: Boundable>(&self, v: BVHView, objs: Seq<T>, ray_count: int) -> bool {
        &&& self.depths_ok()
        &&& 0 <= self.sp() < TRAVERSAL_STACK_SIZE
        &&& forall|s: int| 1 <= s <= self.sp() ==> #[trigger] self.slot_ok(v, objs, ray_count, s)
    }

    /// The stack from the bottom: each entry is a node and the number of
    /// rays at the front of the batch that have to visit it.
    pub open spec fn spec_stack(&self) -> Seq<(int, int)> {
        Seq::new(self.sp() as nat, |s: int| (self.node_at(s + 1), self.live_at(s + 1)))
    }

    /// What a step has made of the stack is what the walk makes of it.
    proof fn lemma_stepped(
        &self,
        after: &Traverser,
        v: BVHView,
        rays: Seq<AccelRay>,
        sorted: Seq<AccelRay>,
        part: int,
        leaf: Option<(usize, usize, usize)>,
    )
        requires
            self.sp() > 0,
            sorted == spec_partition(
                rays,
                enters(v, self.node_at(self.sp())),
                0,
                self.live_at(self.sp()),
            ),
            part == spec_count(rays, enters(v, self.node_at(self.sp())), 0, self.live_at(self.sp())),
            0 <= part <= usize::MAX,
            forall|s: int|
                1 <= s < self.sp() ==> after.node_at(s) == self.node_at(s) && after.live_at(s)
                    == self.live_at(s),
            match v.nodes[self.node_at(self.sp())] {
                BVHNode::Internal { second_child_index, split_axis, .. } => {
                    if part > 0 {
                        let positive = sorted[0].dir.at(split_axis as int) >= 0;
                        &&& after.sp() == self.sp() + 1
                        &&& leaf.is_none()
                        &&& after.live_at(self.sp()) == part
                        &&& after.live_at(self.sp() + 1) == part
                        &&& after.node_at(self.sp() + 1) == if positive {
                            self.node_at(self.sp()) + 1
                        } else {
                            second_child_index as int
                        }
                        &&& after.node_at(self.sp()) == if positive {
                            second_child_index as int
                        } else {
                            self.node_at(self.sp()) + 1
                        }
                    } else {
                        after.sp() == self.sp() - 1 && leaf.is_none()
                    }
                },
                BVHNode::Leaf { object_range, .. } => after.sp() == self.sp() - 1 && leaf == if part
                    > 0 {
                    Some((object_range.0, object_range.1, part as usize))
                } else {
                    None
                },
            },
        ensures
            (after.spec_stack(), sorted, leaf) == spec_step(v, self.spec_stack(), rays),
    {
        let stack = self.spec_stack();
        let next = spec_step(v, stack, rays);
        assert(stack.last() == (self.node_at(self.sp()), self.live_at(self.sp())));
        let rest = stack.drop_last();
        assert forall|s: int| 0 <= s < rest.len() implies rest[s] == after.spec_stack()[s] by {
            assert(after.node_at(s + 1) == self.node_at(s + 1));
        }
        assert(after.spec_stack() =~= next.0);
    }

    /// Whether each node on the stack is to be visited by the first `part`
    /// rays at least.
    pub open spec fn all_live(&self, part: int) -> bool {
        forall|s: int| 1 <= s <= self.sp() ==> part <= #[trigger] self.live_at(s)
    }

    /// Whether the ray at position `j` still has to visit a node above
    /// object `k`.
    pub open spec fn pending(&self, v: BVHView, j: int, k: int) -> bool {
        exists|s: int|
            1 <= s <= self.sp() && j < self.live_at(s) && v.object_lo(#[trigger] self.node_at(s))
                <= k < v.object_hi(self.node_at(s))
    }

    /// Whether the ray at position `j` can rest as far as object `k` is
    /// concerned, as `rests` has it, or will still come by the object, or
    /// both belong to the leaf that is handed out for testing.
    pub open spec fn accounted(
        &self,
        v: BVHView,
        rays: Seq<AccelRay>,
        rests: spec_fn(int, AccelRay) -> bool,
        leaf: Option<(usize, usize, usize)>,
        j: int,
        k: int,
    ) -> bool {
        ||| rests(k, rays[j])
        ||| self.pending(v, j, k)
        ||| match leaf {
            Some((lo, hi, part)) => j < part && lo <= k < hi,
            None => false,
        }
    }

    /// Whether every ray can rest as far as any of the `count` objects is
    /// concerned that it will not come by any more, but for the rays and
    /// objects of `leaf`.
    pub open spec fn accounts(
        &self,
        v: BVHView,
        count: int,
        rays: Seq<AccelRay>,
        rests: spec_fn(int, AccelRay) -> bool,
        leaf: Option<(usize, usize, usize)>,
    ) -> bool {
        forall|j: int, k: int|
            0 <= j < rays.len() && 0 <= k < count ==> #[trigger] self.accounted(
                v,
                rays,
                rests,
                leaf,
                j,
                k,
            )
    }

    /// The number of nodes in the subtrees of the lowest `s` slots.
    pub closed spec fn work_below(&self, v: BVHView, s: int) -> int
        decreases s,
    {
        if s <= 0 {
            0
        } else {
            self.work_below(v, s - 1) + (v.subtree_end(self.node_at(s)) - self.node_at(s))
        }
    }

    /// The number of nodes that the walk may still visit.
    pub closed spec fn work(&self, v: BVHView) -> int {
        self.work_below(v, self.sp())
    }

    /// The work below a slot depends on the slots below it only.
    proof fn lemma_work_frame(&self, other: &Traverser, v: BVHView, s: int)
        requires
            forall|t: int| 1 <= t <= s ==> self.node_at(t) == other.node_at(t),
        ensures
            self.work_below(v, s) == other.work_below(v, s),
        decreases s,
    {
        if s > 0 {
            self.lemma_work_frame(other, v, s - 1);
        }
    }

    /// The work is never negative.
    proof fn lemma_work_nonneg<T: Boundable>(&self, v: BVHView, objs: Seq<T>, rc: int, s: int)
        requires
            self.wf(v, objs, rc),
            0 <= s <= self.sp(),
        ensures
            self.work_below(v, s) >= 0,
        decreases s,
    {
        if s > 0 {
            self.lemma_work_nonneg(v, objs, rc, s - 1);
            assert(self.slot_ok(v, objs, rc, s));
            let i = self.node_at(s);
            lemma_subtree_frame(
                v,
                v,
                objs,
                objs,
                i,
                v.object_lo(i),
                v.object_hi(i),
                self.depth_at(s),
                Self::shape_of(v, objs),
                Self::shape_of(v, objs),
            );
        }
    }

    /// No slot is visited by more rays than a slot below it.
    proof fn lemma_live_monotone<T: Boundable>(
        &self,
        v: BVHView,
        objs: Seq<T>,
        rc: int,
        s: int,
        t: int,
    )
        requires
            self.wf(v, objs, rc),
            1 <= s <= t <= self.sp(),
        ensures
            self.live_at(t) <= self.live_at(s),
        decreases t - s,
    {
        if s < t {
            assert(self.slot_ok(v, objs, rc, t));
            self.lemma_live_monotone(v, objs, rc, s, t - 1);
        }
    }
}

/// Whether a ray that is not done passes through the bounds that node
/// `i` has at the time of the ray.
pub open spec fn enters(v: BVHView, i: int) -> spec_fn(AccelRay) -> bool {
    |r: AccelRay|
        !r.spec_is_done() && spec_lerp_slice(v.node_bounds(i), r.time as int).spec_intersect_accel_ray(
            r,
        )
}

/// One step of the walk: the node on top of `stack`, each entry of which
/// is a node and the number of rays at the front of the batch that have to
/// visit it, leaves the stack.  The rays that had to visit it are
/// partitioned, those that enter its bounds in front.  If some do and the
/// node is internal, its children take its place, with those rays to
/// visit them, the child on top that the first of them reaches first:
/// the first child if that ray runs towards higher coordinates along the
/// split axis, or keeps its coordinate, else the second.  If some do and
/// the node is a leaf, the range of its objects is handed out with the
/// number of those rays.
pub open spec fn spec_step(v: BVHView, stack: Seq<(int, int)>, rays: Seq<AccelRay>) -> (
    Seq<(int, int)>,
    Seq<AccelRay>,
    Option<(usize, usize, usize)>,
) {
    let (i, live) = stack.last();
    let sorted = spec_partition(rays, enters(v, i), 0, live);
    let part = spec_count(rays, enters(v, i), 0, live);
    let rest = stack.drop_last();
    match v.nodes[i] {
        BVHNode::Internal { second_child_index, split_axis, .. } => {
            if part > 0 {
                let positive = sorted[0].dir.at(split_axis as int) >= 0;
                let near = if positive {
                    i + 1
                } else {
                    second_child_index as int
                };
                let far = if positive {
                    second_child_index as int
                } else {
                    i + 1
                };
                (rest.push((far, part)).push((near, part)), sorted, None)
            } else {
                (rest, sorted, None)
            }
        },
        BVHNode::Leaf { object_range, .. } => (
            rest,
            sorted,
            if part > 0 {
                Some((object_range.0, object_range.1, part as usize))
            } else {
                None
            },
        ),
    }
}

/// The walk from `stack` on, for `n` steps at most, until a leaf is
/// handed out or the stack is empty.
pub open spec fn spec_next(v: BVHView, stack: Seq<(int, int)>, rays: Seq<AccelRay>, n: nat) -> (
    Seq<(int, int)>,
    Seq<AccelRay>,
    Option<(usize, usize, usize)>,
)
    decreases n,
{
    if n == 0 || stack.len() == 0 {
        (stack, rays, None)
    } else {
        let next = spec_step(v, stack, rays);
        if next.2.is_some() {
            next
        } else {
            spec_next(v, next.0, next.1, (n - 1) as nat)
        }
    }
}

/// A walk that has neither handed out a leaf nor emptied the stack goes
/// on with one more step.
pub proof fn lemma_next_goes_on(v: BVHView, stack: Seq<(int, int)>, rays: Seq<AccelRay>, n: nat)
    requires
        spec_next(v, stack, rays, n).2.is_none(),
        spec_next(v, stack, rays, n).0.len() > 0,
    ensures
        spec_next(v, stack, rays, n + 1) == spec_step(
            v,
            spec_next(v, stack, rays, n).0,
            spec_next(v, stack, rays, n).1,
        ),
    decreases n,
{
    if n == 0 {
        let next = spec_step(v, stack, rays);
        if next.2.is_none() {
            assert(spec_next(v, next.0, next.1, 0) == next);
        }
    } else {
        let next = spec_step(v, stack, rays);
        assert(stack.len() > 0);
        assert(next.2.is_none());
        lemma_next_goes_on(v, next.0, next.1, (n - 1) as nat);
    }
}

/// No node of a tree lies deeper than its leaves may, and an internal node
/// lies above that.
pub proof fn lemma_depth_bound<T: Boundable>(
    v: BVHView,
    objs: Seq<T>,
    i: int,
    lo: int,
    hi: int,
    depth: nat,
    shape: Shape,
)
    requires
        v.subtree_ok(objs, i, lo, hi, depth, shape),
    ensures
        depth <= shape.max_depth,
        v.nodes[i] is Internal ==> depth < shape.max_depth,
    decreases v.nodes.len() - i,
{
    match v.nodes[i] {
        BVHNode::Leaf { .. } => {},
        BVHNode::Internal { .. } => {
            lemma_depth_bound(v, objs, i + 1, lo, v.object_hi(i + 1), depth + 1, shape);
        },
    }
}

/// The boxes of a node hold, sample by sample, the bounds of every object
/// below the node.
pub proof fn lemma_node_holds_objects<T: Boundable>(
    v: BVHView,
    objs: Seq<T>,
    i: int,
    lo: int,
    hi: int,
    depth: nat,
    shape: Shape,
    k: int,
)
    requires
        v.subtree_ok(objs, i, lo, hi, depth, shape),
        objects_ok(objs, shape.samples),
        lo <= k < hi,
    ensures
        samples_ok(v.node_bounds(i), shape.samples),
        forall|t: int|
            0 <= t < shape.samples ==> (#[trigger] v.node_bounds(i)[t]).contains(
                objs[k].spec_bounds()[t],
            ),
{
    let r = v.nodes[i].spec_bounds_range();
    assert forall|t: int| 0 <= t < shape.samples implies (#[trigger] v.node_bounds(i)[t]).wf()
        && v.node_bounds(i)[t].contains(objs[k].spec_bounds()[t]) by {
        assert(v.node_bounds(i)[t] == v.bounds[r.0 + t]);
        lemma_union_range_split(objs, lo, hi, hi, t, shape.samples);
    }
}

impl BVH {
    /// Starts a walk through the hierarchy with a batch of rays: all of
    /// them have to visit the root.
    pub fn traverse_begin<T: Boundable>(&self, rays: &[AccelRay], objects: &[T]) -> (trav:
        Traverser)
        requires
            self.wf_for(objects@),
        ensures
            trav.wf(self@, objects@, rays@.len() as int),
            forall|rests: spec_fn(int, AccelRay) -> bool| #[trigger]
                trav.accounts(self@, objects@.len() as int, rays@, rests, None),
            self@.nodes.len() == 0 ==> trav.sp() == 0,
    {
        let trav = Traverser {
            i_stack: [0usize; 66],
            ray_i_stack: [rays.len(); 66],
            stack_ptr: if self.node_count() > 0 {
                1
            } else {
                0
            },
            depths: Ghost(Seq::new(66, |s: int| 0nat)),
        };
        proof {
            let v = self@;
            if v.nodes.len() > 0 {
                let shape = Traverser::shape_of(v, objects@);
                lemma_subtree_frame(
                    v,
                    v,
                    objects@,
                    objects@,
                    0,
                    0,
                    objects@.len() as int,
                    0,
                    shape,
                    shape,
                );
                assert(trav.slot_ok(v, objects@, rays@.len() as int, 1));
                assert forall|rests: spec_fn(int, AccelRay) -> bool| #[trigger]
                    trav.accounts(v, objects@.len() as int, rays@, rests, None) by {
                    assert forall|j: int, k: int|
                        0 <= j < rays@.len() && 0 <= k < objects@.len() implies #[trigger] trav.accounted(
                        v,
                        rays@,
                        rests,
                        None,
                        j,
                        k,
                    ) by {
                        assert(v.object_lo(trav.node_at(1)) <= k < v.object_hi(trav.node_at(1)));
                        assert(trav.pending(v, j, k));
                    }
                }
            }
        }
        trav
    }

    /// Visits the node on top of the stack: moves the rays that are not
    /// done and pass through its bounds to the front of those that had to
    /// visit it, and puts its children on the stack in its place, the one
    /// first that the first ray reaches first.  Returns a leaf that such
    /// rays have reached, as the range of its objects and the number of the
    /// rays.
    fn visit_top<T: Boundable>(
        &self,
        trav: &mut Traverser,
        rays: &mut [AccelRay],
        objects: &[T],
    ) -> (r: Option<(usize, usize, usize)>)
        requires
            self.wf_for(objects@),
            old(trav).wf(self@, objects@, old(rays)@.len() as int),
            old(trav).sp() > 0,
            rays_ok(old(rays)@),
        ensures
            final(trav).wf(self@, objects@, old(rays)@.len() as int),
            final(trav).work(self@) < old(trav).work(self@),
            final(rays)@.len() == old(rays)@.len(),
            rays_ok(final(rays)@),
            final(rays)@.to_multiset() == old(rays)@.to_multiset(),
            forall|rests: spec_fn(int, AccelRay) -> bool|
                old(trav).accounts(self@, objects@.len() as int, old(rays)@, rests, None) && culls(
                    objects@,
                    rests,
                ) ==> #[trigger] final(trav).accounts(
                    self@,
                    objects@.len() as int,
                    final(rays)@,
                    rests,
                    r,
                ),
            r.is_some() ==> r.unwrap().0 < r.unwrap().1 <= objects@.len() && 0 < r.unwrap().2
                <= old(rays)@.len(),
            r.is_some() ==> final(trav).all_live(r.unwrap().2 as int),
            (final(trav).spec_stack(), final(rays)@, r) == spec_step(
                self@,
                old(trav).spec_stack(),
                old(rays)@,
            ),
    {
        let ghost v = self@;
        let ghost objs = objects@;
        let ghost shape = Traverser::shape_of(v, objs);
        let ghost rays0 = rays@;
        let ghost trav0 = *trav;
        let ghost rc = rays@.len() as int;
        let sp: usize = trav.stack_ptr;
        let ni: usize = trav.i_stack[sp];
        let live: usize = trav.ray_i_stack[sp];
        let ghost depth = trav.depth_at(sp as int);
        let ghost lo = v.object_lo(ni as int);
        let ghost hi = v.object_hi(ni as int);
        proof {
            assert(trav.slot_ok(v, objs, rc, sp as int));
            lemma_subtree_frame(v, v, objs, objs, ni as int, lo, hi, depth, shape, shape);
            lemma_depth_bound(v, objs, ni as int, lo, hi, depth, shape);
        }
        let node: BVHNode = self.node(ni);
        let br: (usize, usize) = node.bounds_range();
        let boxes: &[BBox] = self.bounds_slice(br);
        proof {
            assert(boxes@ == v.node_bounds(ni as int));
            lemma_node_holds_objects(v, objs, ni as int, lo, hi, depth, shape, lo);
            assert forall|t: int| 0 <= t < boxes@.len() implies (#[trigger] boxes@[t]).lerp_ok() by {
                assert(boxes@[t].wf());
            }
        }
        let pred = |r: &AccelRay| -> (b: bool)
            requires
                r.wf(),
                boxes@.len() > 0,
                forall|t: int| 0 <= t < boxes@.len() ==> (#[trigger] boxes@[t]).lerp_ok(),
            ensures
                b == (!r.spec_is_done() && spec_lerp_slice(
                    boxes@,
                    r.time as int,
                ).spec_intersect_accel_ray(*r)),
            {
                !r.is_done() && lerp_slice(boxes, r.time).intersect_accel_ray(r)
            };
        proof {
            assert forall|j: int| 0 <= j < live implies pred_decides(pred, #[trigger] rays@[j]) by {
                assert(rays@[j].wf());
            }
            lemma_partition_properties(rays0, pred_fn(pred), 0, live as int);
        }

        let part: usize = partition_range(rays, 0, live, pred);
        let ghost rays1 = rays@;
        proof {
            let p = enters(v, ni as int);
            assert forall|k: int| 0 <= k < live implies pred_fn(pred)(#[trigger] rays0[k]) == p(
                rays0[k],
            ) by {
                assert(pred_answers(pred, rays0[k]));
            }
            lemma_partition_agrees(rays0, pred_fn(pred), p, 0, live as int);
            lemma_count_agrees(rays0, rays0, pred_fn(pred), p, 0, live as int);
        }
        proof {
            assert forall|j: int| 0 <= j < rays1.len() implies (#[trigger] rays1[j]).wf() by {
                vstd::seq_lib::to_multiset_contains(rays1, rays1[j]);
                vstd::seq_lib::to_multiset_contains(rays0, rays1[j]);
                assert(rays1.contains(rays1[j]));
                let w = choose|w: int| 0 <= w < rays0.len() && rays0[w] == rays1[j];
                assert(rays0[w].wf());
            }
        }
        let mut leaf: Option<(usize, usize, usize)> = None;
        match node {
            BVHNode::Internal { second_child_index, split_axis, .. } => {
                if part > 0 {
                    let positive: bool = rays[0].dir.get_n(split_axis as usize) >= 0;
                    let below: usize = if positive {
                        second_child_index
                    } else {
                        ni + 1
                    };
                    let above: usize = if positive {
                        ni + 1
                    } else {
                        second_child_index
                    };
                    trav.i_stack[sp] = below;
                    trav.i_stack[sp + 1] = above;
                    trav.ray_i_stack[sp] = part;
                    trav.ray_i_stack[sp + 1] = part;
                    let ghost d2 = trav.depths@.update(sp as int, depth + 1).update(
                        sp + 1,
                        depth + 1,
                    );
                    trav.depths = Ghost(d2);
                    trav.stack_ptr = sp + 1;
                    proof {
                        let c = second_child_index as int;
                        let mid = v.object_hi(ni + 1);
                        lemma_subtree_frame(
                            v,
                            v,
                            objs,
                            objs,
                            ni + 1,
                            lo,
                            mid,
                            depth + 1,
                            shape,
                            shape,
                        );
                        lemma_subtree_frame(v, v, objs, objs, c, mid, hi, depth + 1, shape, shape);
                        assert forall|s: int| 1 <= s <= trav.sp() implies #[trigger] trav.slot_ok(
                            v,
                            objs,
                            rc,
                            s,
                        ) by {
                            if s < sp {
                                assert(trav0.slot_ok(v, objs, rc, s));
                                assert(trav.node_at(s) == trav0.node_at(s));
                                assert(trav.live_at(s) == trav0.live_at(s));
                                assert(trav.depth_at(s) == trav0.depth_at(s));
                                if s > 1 {
                                    assert(trav.live_at(s - 1) == trav0.live_at(s - 1));
                                }
                            } else {
                                assert(trav0.slot_ok(v, objs, rc, sp as int));
                                assert(trav.depth_at(s) == depth + 1);
                                assert(trav.live_at(s) == part);
                                assert(trav.node_at(s) == ni + 1 || trav.node_at(s) == c);
                                if s == sp && sp > 1 {
                                    assert(trav.live_at(s - 1) == trav0.live_at(s - 1));
                                }
                            }
                        }
                        trav.lemma_work_frame(&trav0, v, sp - 1);
                        assert(trav.work(v) == trav.work_below(v, sp - 1) + (v.subtree_end(
                            trav.node_at(sp as int),
                        ) - trav.node_at(sp as int)) + (v.subtree_end(trav.node_at(sp + 1))
                            - trav.node_at(sp + 1))) by {
                            assert(trav.work_below(v, sp + 1) == trav.work_below(v, sp as int) + (
                            v.subtree_end(trav.node_at(sp + 1)) - trav.node_at(sp + 1)));
                        }
                        assert(trav0.work(v) == trav0.work_below(v, sp - 1) + (v.subtree_end(
                            ni as int,
                        ) - ni));
                    }
                } else {
                    trav.stack_ptr = sp - 1;
                    proof {
                        assert forall|s: int| 1 <= s <= trav.sp() implies #[trigger] trav.slot_ok(
                            v,
                            objs,
                            rc,
                            s,
                        ) by {
                            assert(trav0.slot_ok(v, objs, rc, s));
                        }
                        trav.lemma_work_frame(&trav0, v, sp - 1);
                    }
                }
            },
            BVHNode::Leaf { object_range, .. } => {
                trav.stack_ptr = sp - 1;
                proof {
                    assert forall|s: int| 1 <= s <= trav.sp() implies #[trigger] trav.slot_ok(
                        v,
                        objs,
                        rc,
                        s,
                    ) by {
                        assert(trav0.slot_ok(v, objs, rc, s));
                    }
                    trav.lemma_work_frame(&trav0, v, sp - 1);
                    assert forall|s: int| 1 <= s <= trav.sp() implies part <= #[trigger] trav.live_at(
                        s,
                    ) by {
                        trav0.lemma_live_monotone(v, objs, rc, s, sp as int);
                        assert(trav.live_at(s) == trav0.live_at(s));
                    }
                }
                if part > 0 {
                    leaf = Some((object_range.0, object_range.1, part));
                }
            },
        }
        proof {
            trav0.lemma_stepped(trav, v, rays0, rays1, part as int, leaf);
        }
        proof {
            assert(rays1 =~= rays1.subrange(0, live as int) + rays1.subrange(
                live as int,
                rays1.len() as int,
            ));
            assert forall|rests: spec_fn(int, AccelRay) -> bool|
                trav0.accounts(v, objs.len() as int, rays0, rests, None) && culls(
                    objs,
                    rests,
                ) implies #[trigger] trav.accounts(v, objs.len() as int, rays1, rests, leaf) by {
                assert forall|j: int, k: int|
                    0 <= j < rays1.len() && 0 <= k < objs.len() implies #[trigger] trav.accounted(
                    v,
                    rays1,
                    rests,
                    leaf,
                    j,
                    k,
                ) by {
                    // where the ray at `j` stood before the rays were partitioned
                    let x = rays1[j];
                    let w: int = if j < live {
                        let h1 = rays1.subrange(0, live as int);
                        let h0 = rays0.subrange(0, live as int);
                        assert(h1[j] == x);
                        assert(h1.contains(x));
                        vstd::seq_lib::to_multiset_contains(h1, x);
                        vstd::seq_lib::to_multiset_contains(h0, x);
                        let w = choose|w: int| 0 <= w < h0.len() && h0[w] == x;
                        assert(rays0[w] == x);
                        w
                    } else {
                        j
                    };
                    assert(rays0[w] == x);
                    assert(j < live <==> w < live);
                    assert(trav0.accounted(v, rays0, rests, None, w, k));
                    if rests(k, rays0[w]) {
                    } else {
                        assert(trav0.pending(v, w, k));
                        let s = choose|s: int|
                            1 <= s <= trav0.sp() && w < trav0.live_at(s) && v.object_lo(
                                #[trigger] trav0.node_at(s),
                            ) <= k < v.object_hi(trav0.node_at(s));
                        if s < sp {
                            trav0.lemma_live_monotone(v, objs, rc, s, sp as int);
                            assert(trav.node_at(s) == trav0.node_at(s));
                            assert(trav.live_at(s) == trav0.live_at(s));
                            assert(j < trav.live_at(s));
                            assert(trav.pending(v, j, k));
                        } else {
                            // the ray had to visit the node on top
                            assert(lo <= k < hi);
                            assert(w < live);
                            if j >= part {
                                assert(!pred_fn(pred)(rays1[j]));
                                assert(crate::algorithm::pred_answers(pred, rays1[j]));
                                lemma_node_holds_objects(
                                    v,
                                    objs,
                                    ni as int,
                                    lo,
                                    hi,
                                    depth,
                                    shape,
                                    k,
                                );
                                assert(samples_ok(objs[k].spec_bounds(), shape.samples));
                                if !x.spec_is_done() {
                                    let own = spec_lerp_slice(
                                        objs[k].spec_bounds(),
                                        x.time as int,
                                    );
                                    if own.spec_intersect_accel_ray(x) {
                                        lemma_lerp_slice_contains(
                                            boxes@,
                                            objs[k].spec_bounds(),
                                            x.time as int,
                                        );
                                        lemma_intersect_monotone(
                                            spec_lerp_slice(boxes@, x.time as int),
                                            own,
                                            x,
                                            x,
                                        );
                                    }
                                }
                                assert(rests(k, x));
                            } else {
                                match node {
                                    BVHNode::Internal { second_child_index, .. } => {
                                        let c = second_child_index as int;
                                        let mid = v.object_hi(ni + 1);
                                        lemma_subtree_frame(
                                            v,
                                            v,
                                            objs,
                                            objs,
                                            ni + 1,
                                            lo,
                                            mid,
                                            depth + 1,
                                            shape,
                                            shape,
                                        );
                                        lemma_subtree_frame(
                                            v,
                                            v,
                                            objs,
                                            objs,
                                            c,
                                            mid,
                                            hi,
                                            depth + 1,
                                            shape,
                                            shape,
                                        );
                                        let t: int = if (k < mid) == (trav.node_at(sp as int) == ni
                                            + 1) {
                                            sp as int
                                        } else {
                                            sp + 1
                                        };
                                        assert(v.object_lo(trav.node_at(t)) <= k < v.object_hi(
                                            trav.node_at(t),
                                        ));
                                        assert(j < trav.live_at(t));
                                        assert(trav.pending(v, j, k));
                                    },
                                    BVHNode::Leaf { .. } => {},
                                }
                            }
                        }
                    }
                }
            }
        }
        leaf
    }
}

/// A ray is what no test at all makes of it.
pub proof fn lemma_advanced_refl<T: Intersectable>(objs: Seq<T>, ray: AccelRay)
    ensures
        advanced(objs, ray, ray),
{
}

/// Rays that changed places are still the rays that they descend from.
pub proof fn lemma_descends_permuted<T: Intersectable>(
    objs: Seq<T>,
    first: Seq<AccelRay>,
    before: Seq<AccelRay>,
    after: Seq<AccelRay>,
)
    requires
        descends(objs, first, before),
        after.len() == before.len(),
        after.to_multiset() == before.to_multiset(),
    ensures
        descends(objs, first, after),
{
    assert forall|j: int| 0 <= j < after.len() implies has_ancestor(
        objs,
        first,
        #[trigger] after[j],
    ) by {
        let x = after[j];
        assert(after.contains(x));
        vstd::seq_lib::to_multiset_contains(after, x);
        vstd::seq_lib::to_multiset_contains(before, x);
        let w = choose|w: int| 0 <= w < before.len() && before[w] == x;
        assert(has_ancestor(objs, first, before[w]));
    }
    assert forall|i: int| 0 <= i < first.len() implies has_descendant(
        objs,
        after,
        #[trigger] first[i],
    ) by {
        assert(has_descendant(objs, before, first[i]));
        let w = choose|w: int|
            0 <= w < before.len() && advanced(objs, first[i], #[trigger] before[w]);
        let x = before[w];
        assert(before.contains(x));
        vstd::seq_lib::to_multiset_contains(after, x);
        vstd::seq_lib::to_multiset_contains(before, x);
        let j = choose|j: int| 0 <= j < after.len() && after[j] == x;
        assert(advanced(objs, first[i], after[j]));
    }
}

/// Tests carry on from what earlier tests have made of a ray.
pub proof fn lemma_advanced_trans<T: Intersectable>(
    objs: Seq<T>,
    a: AccelRay,
    b: AccelRay,
    c: AccelRay,
)
    requires
        advanced(objs, a, b),
        advanced(objs, b, c),
        hit_model_ok(objs),
    ensures
        advanced(objs, a, c),
{
    if c.max_t != a.max_t {
        if c.max_t == b.max_t {
            let w = choose|w: int|
                0 <= w < objs.len() && (#[trigger] objs[w]).spec_hit(a) == Some(b.max_t);
            assert(objs[w].spec_hit(a) == Some(c.max_t));
        } else {
            let w = choose|w: int|
                0 <= w < objs.len() && (#[trigger] objs[w]).spec_hit(b) == Some(c.max_t);
            assert(hit_depends_on_course(objs[w]));
            assert(objs[w].spec_hit(a) == objs[w].spec_hit(b));
            assert(objs[w].spec_hit(a) == Some(c.max_t));
        }
    }
}

/// Rays that were tested where they stand are still the rays that they
/// descend from.
pub proof fn lemma_descends_advanced<T: Intersectable>(
    objs: Seq<T>,
    first: Seq<AccelRay>,
    before: Seq<AccelRay>,
    after: Seq<AccelRay>,
)
    requires
        descends(objs, first, before),
        after.len() == before.len(),
        forall|j: int| 0 <= j < before.len() ==> advanced(objs, #[trigger] before[j], after[j]),
        hit_model_ok(objs),
    ensures
        descends(objs, first, after),
{
    assert forall|j: int| 0 <= j < after.len() implies has_ancestor(
        objs,
        first,
        #[trigger] after[j],
    ) by {
        assert(has_ancestor(objs, first, before[j]));
        let i = choose|i: int| 0 <= i < first.len() && advanced(objs, #[trigger] first[i], before[j]);
        assert(advanced(objs, before[j], after[j]));
        lemma_advanced_trans(objs, first[i], before[j], after[j]);
    }
    assert forall|i: int| 0 <= i < first.len() implies has_descendant(
        objs,
        after,
        #[trigger] first[i],
    ) by {
        assert(has_descendant(objs, before, first[i]));
        let j = choose|j: int|
            0 <= j < before.len() && advanced(objs, first[i], #[trigger] before[j]);
        assert(advanced(objs, before[j], after[j]));
        lemma_advanced_trans(objs, first[i], before[j], after[j]);
    }
}

/// Rays descend from themselves.
pub proof fn lemma_descends_refl<T: Intersectable>(objs: Seq<T>, rays: Seq<AccelRay>)
    ensures
        descends(objs, rays, rays),
{
    assert forall|j: int| 0 <= j < rays.len() implies has_ancestor(
        objs,
        rays,
        #[trigger] rays[j],
    ) && has_descendant(objs, rays, rays[j]) by {
        lemma_advanced_refl(objs, rays[j]);
    }
}

/// Tests the first `part` of `rays` against `obj`.
fn test_prefix<T: Intersectable, V: RayTester<T>>(
    tester: &mut V,
    obj: &T,
    rays: &mut [AccelRay],
    part: usize,
)
    requires
        part <= old(rays)@.len(),
        old(tester).inv(),
        rays_ok(old(rays)@),
        distinct_ids(old(rays)@),
        all_agree(*old(tester), old(rays)@),
        obj.spec_bounds().len() > 0,
        samples_ok(obj.spec_bounds(), obj.spec_bounds().len()),
    ensures
        final(tester).inv(),
        final(rays)@.len() == old(rays)@.len(),
        rays_ok(final(rays)@),
        distinct_ids(final(rays)@),
        all_agree(*final(tester), final(rays)@),
        forall|j: int| 0 <= j < part ==> tested(*obj, #[trigger] old(rays)@[j], final(rays)@[j]),
        forall|j: int| part <= j < old(rays)@.len() ==> #[trigger] final(rays)@[j] == old(rays)@[j],
{
    let (head, tail) = rays.split_at_mut(part);
    assert(rays_ok(head@)) by {
        assert forall|j: int| 0 <= j < head@.len() implies (#[trigger] head@[j]).wf() by {
            assert(head@[j] == old(rays)@[j]);
        }
    }
    let ghost head0 = head@;
    let ghost tail0 = tail@;
    let ghost tester0 = *tester;
    proof {
        assert forall|i: int, j: int| 0 <= i < j < head0.len() implies (#[trigger] head0[i]).id != (
        #[trigger] head0[j]).id by {
            assert(head0[i] == old(rays)@[i] && head0[j] == old(rays)@[j]);
        }
        assert forall|j: int| 0 <= j < head0.len() implies tester0.agrees(#[trigger] head0[j]) by {
            assert(head0[j] == old(rays)@[j]);
        }
    }
    tester.test(obj, head);
    proof {
        let all = head@ + tail0;
        assert forall|j: int| 0 <= j < all.len() implies all[j].id == old(rays)@[j].id by {
            if j < part {
                assert(head0[j] == old(rays)@[j]);
                assert(tested(*obj, head0[j], head@[j]));
            } else {
                assert(tail0[j - part] == old(rays)@[j]);
            }
        }
        assert forall|i: int, j: int| 0 <= i < j < all.len() implies (#[trigger] all[i]).id != (
        #[trigger] all[j]).id by {
            assert(old(rays)@[i].id != old(rays)@[j].id);
        }
        assert forall|j: int| 0 <= j < all.len() implies tester.agrees(#[trigger] all[j]) by {
            if j < part {
                assert(all[j] == head@[j]);
            } else {
                let r = old(rays)@[j];
                assert(all[j] == r);
                assert(id_absent(head0, r.id)) by {
                    assert forall|i: int| 0 <= i < head0.len() implies (#[trigger] head0[i]).id
                        != r.id by {
                        assert(head0[i] == old(rays)@[i]);
                        assert(old(rays)@[i].id != old(rays)@[j].id);
                    }
                }
                assert(tester0.agrees(r));
            }
        }
        assert forall|j: int| 0 <= j < part implies tested(
            *obj,
            #[trigger] old(rays)@[j],
            (head@ + tail0)[j],
        ) by {
            assert(head0[j] == old(rays)@[j]);
            assert(tested(*obj, head0[j], head@[j]));
        }
        assert forall|j: int| 0 <= j < (head@ + tail0).len() implies (#[trigger] (head@
            + tail0)[j]).wf() by {
            if j < part {
                assert(head@[j].wf());
            } else {
                assert(tail0[j - part] == old(rays)@[j]);
            }
        }
    }
}

impl BVH {
    /// Walks on until rays have reached a leaf, and returns the range of
    /// its objects and the number of rays at the front of the batch that
    /// are to be tested against them; returns `None` when the walk is over.
    pub fn traverse_next<T: Boundable>(
        &self,
        trav: &mut Traverser,
        rays: &mut [AccelRay],
        objects: &[T],
    ) -> (r: Option<(usize, usize, usize)>)
        requires
            self.wf_for(objects@),
            old(trav).wf(self@, objects@, old(rays)@.len() as int),
            rays_ok(old(rays)@),
        ensures
            final(trav).wf(self@, objects@, old(rays)@.len() as int),
            final(rays)@.len() == old(rays)@.len(),
            rays_ok(final(rays)@),
            final(rays)@.to_multiset() == old(rays)@.to_multiset(),
            forall|rests: spec_fn(int, AccelRay) -> bool|
                old(trav).accounts(self@, objects@.len() as int, old(rays)@, rests, None) && culls(
                    objects@,
                    rests,
                ) ==> #[trigger] final(trav).accounts(
                    self@,
                    objects@.len() as int,
                    final(rays)@,
                    rests,
                    r,
                ),
            r.is_some() ==> r.unwrap().0 < r.unwrap().1 <= objects@.len() && 0 < r.unwrap().2
                <= old(rays)@.len(),
            r.is_some() ==> 0 <= final(trav).work(self@) < old(trav).work(self@),
            r.is_some() ==> final(trav).all_live(r.unwrap().2 as int),
            r.is_none() ==> final(trav).sp() == 0,
            exists|n: nat| #[trigger]
                spec_next(self@, old(trav).spec_stack(), old(rays)@, n) == (
                    final(trav).spec_stack(),
                    final(rays)@,
                    r,
                ),
            old(trav).sp() == 0 || old(rays)@.len() == 0 ==> r.is_none() && final(rays)@ == old(
                rays,
            )@,
    {
        let ghost steps: nat = 0;
        loop
            invariant
                self.wf_for(objects@),
                trav.wf(self@, objects@, old(rays)@.len() as int),
                rays@.len() == old(rays)@.len(),
                rays_ok(rays@),
                rays@.to_multiset() == old(rays)@.to_multiset(),
                spec_next(self@, old(trav).spec_stack(), old(rays)@, steps) == (
                    trav.spec_stack(),
                    rays@,
                    None::<(usize, usize, usize)>,
                ),
                forall|rests: spec_fn(int, AccelRay) -> bool|
                    old(trav).accounts(self@, objects@.len() as int, old(rays)@, rests, None)
                        && culls(objects@, rests) ==> #[trigger] trav.accounts(
                        self@,
                        objects@.len() as int,
                        rays@,
                        rests,
                        None,
                    ),
                trav.work(self@) <= old(trav).work(self@),
                old(trav).sp() == 0 ==> trav.sp() == 0,
                old(trav).sp() == 0 || old(rays)@.len() == 0 ==> rays@ == old(rays)@,
            decreases trav.work(self@),
        {
            proof {
                trav.lemma_work_nonneg(self@, objects@, old(rays)@.len() as int, trav.sp());
            }
            if trav.stack_ptr == 0 {
                return None;
            }
            let ghost before = *trav;
            let ghost rays_before = rays@;
            let r = self.visit_top(trav, rays, objects);
            proof {
                lemma_next_goes_on(self@, old(trav).spec_stack(), old(rays)@, steps);
                steps = steps + 1;
            }
            proof {
                trav.lemma_work_nonneg(self@, objects@, old(rays)@.len() as int, trav.sp());
                if rays@.len() == 0 {
                    assert(rays@ =~= old(rays)@);
                }
                assert forall|rests: spec_fn(int, AccelRay) -> bool|
                    old(trav).accounts(self@, objects@.len() as int, old(rays)@, rests, None)
                        && culls(objects@, rests) implies #[trigger] trav.accounts(
                    self@,
                    objects@.len() as int,
                    rays@,
                    rests,
                    r,
                ) by {
                    assert(before.accounts(
                        self@,
                        objects@.len() as int,
                        rays_before,
                        rests,
                        None,
                    ));
                }
            }
            if r.is_some() {
                return r;
            }
        }
    }

    /// Tests the first `part` of `rays` against each of the objects from
    /// `lo` up to `hi`.
    fn test_leaf<T: Intersectable, V: RayTester<T>>(
        rays: &mut [AccelRay],
        objects: &[T],
        tester: &mut V,
        lo: usize,
        hi: usize,
        part: usize,
        n: Ghost<nat>,
    )
        requires
            lo <= hi <= objects@.len(),
            part <= old(rays)@.len(),
            old(tester).inv(),
            rays_ok(old(rays)@),
            n@ > 0,
            objects_ok(objects@, n@),
            hit_model_ok(objects@),
            distinct_ids(old(rays)@),
            all_agree(*old(tester), old(rays)@),
        ensures
            final(tester).inv(),
            final(rays)@.len() == old(rays)@.len(),
            rays_ok(final(rays)@),
            distinct_ids(final(rays)@),
            all_agree(*final(tester), final(rays)@),
            forall|j: int|
                0 <= j < old(rays)@.len() ==> advanced(
                    objects@,
                    #[trigger] old(rays)@[j],
                    final(rays)@[j],
                ),
            forall|j: int, k: int|
                0 <= j < old(rays)@.len() && 0 <= k < objects@.len() && settled_at(
                    objects@,
                    old(rays)@,
                    j,
                    k,
                ) ==> #[trigger] settled_at(objects@, final(rays)@, j, k),
            forall|j: int, k: int|
                0 <= j < part && lo <= k < hi ==> #[trigger] settled_at(
                    objects@,
                    final(rays)@,
                    j,
                    k,
                ),
    {
        let ghost rays0 = rays@;
        let ghost objs = objects@;
        let mut i: usize = lo;
        while i < hi
            invariant
                lo <= i <= hi <= objects@.len(),
                objs == objects@,
                part <= rays0.len(),
                rays@.len() == rays0.len(),
                tester.inv(),
                rays_ok(rays@),
                distinct_ids(rays@),
                all_agree(*tester, rays@),
                n@ > 0,
                objects_ok(objs, n@),
                hit_model_ok(objs),
                forall|j: int| 0 <= j < rays0.len() ==> advanced(objs, #[trigger] rays0[j], rays@[j]),
                forall|j: int, k: int|
                    0 <= j < rays0.len() && 0 <= k < objs.len() && settled_at(objs, rays0, j, k)
                        ==> #[trigger] settled_at(objs, rays@, j, k),
                forall|j: int, k: int|
                    0 <= j < part && lo <= k < i ==> #[trigger] settled_at(objs, rays@, j, k),
            decreases hi - i,
        {
            let ghost rays1 = rays@;
            assert(samples_ok(objs[i as int].spec_bounds(), n@));
            test_prefix(tester, &objects[i], rays, part);
            proof {
                let rays2 = rays@;
                assert forall|j: int| 0 <= j < rays0.len() implies advanced(
                    objs,
                    #[trigger] rays0[j],
                    rays2[j],
                ) by {
                    if j < part {
                        assert(tested(objs[i as int], rays1[j], rays2[j]));
                        lemma_tested_advances(objs, i as int, rays0[j], rays1[j], rays2[j]);
                    } else {
                        assert(rays2[j] == rays1[j]);
                    }
                }
                assert forall|j: int, k: int|
                    0 <= j < rays0.len() && 0 <= k < objs.len() && settled_at(
                        objs,
                        rays0,
                        j,
                        k,
                    ) implies #[trigger] settled_at(objs, rays2, j, k) by {
                    assert(settled_at(objs, rays1, j, k));
                    if j < part {
                        assert(tested(objs[i as int], rays1[j], rays2[j]));
                        assert(hit_depends_on_course(objs[k]));
                        lemma_tested_keeps_settled(objs[i as int], objs[k], rays1[j], rays2[j]);
                    } else {
                        assert(rays2[j] == rays1[j]);
                    }
                }
                assert forall|j: int, k: int|
                    0 <= j < part && lo <= k < i + 1 implies #[trigger] settled_at(
                    objs,
                    rays2,
                    j,
                    k,
                ) by {
                    assert(tested(objs[i as int], rays1[j], rays2[j]));
                    if k < i {
                        assert(settled_at(objs, rays1, j, k));
                        assert(hit_depends_on_course(objs[k]));
                        lemma_tested_keeps_settled(objs[i as int], objs[k], rays1[j], rays2[j]);
                    }
                }
            }
            i += 1;
        }
    }

    /// Tests the rays that have reached a leaf against its objects.
    fn visit_leaf<T: Intersectable, V: RayTester<T>>(
        &self,
        trav: &Traverser,
        rays: &mut [AccelRay],
        objects: &[T],
        tester: &mut V,
        leaf: (usize, usize, usize),
        first: Ghost<Seq<AccelRay>>,
    )
        requires
            self.wf_for(objects@),
            objects@.len() > 0,
            leaf.0 < leaf.1 <= objects@.len(),
            leaf.2 <= old(rays)@.len(),
            old(tester).inv(),
            rays_ok(old(rays)@),
            trav.accounts(
                self@,
                objects@.len() as int,
                old(rays)@,
                hit_rests(objects@),
                Some(leaf),
            ),
            descends(objects@, first@, old(rays)@),
            hit_model_ok(objects@),
            distinct_ids(old(rays)@),
            all_agree(*old(tester), old(rays)@),
        ensures
            final(tester).inv(),
            final(rays)@.len() == old(rays)@.len(),
            rays_ok(final(rays)@),
            distinct_ids(final(rays)@),
            all_agree(*final(tester), final(rays)@),
            trav.accounts(self@, objects@.len() as int, final(rays)@, hit_rests(objects@), None),
            descends(objects@, first@, final(rays)@),
    {
        let ghost objs = objects@;
        let ghost v = self@;
        let ghost rays2 = rays@;
        Self::test_leaf(
            rays,
            objects,
            tester,
            leaf.0,
            leaf.1,
            leaf.2,
            Ghost(objs[0].spec_bounds().len()),
        );
        proof {
            lemma_descends_advanced(objs, first@, rays2, rays@);
            Self::lemma_leaf_accounted(trav, v, objs, rays2, rays@, leaf);
        }
    }

    /// Once the rays that have reached a leaf are tested against its
    /// objects, the leaf is accounted for.
    proof fn lemma_leaf_accounted<T: Intersectable>(
        trav: &Traverser,
        v: BVHView,
        objs: Seq<T>,
        before: Seq<AccelRay>,
        after: Seq<AccelRay>,
        leaf: (usize, usize, usize),
    )
        requires
            after.len() == before.len(),
            trav.accounts(v, objs.len() as int, before, hit_rests(objs), Some(leaf)),
            forall|j: int, k: int|
                0 <= j < before.len() && 0 <= k < objs.len() && settled_at(objs, before, j, k)
                    ==> #[trigger] settled_at(objs, after, j, k),
            forall|j: int, k: int|
                0 <= j < leaf.2 && leaf.0 <= k < leaf.1 ==> #[trigger] settled_at(
                    objs,
                    after,
                    j,
                    k,
                ),
        ensures
            trav.accounts(v, objs.len() as int, after, hit_rests(objs), None),
    {
        assert forall|j: int, k: int|
            0 <= j < after.len() && 0 <= k < objs.len() implies #[trigger] trav.accounted(
            v,
            after,
            hit_rests(objs),
            None,
            j,
            k,
        ) by {
            assert(trav.accounted(v, before, hit_rests(objs), Some(leaf), j, k));
            if settled_at(objs, before, j, k) {
                assert(settled_at(objs, after, j, k));
            } else if j < leaf.2 && leaf.0 <= k < leaf.1 {
                assert(settled_at(objs, after, j, k));
            }
        }
    }

    /// Tests every ray of the batch against the objects that it may meet
    /// before the nearest hit it has found, and leaves the rays in some
    /// order with their reach drawn in to that hit.
    pub fn traverse<T: Intersectable, V: RayTester<T>>(
        &self,
        rays: &mut [AccelRay],
        objects: &[T],
        tester: &mut V,
    )
        requires
            self.wf_for(objects@),
            hit_model_ok(objects@),
            rays_ok(old(rays)@),
            distinct_ids(old(rays)@),
            old(tester).inv(),
            all_agree(*old(tester), old(rays)@),
        ensures
            final(tester).inv(),
            rays_ok(final(rays)@),
            distinct_ids(final(rays)@),
            all_agree(*final(tester), final(rays)@),
            descends(objects@, old(rays)@, final(rays)@),
            forall|j: int, k: int|
                0 <= j < final(rays)@.len() && 0 <= k < objects@.len() ==> #[trigger] settled_at(
                    objects@,
                    final(rays)@,
                    j,
                    k,
                ),
            old(rays)@.len() == 0 || self@.nodes.len() == 0 ==> final(rays)@ == old(rays)@
                && *final(tester) == *old(tester),
    {
        let ghost rays0 = rays@;
        let mut trav: Traverser = self.traverse_begin(rays, objects);
        proof {
            lemma_descends_refl(objects@, rays0);
        }
        loop
            invariant
                self.wf_for(objects@),
                hit_model_ok(objects@),
                rays0 == old(rays)@,
                trav.wf(self@, objects@, rays0.len() as int),
                rays@.len() == rays0.len(),
                rays_ok(rays@),
                trav.accounts(self@, objects@.len() as int, rays@, hit_rests(objects@), None),
                descends(objects@, rays0, rays@),
                tester.inv(),
                distinct_ids(rays@),
                all_agree(*tester, rays@),
                self@.nodes.len() == 0 ==> trav.sp() == 0,
                rays0.len() == 0 || self@.nodes.len() == 0 ==> rays@ == rays0 && *tester == *old(
                    tester,
                ),
            decreases trav.work(self@),
        {
            let ghost rays1 = rays@;
            proof {
                lemma_hit_rests_culls(objects@);
            }
            match self.traverse_next(&mut trav, rays, objects) {
                None => {
                    proof {
                        lemma_descends_permuted(objects@, rays0, rays1, rays@);
                        Self::lemma_walk_over(&trav, self@, objects@, rays@);
                        lemma_distinct_ids_permuted(rays1, rays@);
                        lemma_rearranged_all(rays1, rays@, |r: AccelRay| tester.agrees(r));
                    }
                    return ;
                },
                Some(leaf) => {
                    proof {
                        lemma_descends_permuted(objects@, rays0, rays1, rays@);
                        lemma_distinct_ids_permuted(rays1, rays@);
                        lemma_rearranged_all(rays1, rays@, |r: AccelRay| tester.agrees(r));
                    }
                    self.visit_leaf(&trav, rays, objects, tester, leaf, Ghost(rays0));
                },
            }
        }
    }

    /// When the walk is over, no ray has anything to gain from any object.
    proof fn lemma_walk_over<T: Intersectable>(
        trav: &Traverser,
        v: BVHView,
        objs: Seq<T>,
        rays: Seq<AccelRay>,
    )
        requires
            trav.sp() == 0,
            trav.accounts(v, objs.len() as int, rays, hit_rests(objs), None),
        ensures
            forall|j: int, k: int|
                0 <= j < rays.len() && 0 <= k < objs.len() ==> #[trigger] settled_at(
                    objs,
                    rays,
                    j,
                    k,
                ),
    {
        assert forall|j: int, k: int|
            0 <= j < rays.len() && 0 <= k < objs.len() implies #[trigger] settled_at(
            objs,
            rays,
            j,
            k,
        ) by {
            assert(trav.accounted(v, rays, hit_rests(objs), None, j, k));
        }
    }
}

} // verus!
