use vstd::prelude::*;
use vstd::arithmetic::power2::{lemma_pow2_unfold, pow2};
use crate::algorithm::{
    lemma_count_agrees,
    lemma_partition_agrees,
    lemma_partition_properties,
    partition_range,
    pred_answers,
    pred_decides,
    pred_fn,
    spec_count,
    spec_partition,
};
use crate::bbox::BBox;
use crate::boundable::{lemma_union_range_agrees, lemma_union_range_permuted, lemma_union_range_split, objects_ok, samples_ok, spec_buildable, union_range, Boundable};
use crate::math::{lemma_log2_bound, log2_64, spec_log2};
use crate::sah::{
    combined_bounds,
    mid_bounds,
    sah_split,
    spec_below,
    spec_combined,
    spec_mid_bounds,
    spec_sah_split,
    spec_widest_axis,
    widest_axis,
    Split,
};

verus! {

/// The depth that no tree exceeds.
pub const BVH_MAX_DEPTH: usize = 64;

/// The number of bins that the surface area heuristic sorts centroids
/// into; the planes between them are the candidate splits.
pub const SAH_BIN_COUNT: usize = 13;

/// A node of the hierarchy.  The left child of an internal node is the node
/// that follows it.
#[derive(Clone, Copy, Debug)]
pub enum BVHNode {
    Internal { bounds_range: (usize, usize), second_child_index: usize, split_axis: u8 },
    Leaf { bounds_range: (usize, usize), object_range: (usize, usize) },
}

impl BVHNode {
    /// The range of the node's boxes in the bounds arena.
    pub open spec fn spec_bounds_range(self) -> (usize, usize) {
        match self {
            BVHNode::Internal { bounds_range, .. } => bounds_range,
            BVHNode::Leaf { bounds_range, .. } => bounds_range,
        }
    }

    pub fn bounds_range(&self) -> (r: (usize, usize))
        ensures
            r == self.spec_bounds_range(),
    {
        match self {
            BVHNode::Internal { bounds_range, .. } => *bounds_range,
            BVHNode::Leaf { bounds_range, .. } => *bounds_range,
        }
    }
}

/// A bounding volume hierarchy over a slice of objects, which it has put
/// into the order of its leaves.
#[derive(Debug)]
pub struct BVH {
    nodes: Vec<BVHNode>,
    bounds: Vec<BBox>,
    depth: usize,
    bounds_cache: Vec<BBox>,
}

/// What a hierarchy consists of.
pub struct BVHView {
    pub nodes: Seq<BVHNode>,
    pub bounds: Seq<BBox>,
    pub depth: nat,
}

impl View for BVH {
    type V = BVHView;

    closed spec fn view(&self) -> BVHView {
        BVHView { nodes: self.nodes@, bounds: self.bounds@, depth: self.depth as nat }
    }
}

impl BVHView {
    /// The boxes of node `i`, one per time sample.
    pub open spec fn node_bounds(self, i: int) -> Seq<BBox> {
        let r = self.nodes[i].spec_bounds_range();
        self.bounds.subrange(r.0 as int, r.1 as int)
    }

    /// The boxes of the root, one per time sample; none if there is no
    /// node.
    pub open spec fn root_bounds(self) -> Seq<BBox> {
        if self.nodes.len() == 0 {
            Seq::empty()
        } else {
            self.node_bounds(0)
        }
    }

    /// The first of the objects below node `i`.
    pub open spec fn object_lo(self, i: int) -> int
        decreases self.nodes.len() - i,
    {
        if 0 <= i < self.nodes.len() {
            match self.nodes[i] {
                BVHNode::Leaf { object_range, .. } => object_range.0 as int,
                BVHNode::Internal { .. } => self.object_lo(i + 1),
            }
        } else {
            0
        }
    }

    /// The end of the objects below node `i`.
    pub open spec fn object_hi(self, i: int) -> int
        decreases self.nodes.len() - i,
    {
        if 0 <= i < self.nodes.len() {
            match self.nodes[i] {
                BVHNode::Leaf { object_range, .. } => object_range.1 as int,
                BVHNode::Internal { second_child_index, .. } => if i < second_child_index
                    < self.nodes.len() {
                    self.object_hi(second_child_index as int)
                } else {
                    0
                },
            }
        } else {
            0
        }
    }

    /// The index behind the last node of the subtree of node `i`.
    pub open spec fn subtree_end(self, i: int) -> int
        decreases self.nodes.len() - i,
    {
        if 0 <= i < self.nodes.len() {
            match self.nodes[i] {
                BVHNode::Leaf { .. } => i + 1,
                BVHNode::Internal { second_child_index, .. } => if i < second_child_index
                    < self.nodes.len() {
                    self.subtree_end(second_child_index as int)
                } else {
                    i + 1
                },
            }
        } else {
            i + 1
        }
    }

    /// Whether the boxes of node `i` are `n` boxes of the arena, each the
    /// box around the bounds of the objects `lo` up to `hi` at its time
    /// sample.
    pub open spec fn node_bounds_ok<T: Boundable>(
        self,
        objs: Seq<T>,
        i: int,
        lo: int,
        hi: int,
        n: nat,
    ) -> bool {
        let r = self.nodes[i].spec_bounds_range();
        &&& r.0 + n == r.1
        &&& r.1 <= self.bounds.len()
        &&& forall|k: int|
            0 <= k < n ==> #[trigger] self.bounds[r.0 + k] == union_range(objs, lo, hi, k)
    }

    /// Whether the nodes from `i` on hold, in depth-first order, a tree over
    /// the objects `lo` up to `hi` whose root is `depth` levels below the
    /// root of the hierarchy: every leaf holds a range of objects, the
    /// ranges of the two children of an internal node split that of their
    /// parent, every node is bounded by the box around its objects at each
    /// time sample, no leaf lies deeper or holds more objects than `shape`
    /// allows.
    pub open spec fn subtree_ok<T: Boundable>(
        self,
        objs: Seq<T>,
        i: int,
        lo: int,
        hi: int,
        depth: nat,
        shape: Shape,
    ) -> bool
        decreases self.nodes.len() - i,
    {
        &&& 0 <= i < self.nodes.len()
        &&& 0 <= lo < hi <= objs.len()
        &&& self.node_bounds_ok(objs, i, lo, hi, shape.samples)
        &&& match self.nodes[i] {
            BVHNode::Leaf { object_range, .. } => {
                &&& object_range.0 == lo
                &&& object_range.1 == hi
                &&& depth <= shape.max_depth
                &&& hi - lo <= shape.leaf_size
            },
            BVHNode::Internal { second_child_index, split_axis, .. } => {
                let c = second_child_index as int;
                let mid = self.object_hi(i + 1);
                &&& split_axis < 3
                &&& i + 1 < c < self.nodes.len()
                &&& c == self.subtree_end(i + 1)
                &&& lo < mid < hi
                &&& self.subtree_ok(objs, i + 1, lo, mid, depth + 1, shape)
                &&& self.subtree_ok(objs, c, mid, hi, depth + 1, shape)
            },
        }
    }

    /// Whether this is a hierarchy over all of `objs` with at most
    /// `leaf_size` objects in a leaf: empty if there are no objects, and
    /// otherwise a tree whose root is node 0, whose nodes are all part of
    /// it, and whose depth is the recorded one and within bounds.
    pub open spec fn wf_with<T: Boundable>(self, objs: Seq<T>, leaf_size: nat) -> bool {
        if self.nodes.len() == 0 {
            objs.len() == 0
        } else {
            &&& objs.len() > 0
            &&& self.depth <= BVH_MAX_DEPTH
            &&& objs[0].spec_bounds().len() > 0
            &&& objects_ok(objs, objs[0].spec_bounds().len())
            &&& self.subtree_ok(
                objs,
                0,
                0,
                objs.len() as int,
                0,
                Shape {
                    samples: objs[0].spec_bounds().len(),
                    max_depth: self.depth,
                    leaf_size,
                },
            )
            &&& self.subtree_end(0) == self.nodes.len()
        }
    }

    /// Whether this is a hierarchy over all of `objs`.
    pub open spec fn wf_for<T: Boundable>(self, objs: Seq<T>) -> bool {
        self.wf_with(objs, objs.len())
    }
}

/// The limits that a tree keeps to.
pub struct Shape {
    /// The number of time samples of every node.
    pub samples: nat,
    /// The depth of the deepest leaf allowed.
    pub max_depth: nat,
    /// The largest number of objects in a leaf.
    pub leaf_size: nat,
}

/// A tree stays a tree when nodes and boxes are added behind it, when
/// objects outside its range change, and when its limits are relaxed.  Its
/// last node and its objects are where its root says.
pub proof fn lemma_subtree_frame<T: Boundable>(
    v1: BVHView,
    v2: BVHView,
    o1: Seq<T>,
    o2: Seq<T>,
    i: int,
    lo: int,
    hi: int,
    depth: nat,
    s1: Shape,
    s2: Shape,
)
    requires
        v1.subtree_ok(o1, i, lo, hi, depth, s1),
        v1.nodes.len() <= v2.nodes.len(),
        forall|j: int| i <= j < v1.nodes.len() ==> v2.nodes[j] == v1.nodes[j],
        v1.bounds.len() <= v2.bounds.len(),
        forall|j: int| 0 <= j < v1.bounds.len() ==> v2.bounds[j] == v1.bounds[j],
        o1.len() == o2.len(),
        forall|j: int| lo <= j < hi ==> o2[j] == o1[j],
        s1.samples == s2.samples,
        s1.max_depth <= s2.max_depth,
        s1.leaf_size <= s2.leaf_size,
    ensures
        v2.subtree_ok(o2, i, lo, hi, depth, s2),
        v2.subtree_end(i) == v1.subtree_end(i),
        i < v1.subtree_end(i) <= v1.nodes.len(),
        v2.object_hi(i) == hi,
        v1.object_hi(i) == hi,
        v2.object_lo(i) == lo,
        v1.object_lo(i) == lo,
    decreases v1.nodes.len() - i,
{
    let r = v1.nodes[i].spec_bounds_range();
    assert forall|k: int| 0 <= k < s1.samples implies #[trigger] v2.bounds[r.0 + k] == union_range(
        o2,
        lo,
        hi,
        k,
    ) by {
        assert(v1.bounds[r.0 + k] == union_range(o1, lo, hi, k));
        lemma_union_range_agrees(o1, o2, lo, hi, k);
    }
    match v1.nodes[i] {
        BVHNode::Leaf { .. } => {},
        BVHNode::Internal { second_child_index, .. } => {
            let c = second_child_index as int;
            let mid = v1.object_hi(i + 1);
            lemma_subtree_frame(v1, v2, o1, o2, i + 1, lo, mid, depth + 1, s1, s2);
            lemma_subtree_frame(v1, v2, o1, o2, c, mid, hi, depth + 1, s1, s2);
        },
    }
}

/// No leaf of a tree holds more objects than there are.
pub proof fn lemma_leaves_fit<T: Boundable>(
    v: BVHView,
    objs: Seq<T>,
    i: int,
    lo: int,
    hi: int,
    depth: nat,
    s1: Shape,
    s2: Shape,
)
    requires
        v.subtree_ok(objs, i, lo, hi, depth, s1),
        s1.samples == s2.samples,
        s1.max_depth == s2.max_depth,
        s2.leaf_size == objs.len(),
    ensures
        v.subtree_ok(objs, i, lo, hi, depth, s2),
    decreases v.nodes.len() - i,
{
    match v.nodes[i] {
        BVHNode::Leaf { .. } => {},
        BVHNode::Internal { second_child_index, .. } => {
            let c = second_child_index as int;
            let mid = v.object_hi(i + 1);
            lemma_leaves_fit(v, objs, i + 1, lo, mid, depth + 1, s1, s2);
            lemma_leaves_fit(v, objs, c, mid, hi, depth + 1, s1, s2);
        },
    }
}

/// Twice the coordinate along `axis` of the centre of `obj` in the middle of
/// the shutter interval.
pub open spec fn spec_centroid_key<T: Boundable>(obj: T, axis: int) -> int {
    spec_mid_bounds(obj).spec_centroid2(axis)
}

/// Twice the coordinate along `axis` of the centre of `obj` in the middle of
/// the shutter interval.
pub fn centroid_key<T: Boundable>(obj: &T, axis: usize) -> (c: i32)
    requires
        obj.spec_bounds().len() > 0,
        samples_ok(obj.spec_bounds(), obj.spec_bounds().len()),
        axis < 3,
    ensures
        c == spec_centroid_key(*obj, axis as int),
{
    mid_bounds(obj).centroid2(axis)
}

/// The keys of the objects from `lo` up to `hi`, in their order.
pub open spec fn range_keys<T: Boundable>(objs: Seq<T>, lo: int, hi: int, axis: int) -> Seq<int> {
    Seq::new((hi - lo) as nat, |i: int| spec_centroid_key(objs[lo + i], axis))
}

/// The order into which a stable sort puts elements with the given keys:
/// entry `i` is the former position of the element that ends up at `i`.
/// Keys and positions together order the elements strictly, so the order
/// is theirs alone.
pub open spec fn stable_order(keys: Seq<int>) -> Seq<int> {
    choose|order: Seq<int>| is_stable_order(keys, order)
}

/// The number of entries at the front of `order` whose keys are not above
/// `key`, where `order` lists positions by ascending key.
pub open spec fn spec_not_above(keys: Seq<int>, order: Seq<int>, key: int) -> int
    decreases order.len(),
{
    if order.len() == 0 {
        0
    } else if keys[order.last()] <= key {
        order.len() as int
    } else {
        spec_not_above(keys, order.drop_last(), key)
    }
}

/// In a list of positions by ascending key, the entries whose keys are
/// not above a given key stand in front of the others.
pub proof fn lemma_not_above(keys: Seq<int>, order: Seq<int>, key: int)
    requires
        forall|i: int| 0 <= i < order.len() ==> 0 <= #[trigger] order[i] < keys.len(),
        forall|i: int, j: int|
            0 <= i < j < order.len() ==> keys[#[trigger] order[i]] <= keys[#[trigger] order[j]],
    ensures
        0 <= spec_not_above(keys, order, key) <= order.len(),
        forall|i: int|
            0 <= i < spec_not_above(keys, order, key) ==> keys[#[trigger] order[i]] <= key,
        forall|i: int|
            spec_not_above(keys, order, key) <= i < order.len() ==> keys[#[trigger] order[i]] > key,
    decreases order.len(),
{
    if order.len() > 0 {
        let front = order.drop_last();
        if keys[order.last()] <= key {
            assert forall|i: int| 0 <= i < order.len() implies keys[#[trigger] order[i]] <= key by {
                if i < order.len() - 1 {
                    assert(keys[order[i]] <= keys[order[order.len() - 1]]);
                }
            }
        } else {
            assert forall|i: int, j: int| 0 <= i < j < front.len() implies keys[#[trigger] front[i]]
                <= keys[#[trigger] front[j]] by {
                assert(front[i] == order[i] && front[j] == order[j]);
            }
            assert forall|i: int| 0 <= i < front.len() implies 0 <= #[trigger] front[i]
                < keys.len() by {
                assert(front[i] == order[i]);
            }
            lemma_not_above(keys, front, key);
            let p = spec_not_above(keys, front, key);
            assert forall|i: int| 0 <= i < p implies keys[#[trigger] order[i]] <= key by {
                assert(front[i] == order[i]);
            }
            assert forall|i: int| p <= i < order.len() implies keys[#[trigger] order[i]] > key by {
                if i < front.len() {
                    assert(front[i] == order[i]);
                }
            }
        }
    }
}

/// Every list of keys has a stable order, which `stable_order` names.
pub proof fn lemma_stable_order_exists(keys: Seq<int>)
    ensures
        is_stable_order(keys, stable_order(keys)),
    decreases keys.len(),
{
    if keys.len() == 0 {
        assert(is_stable_order(keys, Seq::<int>::empty()));
    } else {
        let x = keys.len() - 1;
        let front = keys.drop_last();
        lemma_stable_order_exists(front);
        let o = stable_order(front);
        assert forall|i: int| 0 <= i < o.len() implies front[#[trigger] o[i]] == keys[o[i]] by {}
        assert forall|i: int, j: int| 0 <= i < j < o.len() implies keys[#[trigger] o[i]] <= keys[
        #[trigger] o[j]] by {
            assert(front[o[i]] == keys[o[i]]);
            assert(front[o[j]] == keys[o[j]]);
        }
        assert forall|i: int| 0 <= i < o.len() implies 0 <= #[trigger] o[i] < keys.len() by {}
        lemma_not_above(keys, o, keys[x]);
        let p = spec_not_above(keys, o, keys[x]);
        let order = o.subrange(0, p).push(x) + o.subrange(p, o.len() as int);
        assert forall|i: int| 0 <= i < order.len() implies 0 <= #[trigger] order[i]
            < keys.len() by {
            if i < p {
                assert(order[i] == o[i]);
            } else if i > p {
                assert(order[i] == o[i - 1]);
            }
        }
        assert forall|i: int, j: int| 0 <= i < j < order.len() implies keys[#[trigger] order[i]]
            < keys[#[trigger] order[j]] || (keys[order[i]] == keys[order[j]] && order[i]
            < order[j]) by {
            let a: int = if i < p {
                i
            } else {
                i - 1
            };
            let b: int = if j < p {
                j
            } else {
                j - 1
            };
            if i != p {
                assert(order[i] == o[a]);
                assert(front[o[a]] == keys[o[a]]);
            }
            if j != p {
                assert(order[j] == o[b]);
                assert(front[o[b]] == keys[o[b]]);
            }
            if i == p {
                assert(order[i] == x);
                assert(keys[o[b]] > keys[x]);
            } else if j == p {
                assert(order[j] == x);
                assert(keys[o[a]] <= keys[x]);
                assert(o[a] < x);
            } else {
                assert(a < b);
                assert(front[o[a]] < front[o[b]] || (front[o[a]] == front[o[b]] && o[a] < o[b]));
            }
        }
        assert(is_stable_order(keys, order));
    }
}

/// Whether `order` lists the positions of `keys` by ascending key, equal
/// keys by ascending position.
pub open spec fn is_stable_order(keys: Seq<int>, order: Seq<int>) -> bool {
    &&& order.len() == keys.len()
    &&& forall|i: int| 0 <= i < order.len() ==> 0 <= #[trigger] order[i] < keys.len()
    &&& forall|i: int, j: int|
        0 <= i < j < order.len() ==> keys[#[trigger] order[i]] < keys[#[trigger] order[j]] || (
        keys[order[i]] == keys[order[j]] && order[i] < order[j])
}

/// Sorts the objects from `lo` up to `hi` by their centroid along `axis`
/// with `<[T]>::sort_by_key`, which is stable: the objects end up in
/// ascending order of their keys, objects with equal keys in the order
/// they had, and nothing is added, lost or touched outside the range.
#[verifier::external_body]
fn sort_range_by_centroid<T: Boundable>(objects: &mut [T], lo: usize, hi: usize, axis: usize)
    requires
        lo <= hi <= old(objects)@.len(),
        axis < 3,
        forall|k: int|
            lo <= k < hi ==> (#[trigger] old(objects)@[k]).spec_bounds().len() > 0 && samples_ok(
                old(objects)@[k].spec_bounds(),
                old(objects)@[k].spec_bounds().len(),
            ),
    ensures
        final(objects)@.len() == old(objects)@.len(),
        forall|k: int|
            0 <= k < lo || hi <= k < old(objects)@.len() ==> #[trigger] final(objects)@[k] == old(
                objects,
            )@[k],
        forall|k: int|
            lo <= k < hi ==> #[trigger] final(objects)@[k] == old(objects)@[lo + stable_order(
                range_keys(old(objects)@, lo as int, hi as int, axis as int),
            )[k - lo]],
        final(objects)@.subrange(lo as int, hi as int).to_multiset() == old(objects)@.subrange(
            lo as int,
            hi as int,
        ).to_multiset(),
{
    objects[lo..hi].sort_by_key(|o| centroid_key(o, axis));
}

/// The bounds in the middle of the shutter interval of the objects from
/// `lo` up to `hi`.
pub open spec fn spec_mids<T: Boundable>(objs: Seq<T>, lo: int, hi: int) -> Seq<BBox> {
    Seq::new((hi - lo) as nat, |j: int| spec_mid_bounds(objs[lo + j]))
}

/// Whether the centre of an object lies below the plane of `split`.
pub open spec fn below_plane<T: Boundable>(split: Split) -> spec_fn(T) -> bool {
    |obj: T| spec_below(spec_mid_bounds(obj), split.axis as int, split.plane as int)
}

/// Whether a node with `len` objects at depth `depth` has room below it
/// for the splits of the surface area heuristic.
pub open spec fn spec_has_room(len: int, depth: nat) -> bool {
    spec_log2(len as nat) < BVH_MAX_DEPTH - depth
}

/// How a node over the objects from `lo` up to `hi` at depth `depth`
/// arranges them for its children: the objects after the split, the number
/// of objects that go to the left child, and the axis of the split.
///
/// While there is room below the node, the objects are partitioned by the
/// plane that the surface area heuristic chooses, and at least one object
/// goes to either side.  Without room, the objects are sorted by their
/// centres along the widest axis of their bounds and split in the middle.
#[verifier::opaque]
pub open spec fn spec_arrange<T: Boundable>(objs: Seq<T>, lo: int, hi: int, depth: nat) -> (
    Seq<T>,
    int,
    int,
) {
    let len = hi - lo;
    let mids = spec_mids(objs, lo, hi);
    if spec_has_room(len, depth) {
        let split = spec_sah_split(mids);
        let count = spec_count(objs, below_plane::<T>(split), lo, hi);
        (
            spec_partition(objs, below_plane::<T>(split), lo, hi),
            if count < 1 {
                1
            } else if count >= len {
                len - 1
            } else {
                count
            },
            split.axis as int,
        )
    } else {
        let axis = spec_widest_axis(spec_combined(mids, len));
        let order = stable_order(range_keys(objs, lo, hi, axis));
        (
            Seq::new(
                objs.len(),
                |k: int|
                    if lo <= k < hi {
                        objs[lo + order[k - lo]]
                    } else {
                        objs[k]
                    },
            ),
            len / 2,
            axis,
        )
    }
}

/// The hierarchy `st` and the objects `objs` after the tree over the
/// objects from `lo` up to `hi` has been built behind the nodes of `st`,
/// with its root at depth `depth`.
///
/// A range of at most `per_leaf` objects becomes a leaf, bounded at each of
/// the `samples` time samples by the box around its objects.  A longer
/// range becomes an internal node: its objects are arranged as
/// `spec_arrange` says, the left child is built from those in front and
/// the right child from the rest, and the node is bounded by the boxes
/// around the bounds of its children.
#[verifier::opaque]
pub open spec fn spec_build<T: Boundable>(
    st: BVHView,
    objs: Seq<T>,
    lo: int,
    hi: int,
    depth: nat,
    per_leaf: nat,
    samples: nat,
) -> (BVHView, Seq<T>)
    decreases hi - lo,
{
    let len = hi - lo;
    let me = st.nodes.len() as int;
    if len <= per_leaf || len < 2 {
        (
            BVHView {
                nodes: st.nodes.push(
                    BVHNode::Leaf {
                        bounds_range: (st.bounds.len() as usize, (st.bounds.len() + samples) as usize),
                        object_range: (lo as usize, hi as usize),
                    },
                ),
                bounds: st.bounds + Seq::new(samples, |k: int| union_range(objs, lo, hi, k)),
                depth: if st.depth < depth {
                    depth
                } else {
                    st.depth
                },
            },
            objs,
        )
    } else {
        let placeholder = BVHNode::Internal {
            bounds_range: (0, 0),
            second_child_index: 0,
            split_axis: 0,
        };
        let (arranged, raw, axis) = spec_arrange(objs, lo, hi, depth);
        let index = if raw < 1 {
            1
        } else if raw >= len {
            len - 1
        } else {
            raw
        };
        let mid = lo + index;
        let (st2, o2) = spec_build(
            BVHView { nodes: st.nodes.push(placeholder), ..st },
            arranged,
            lo,
            mid,
            depth + 1,
            per_leaf,
            samples,
        );
        let c2 = st2.nodes.len() as int;
        let (st3, o3) = spec_build(st2, o2, mid, hi, depth + 1, per_leaf, samples);
        let r1 = st3.nodes[me + 1].spec_bounds_range();
        let r2 = st3.nodes[c2].spec_bounds_range();
        (
            BVHView {
                nodes: st3.nodes.update(
                    me,
                    BVHNode::Internal {
                        bounds_range: (
                            st3.bounds.len() as usize,
                            (st3.bounds.len() + samples) as usize,
                        ),
                        second_child_index: c2 as usize,
                        split_axis: axis as u8,
                    },
                ),
                bounds: st3.bounds + Seq::new(
                    samples,
                    |k: int| st3.bounds[r1.0 + k].spec_union(st3.bounds[r2.0 + k]),
                ),
                depth: st3.depth,
            },
            o3,
        )
    }
}

/// The hierarchy over `objs` with at most `per_leaf` objects in a leaf,
/// and the objects in the order of its leaves, whatever the depth of the
/// tree.
pub open spec fn spec_hierarchy<T: Boundable>(objs: Seq<T>, per_leaf: nat) -> (BVHView, Seq<T>) {
    let empty = BVHView { nodes: Seq::empty(), bounds: Seq::empty(), depth: 0 };
    if objs.len() == 0 {
        (empty, objs)
    } else {
        spec_build(empty, objs, 0, objs.len() as int, 0, per_leaf, objs[0].spec_bounds().len())
    }
}

/// Objects that were rearranged within a range are as valid as before.
pub proof fn lemma_rearranged_ok<T: Boundable>(o1: Seq<T>, o2: Seq<T>, lo: int, hi: int, n: nat)
    requires
        0 <= lo <= hi <= o1.len(),
        o1.len() == o2.len(),
        forall|k: int| 0 <= k < lo || hi <= k < o1.len() ==> o2[k] == o1[k],
        o2.subrange(lo, hi).to_multiset() == o1.subrange(lo, hi).to_multiset(),
        objects_ok(o1, n),
    ensures
        objects_ok(o2, n),
{
    assert forall|i: int| 0 <= i < o2.len() implies samples_ok(
        (#[trigger] o2[i]).spec_bounds(),
        n,
    ) by {
        if lo <= i < hi {
            let x = o2[i];
            let r2 = o2.subrange(lo, hi);
            let r1 = o1.subrange(lo, hi);
            assert(r2.len() == hi - lo && r1.len() == hi - lo);
            assert(r2[i - lo] == x);
            assert(r2.contains(x));
            vstd::seq_lib::to_multiset_contains(r2, x);
            vstd::seq_lib::to_multiset_contains(r1, x);
            assert(r1.contains(x));
            let j = choose|j: int| 0 <= j < r1.len() && r1[j] == x;
            assert(o1[lo + j] == x);
        } else {
            assert(o2[i] == o1[i]);
        }
    }
}

/// The elements of a range are those of its two parts.
pub proof fn lemma_subrange_multiset_split<T>(s: Seq<T>, lo: int, mid: int, hi: int)
    requires
        0 <= lo <= mid <= hi <= s.len(),
    ensures
        s.subrange(lo, hi).to_multiset() == s.subrange(lo, mid).to_multiset().add(
            s.subrange(mid, hi).to_multiset(),
        ),
{
    assert(s.subrange(lo, hi) =~= s.subrange(lo, mid) + s.subrange(mid, hi));
    vstd::seq_lib::lemma_multiset_commutative(s.subrange(lo, mid), s.subrange(mid, hi));
}

/// The bounds in the middle of the shutter interval of the objects from
/// `lo` up to `hi`.
fn mid_bounds_of<T: Boundable>(objects: &[T], lo: usize, hi: usize, n: Ghost<nat>) -> (mids: Vec<
    BBox,
>)
    requires
        lo <= hi <= objects@.len(),
        n@ > 0,
        objects_ok(objects@, n@),
    ensures
        mids@.len() == hi - lo,
        forall|j: int| 0 <= j < hi - lo ==> #[trigger] mids@[j] == spec_mid_bounds(objects@[lo + j]),
        forall|j: int| 0 <= j < mids@.len() ==> (#[trigger] mids@[j]).wf(),
{
    let mut mids: Vec<BBox> = Vec::new();
    let mut i: usize = lo;
    while i < hi
        invariant
            lo <= i <= hi <= objects@.len(),
            n@ > 0,
            objects_ok(objects@, n@),
            mids@.len() == i - lo,
            forall|j: int|
                0 <= j < i - lo ==> #[trigger] mids@[j] == spec_mid_bounds(objects@[lo + j]),
            forall|j: int| 0 <= j < mids@.len() ==> (#[trigger] mids@[j]).wf(),
        decreases hi - i,
    {
        assert(samples_ok(objects@[i as int].spec_bounds(), n@));
        let b: BBox = mid_bounds(&objects[i]);
        mids.push(b);
        i += 1;
    }
    mids
}

impl BVH {
    /// Whether this is a hierarchy over all of `objs`.
    pub open spec fn wf_for<T: Boundable>(&self, objs: Seq<T>) -> bool {
        self@.wf_for(objs)
    }

    /// Whether this is a hierarchy over all of `objs` with at most
    /// `leaf_size` objects in a leaf.
    pub open spec fn wf_with<T: Boundable>(&self, objs: Seq<T>, leaf_size: nat) -> bool {
        self@.wf_with(objs, leaf_size)
    }

    /// The hierarchy over no objects.
    pub fn new_empty() -> (bvh: BVH)
        ensures
            bvh@.nodes.len() == 0,
            bvh@.bounds.len() == 0,
            bvh@.depth == 0,
    {
        BVH { nodes: Vec::new(), bounds: Vec::new(), depth: 0, bounds_cache: Vec::new() }
    }

    /// The depth of the deepest leaf; the root has depth zero.
    pub fn tree_depth(&self) -> (d: usize)
        ensures
            d == self@.depth,
    {
        self.depth
    }

    /// The number of nodes.
    pub fn node_count(&self) -> (n: usize)
        ensures
            n == self@.nodes.len(),
    {
        self.nodes.len()
    }

    /// Node number `i`.
    pub fn node(&self, i: usize) -> (node: BVHNode)
        requires
            i < self@.nodes.len(),
        ensures
            node == self@.nodes[i as int],
    {
        self.nodes[i]
    }

    /// The boxes in the range `r` of the bounds arena.
    pub fn bounds_slice(&self, r: (usize, usize)) -> (s: &[BBox])
        requires
            r.0 <= r.1 <= self@.bounds.len(),
        ensures
            s@ == self@.bounds.subrange(r.0 as int, r.1 as int),
    {
        vstd::slice::slice_subrange(self.bounds.as_slice(), r.0, r.1)
    }

    /// Collects in the scratch buffer, for each time sample, the box around
    /// the bounds of the objects `lo` up to `hi`.
    fn acc_bounds<T: Boundable>(&mut self, objects: &[T], lo: usize, hi: usize, n: Ghost<nat>)
        requires
            lo < hi <= objects@.len(),
            objects_ok(objects@, n@),
        ensures
            final(self).nodes == old(self).nodes,
            final(self).bounds == old(self).bounds,
            final(self).depth == old(self).depth,
            final(self).bounds_cache@.len() == n@,
            forall|k: int|
                0 <= k < n@ ==> #[trigger] final(self).bounds_cache@[k] == union_range(
                    objects@,
                    lo as int,
                    hi as int,
                    k,
                ),
    {
        self.bounds_cache.clear();
        let first: &[BBox] = objects[lo].bounds();
        assert(samples_ok(objects@[lo as int].spec_bounds(), n@));
        let mut k: usize = 0;
        while k < first.len()
            invariant
                k <= first@.len(),
                first@ == objects@[lo as int].spec_bounds(),
                samples_ok(first@, n@),
                self.nodes == old(self).nodes,
                self.bounds == old(self).bounds,
                self.depth == old(self).depth,
                self.bounds_cache@.len() == k,
                forall|j: int|
                    0 <= j < k ==> #[trigger] self.bounds_cache@[j] == union_range(
                        objects@,
                        lo as int,
                        lo + 1,
                        j,
                    ),
            decreases first@.len() - k,
        {
            proof {
                assert(first@[k as int].wf());
                assert(union_range(objects@, lo as int, lo as int, k as int) == BBox::spec_new());
                crate::bbox::lemma_union_is_least(first@[k as int], first@[k as int], first@[k as int]);
            }
            self.bounds_cache.push(first[k]);
            k += 1;
        }
        let mut i: usize = lo + 1;
        while i < hi
            invariant
                lo < i <= hi <= objects@.len(),
                objects_ok(objects@, n@),
                self.nodes == old(self).nodes,
                self.bounds == old(self).bounds,
                self.depth == old(self).depth,
                self.bounds_cache@.len() == n@,
                forall|j: int|
                    0 <= j < n@ ==> #[trigger] self.bounds_cache@[j] == union_range(
                        objects@,
                        lo as int,
                        i as int,
                        j,
                    ),
            decreases hi - i,
        {
            let bounds: &[BBox] = objects[i].bounds();
            assert(samples_ok(objects@[i as int].spec_bounds(), n@));
            let mut k: usize = 0;
            while k < bounds.len()
                invariant
                    k <= bounds@.len(),
                    bounds@.len() == n@,
                    bounds@ == objects@[i as int].spec_bounds(),
                    lo < i < hi,
                    self.nodes == old(self).nodes,
                    self.bounds == old(self).bounds,
                    self.depth == old(self).depth,
                    self.bounds_cache@.len() == n@,
                    forall|j: int|
                        0 <= j < k ==> #[trigger] self.bounds_cache@[j] == union_range(
                            objects@,
                            lo as int,
                            i + 1,
                            j,
                        ),
                    forall|j: int|
                        k <= j < n@ ==> #[trigger] self.bounds_cache@[j] == union_range(
                            objects@,
                            lo as int,
                            i as int,
                            j,
                        ),
                decreases bounds@.len() - k,
            {
                let merged: BBox = self.bounds_cache[k].union(&bounds[k]);
                self.bounds_cache[k] = merged;
                k += 1;
            }
            i += 1;
        }
    }

    /// Appends the boxes of the scratch buffer to the arena.
    fn push_cached_bounds(&mut self)
        ensures
            final(self).nodes == old(self).nodes,
            final(self).depth == old(self).depth,
            final(self).bounds_cache == old(self).bounds_cache,
            final(self).bounds@ == old(self).bounds@ + old(self).bounds_cache@,
    {
        let mut k: usize = 0;
        while k < self.bounds_cache.len()
            invariant
                k <= self.bounds_cache@.len(),
                self.nodes == old(self).nodes,
                self.depth == old(self).depth,
                self.bounds_cache == old(self).bounds_cache,
                self.bounds@ == old(self).bounds@ + old(self).bounds_cache@.subrange(0, k as int),
            decreases self.bounds_cache@.len() - k,
        {
            let b: BBox = self.bounds_cache[k];
            self.bounds.push(b);
            assert(self.bounds@ =~= old(self).bounds@ + old(self).bounds_cache@.subrange(
                0,
                k + 1,
            ));
            k += 1;
        }
        assert(old(self).bounds_cache@.subrange(0, k as int) =~= old(self).bounds_cache@);
    }

    /// Appends to the arena, for each time sample, the box around the boxes
    /// that two nodes have there.
    fn push_merged_bounds(&mut self, c1: (usize, usize), c2: (usize, usize), n: Ghost<nat>)
        requires
            c1.0 + n@ == c1.1,
            c2.0 + n@ == c2.1,
            c1.1 <= old(self).bounds@.len(),
            c2.1 <= old(self).bounds@.len(),
        ensures
            final(self).nodes == old(self).nodes,
            final(self).depth == old(self).depth,
            final(self).bounds@.len() == old(self).bounds@.len() + n@,
            forall|j: int|
                0 <= j < old(self).bounds@.len() ==> final(self).bounds@[j] == old(self).bounds@[j],
            forall|k: int|
                0 <= k < n@ ==> #[trigger] final(self).bounds@[old(self).bounds@.len() + k] == old(
                    self,
                ).bounds@[c1.0 + k].spec_union(old(self).bounds@[c2.0 + k]),
            final(self).bounds@ == old(self).bounds@ + Seq::new(
                n@,
                |k: int| old(self).bounds@[c1.0 + k].spec_union(old(self).bounds@[c2.0 + k]),
            ),
    {
        let len: usize = c1.1 - c1.0;
        let mut k: usize = 0;
        while k < len
            invariant
                k <= len,
                len == n@,
                c1.0 + n@ == c1.1,
                c2.0 + n@ == c2.1,
                c1.1 <= old(self).bounds@.len(),
                c2.1 <= old(self).bounds@.len(),
                self.nodes == old(self).nodes,
                self.depth == old(self).depth,
                self.bounds@.len() == old(self).bounds@.len() + k,
                forall|j: int|
                    0 <= j < old(self).bounds@.len() ==> self.bounds@[j] == old(self).bounds@[j],
                forall|j: int|
                    0 <= j < k ==> #[trigger] self.bounds@[old(self).bounds@.len() + j] == old(
                        self,
                    ).bounds@[c1.0 + j].spec_union(old(self).bounds@[c2.0 + j]),
            decreases len - k,
        {
            let a: BBox = self.bounds[c1.0 + k];
            let b: BBox = self.bounds[c2.0 + k];
            self.bounds.push(a.union(&b));
            k += 1;
        }
        proof {
            let added = Seq::new(
                n@,
                |k: int| old(self).bounds@[c1.0 + k].spec_union(old(self).bounds@[c2.0 + k]),
            );
            let whole = old(self).bounds@ + added;
            assert(self.bounds@.len() == whole.len());
            assert forall|j: int| 0 <= j < whole.len() implies self.bounds@[j] == whole[j] by {
                if j >= old(self).bounds@.len() {
                    let k = j - old(self).bounds@.len();
                    assert(self.bounds@[old(self).bounds@.len() + k] == added[k]);
                }
            }
            assert(self.bounds@ =~= whole);
        }
    }

    /// Adds a leaf over the objects from `lo` up to `hi` at depth `depth`.
    fn build_leaf<T: Boundable>(
        &mut self,
        objects: &[T],
        lo: usize,
        hi: usize,
        depth: usize,
        n: Ghost<nat>,
    ) -> (r: (usize, (usize, usize)))
        requires
            lo < hi <= objects@.len(),
            n@ > 0,
            objects_ok(objects@, n@),
        ensures
            ({
                let v0 = old(self)@;
                let v = final(self)@;
                let me = v0.nodes.len() as int;
                &&& r.0 == me
                &&& r.1 == v.nodes[me].spec_bounds_range()
                &&& r.1.0 == v0.bounds.len()
                &&& r.1.1 == v0.bounds.len() + n@
                &&& v.nodes == v0.nodes.push(
                    BVHNode::Leaf {
                        bounds_range: (
                            v0.bounds.len() as usize,
                            (v0.bounds.len() + n@) as usize,
                        ),
                        object_range: (lo, hi),
                    },
                )
                &&& v.bounds == v0.bounds + Seq::new(
                    n@,
                    |k: int| union_range(objects@, lo as int, hi as int, k),
                )
                &&& v.depth == if v0.depth < depth {
                    depth as nat
                } else {
                    v0.depth
                }
            }),
    {
        let me: usize = self.nodes.len();
        self.acc_bounds(objects, lo, hi, n);
        let bi: usize = self.bounds.len();
        self.push_cached_bounds();
        let end: usize = self.bounds.len();
        self.nodes.push(BVHNode::Leaf { bounds_range: (bi, end), object_range: (lo, hi) });
        if self.depth < depth {
            self.depth = depth;
        }
        proof {
            assert(self.bounds@ =~= old(self).bounds@ + Seq::new(
                n@,
                |k: int| union_range(objects@, lo as int, hi as int, k),
            ));
        }
        (me, (bi, end))
    }

    /// Arranges the objects from `lo` up to `hi` for the children of a node
    /// at depth `depth`, and returns the number of objects that go to the
    /// left child and the axis of the split.
    fn arrange<T: Boundable>(
        objects: &mut [T],
        lo: usize,
        hi: usize,
        depth: usize,
        n: Ghost<nat>,
    ) -> (r: (usize, usize))
        requires
            lo + 2 <= hi <= old(objects)@.len(),
            n@ > 0,
            objects_ok(old(objects)@, n@),
            depth <= BVH_MAX_DEPTH,
            hi - lo <= pow2((BVH_MAX_DEPTH + 1 - depth) as nat),
        ensures
            (final(objects)@, r.0 as int, r.1 as int) == spec_arrange(
                old(objects)@,
                lo as int,
                hi as int,
                depth as nat,
            ),
            1 <= r.0 <= hi - lo - 1,
            r.1 < 3,
            r.0 <= pow2((BVH_MAX_DEPTH - depth) as nat),
            hi - lo - r.0 <= pow2((BVH_MAX_DEPTH - depth) as nat),
            final(objects)@.len() == old(objects)@.len(),
            forall|k: int|
                0 <= k < lo || hi <= k < old(objects)@.len() ==> final(objects)@[k] == old(
                    objects,
                )@[k],
            final(objects)@.subrange(lo as int, hi as int).to_multiset() == old(objects)@.subrange(
                lo as int,
                hi as int,
            ).to_multiset(),
            objects_ok(final(objects)@, n@),
    {
        let len: usize = hi - lo;
        let ghost o0 = objects@;
        proof {
            reveal(spec_arrange);
            vstd::arithmetic::power2::lemma2_to64();
            lemma_pow2_unfold((BVH_MAX_DEPTH + 1 - depth) as nat);
        }
        let mids: Vec<BBox> = mid_bounds_of(objects, lo, hi, n);
        assert(mids@ =~= spec_mids(o0, lo as int, hi as int));
        let split_index: usize;
        let split_axis: usize;
        if log2_64(len as u64) < (BVH_MAX_DEPTH - depth) as u64 {
            let split: Split = sah_split(&mids);
            let axis: usize = split.axis;
            let plane: i64 = split.plane;
            let pred = |obj: &T| -> (r: bool)
                requires
                    obj.spec_bounds().len() > 0,
                    samples_ok(obj.spec_bounds(), obj.spec_bounds().len()),
                    axis < 3,
                ensures
                    r == spec_below(spec_mid_bounds(*obj), axis as int, plane as int),
                {
                    let tb: BBox = mid_bounds(obj);
                    13 * (tb.centroid2(axis) as i64) < plane
                };
            proof {
                assert forall|k: int| lo <= k < hi implies pred_decides(
                    pred,
                    #[trigger] objects@[k],
                ) by {
                    assert(samples_ok(objects@[k].spec_bounds(), n@));
                }
                lemma_log2_bound(len as nat, (BVH_MAX_DEPTH - depth) as nat);
            }
            let count: usize = partition_range(objects, lo, hi, pred);
            proof {
                let p = below_plane::<T>(split);
                assert forall|k: int| lo <= k < hi implies pred_fn(pred)(#[trigger] o0[k]) == p(
                    o0[k],
                ) by {
                    assert(pred_answers(pred, o0[k]));
                }
                lemma_partition_agrees(o0, pred_fn(pred), p, lo as int, hi as int);
                lemma_count_agrees(o0, o0, pred_fn(pred), p, lo as int, hi as int);
                lemma_partition_properties(o0, p, lo as int, hi as int);
            }
            split_index = if count < 1 {
                1
            } else if count >= len {
                len - 1
            } else {
                count
            };
            split_axis = axis;
        } else {
            let bounds: BBox = combined_bounds(&mids);
            let axis: usize = widest_axis(&bounds);
            proof {
                assert forall|k: int| lo <= k < hi implies (#[trigger] objects@[k]).spec_bounds().len()
                    > 0 && samples_ok(
                    objects@[k].spec_bounds(),
                    objects@[k].spec_bounds().len(),
                ) by {
                    assert(samples_ok(objects@[k].spec_bounds(), n@));
                }
            }
            sort_range_by_centroid(objects, lo, hi, axis);
            split_index = len / 2;
            split_axis = axis;
            proof {
                let order = stable_order(range_keys(o0, lo as int, hi as int, axis as int));
                assert(objects@ =~= Seq::new(
                    o0.len(),
                    |k: int|
                        if lo <= k < hi {
                            o0[lo + order[k - lo]]
                        } else {
                            o0[k]
                        },
                ));
            }
        }
        proof {
            lemma_rearranged_ok(o0, objects@, lo as int, hi as int, n@);
        }
        (split_index, split_axis)
    }

    /// Turns the placeholder at `me` into the internal node above the two
    /// trees that were built behind it.
    fn finish_internal(
        &mut self,
        me: usize,
        c1: (usize, usize),
        c2_index: usize,
        c2: (usize, usize),
        split_axis: usize,
        n: Ghost<nat>,
    ) -> (r: (usize, (usize, usize)))
        requires
            me + 1 < c2_index < old(self)@.nodes.len(),
            c1 == old(self)@.nodes[me + 1].spec_bounds_range(),
            c2 == old(self)@.nodes[c2_index as int].spec_bounds_range(),
            c1.0 + n@ == c1.1,
            c2.0 + n@ == c2.1,
            c1.1 <= old(self)@.bounds.len(),
            c2.1 <= old(self)@.bounds.len(),
            split_axis < 3,
        ensures
            ({
                let v0 = old(self)@;
                let v = final(self)@;
                &&& r.0 == me
                &&& r.1 == v.nodes[me as int].spec_bounds_range()
                &&& r.1.0 == v0.bounds.len()
                &&& r.1.1 == v0.bounds.len() + n@
                &&& v.nodes == v0.nodes.update(
                    me as int,
                    BVHNode::Internal {
                        bounds_range: (
                            v0.bounds.len() as usize,
                            (v0.bounds.len() + n@) as usize,
                        ),
                        second_child_index: c2_index,
                        split_axis: split_axis as u8,
                    },
                )
                &&& v.bounds == v0.bounds + Seq::new(
                    n@,
                    |k: int| v0.bounds[c1.0 + k].spec_union(v0.bounds[c2.0 + k]),
                )
                &&& v.depth == v0.depth
            }),
    {
        let bi: usize = self.bounds.len();
        self.push_merged_bounds(c1, c2, n);
        let end: usize = self.bounds.len();
        self.nodes[me] = BVHNode::Internal {
            bounds_range: (bi, end),
            second_child_index: c2_index,
            split_axis: split_axis as u8,
        };
        (me, (bi, end))
    }

    /// Builds the tree over the objects from `lo` up to `hi` behind the
    /// nodes that exist, and returns the index of its root and the range
    /// of the root's boxes.
    fn recursive_build<T: Boundable>(
        &mut self,
        objects: &mut [T],
        lo: usize,
        hi: usize,
        depth: usize,
        objects_per_leaf: usize,
        n: Ghost<nat>,
    ) -> (r: (usize, (usize, usize)))
        requires
            lo < hi <= old(objects)@.len(),
            objects_per_leaf >= 1,
            n@ > 0,
            objects_ok(old(objects)@, n@),
            depth <= BVH_MAX_DEPTH + 1,
            objects_per_leaf >= 2 ==> depth <= BVH_MAX_DEPTH,
            hi - lo <= pow2((BVH_MAX_DEPTH + 1 - depth) as nat),
        ensures
            ({
                let v0 = old(self)@;
                let v = final(self)@;
                let me = v0.nodes.len() as int;
                let shape = Shape {
                    samples: n@,
                    max_depth: v.depth,
                    leaf_size: objects_per_leaf as nat,
                };
                &&& r.0 == me
                &&& v.nodes.len() > me
                &&& r.1 == v.nodes[me].spec_bounds_range()
                &&& forall|j: int| 0 <= j < me ==> v.nodes[j] == v0.nodes[j]
                &&& v.bounds.len() >= v0.bounds.len()
                &&& forall|j: int| 0 <= j < v0.bounds.len() ==> v.bounds[j] == v0.bounds[j]
                &&& v.subtree_ok(final(objects)@, me, lo as int, hi as int, depth as nat, shape)
                &&& v.subtree_end(me) == v.nodes.len()
                &&& v0.depth <= v.depth
                &&& v.depth <= v0.depth || v.depth <= BVH_MAX_DEPTH + 1
                &&& v.depth <= v0.depth || v.depth <= depth + (hi - lo) - 1
                &&& objects_per_leaf >= 2 ==> v.depth <= v0.depth || v.depth <= BVH_MAX_DEPTH
            }),
            (final(self)@, final(objects)@) == spec_build(
                old(self)@,
                old(objects)@,
                lo as int,
                hi as int,
                depth as nat,
                objects_per_leaf as nat,
                n@,
            ),
            final(objects)@.len() == old(objects)@.len(),
            forall|k: int|
                0 <= k < lo || hi <= k < old(objects)@.len() ==> final(objects)@[k] == old(
                    objects,
                )@[k],
            final(objects)@.subrange(lo as int, hi as int).to_multiset() == old(objects)@.subrange(
                lo as int,
                hi as int,
            ).to_multiset(),
            objects_ok(final(objects)@, n@),
        decreases hi - lo,
    {
        let me: usize = self.nodes.len();
        let len: usize = hi - lo;
        let ghost o0 = objects@;
        let ghost v0 = self@;
        if len <= objects_per_leaf {
            let r = self.build_leaf(objects, lo, hi, depth, n);
            proof {
                if depth == BVH_MAX_DEPTH + 1 {
                    vstd::arithmetic::power2::lemma2_to64();
                }
                Self::lemma_leaf_built(
                    v0,
                    self@,
                    o0,
                    lo as int,
                    hi as int,
                    depth as nat,
                    objects_per_leaf as nat,
                    n@,
                );
                assert(o0.subrange(lo as int, hi as int) =~= objects@.subrange(
                    lo as int,
                    hi as int,
                ));
                Self::lemma_build_leaf(
                    v0,
                    self@,
                    o0,
                    lo as int,
                    hi as int,
                    depth as nat,
                    objects_per_leaf as nat,
                    n@,
                );
            }
            r
        } else {
            proof {
                vstd::arithmetic::power2::lemma2_to64();
                lemma_pow2_unfold((BVH_MAX_DEPTH + 1 - depth) as nat);
                if objects_per_leaf >= 2 && depth == BVH_MAX_DEPTH {
                    assert(pow2(1) == 2);
                }
            }
            assert(depth <= BVH_MAX_DEPTH);
            assert(objects_per_leaf >= 2 ==> depth < BVH_MAX_DEPTH);
            self.nodes.push(
                BVHNode::Internal { bounds_range: (0, 0), second_child_index: 0, split_axis: 0 },
            );
            let (split_index, split_axis) = Self::arrange(objects, lo, hi, depth, n);
            let mid: usize = lo + split_index;
            let ghost op = objects@;
            let ghost vp = self@;
            let (_, c1) = self.recursive_build(objects, lo, mid, depth + 1, objects_per_leaf, n);
            let ghost oa = objects@;
            let ghost va = self@;
            let (c2_index, c2) = self.recursive_build(
                objects,
                mid,
                hi,
                depth + 1,
                objects_per_leaf,
                n,
            );
            let ghost ob = objects@;
            let ghost vb = self@;
            proof {
                let sa = Shape {
                    samples: n@,
                    max_depth: va.depth,
                    leaf_size: objects_per_leaf as nat,
                };
                let sb = Shape {
                    samples: n@,
                    max_depth: vb.depth,
                    leaf_size: objects_per_leaf as nat,
                };
                lemma_subtree_frame(va, vb, oa, ob, me + 1, lo as int, mid as int, (depth
                    + 1) as nat, sa, sb);
                assert(c1 == vb.nodes[me + 1].spec_bounds_range());
            }
            let r = self.finish_internal(me, c1, c2_index, c2, split_axis, n);
            proof {
                Self::lemma_build_internal(
                    v0,
                    vp,
                    va,
                    vb,
                    self@,
                    o0,
                    op,
                    oa,
                    ob,
                    lo as int,
                    hi as int,
                    split_index as int,
                    split_axis as int,
                    depth as nat,
                    objects_per_leaf as nat,
                    n@,
                );
                Self::lemma_internal_built(
                    va,
                    vb,
                    self@,
                    op,
                    oa,
                    ob,
                    me as int,
                    lo as int,
                    mid as int,
                    hi as int,
                    depth as nat,
                    objects_per_leaf as nat,
                    n@,
                );
            }
            r
        }
    }

    /// What building a leaf comes to.
    proof fn lemma_build_leaf<T: Boundable>(
        v0: BVHView,
        v: BVHView,
        objs: Seq<T>,
        lo: int,
        hi: int,
        depth: nat,
        per_leaf: nat,
        n: nat,
    )
        requires
            hi - lo <= per_leaf,
            v.nodes == v0.nodes.push(
                BVHNode::Leaf {
                    bounds_range: (v0.bounds.len() as usize, (v0.bounds.len() + n) as usize),
                    object_range: (lo as usize, hi as usize),
                },
            ),
            v.bounds == v0.bounds + Seq::new(n, |k: int| union_range(objs, lo, hi, k)),
            v.depth == if v0.depth < depth {
                depth
            } else {
                v0.depth
            },
        ensures
            (v, objs) == spec_build(v0, objs, lo, hi, depth, per_leaf, n),
    {
        reveal(spec_build);
    }

    /// What building an internal node comes to.
    proof fn lemma_build_internal<T: Boundable>(
        v0: BVHView,
        vp: BVHView,
        va: BVHView,
        vb: BVHView,
        v: BVHView,
        o0: Seq<T>,
        op: Seq<T>,
        oa: Seq<T>,
        ob: Seq<T>,
        lo: int,
        hi: int,
        index: int,
        axis: int,
        depth: nat,
        per_leaf: nat,
        n: nat,
    )
        requires
            hi - lo > per_leaf,
            hi - lo >= 2,
            1 <= index <= hi - lo - 1,
            0 <= axis < 3,
            (op, index, axis) == spec_arrange(o0, lo, hi, depth),
            vp == (BVHView {
                nodes: v0.nodes.push(
                    BVHNode::Internal {
                        bounds_range: (0, 0),
                        second_child_index: 0,
                        split_axis: 0,
                    },
                ),
                ..v0
            }),
            (va, oa) == spec_build(vp, op, lo, lo + index, depth + 1, per_leaf, n),
            (vb, ob) == spec_build(va, oa, lo + index, hi, depth + 1, per_leaf, n),
            va.nodes.len() <= usize::MAX,
            v.nodes == vb.nodes.update(
                v0.nodes.len() as int,
                BVHNode::Internal {
                    bounds_range: (vb.bounds.len() as usize, (vb.bounds.len() + n) as usize),
                    second_child_index: va.nodes.len() as usize,
                    split_axis: axis as u8,
                },
            ),
            v.bounds == vb.bounds + Seq::new(
                n,
                |k: int|
                    vb.bounds[vb.nodes[v0.nodes.len() as int + 1].spec_bounds_range().0 + k].spec_union(
                        vb.bounds[vb.nodes[va.nodes.len() as int].spec_bounds_range().0 + k],
                    ),
            ),
            v.depth == vb.depth,
        ensures
            (v, ob) == spec_build(v0, o0, lo, hi, depth, per_leaf, n),
    {
        reveal(spec_build);
    }

    /// A leaf added behind the nodes that exist is a tree over its objects.
    proof fn lemma_leaf_built<T: Boundable>(
        v0: BVHView,
        v: BVHView,
        objs: Seq<T>,
        lo: int,
        hi: int,
        depth: nat,
        per_leaf: nat,
        n: nat,
    )
        requires
            0 <= lo < hi <= objs.len(),
            hi <= usize::MAX,
            v0.bounds.len() + n <= usize::MAX,
            hi - lo <= per_leaf,
            v.nodes == v0.nodes.push(
                BVHNode::Leaf {
                    bounds_range: (v0.bounds.len() as usize, (v0.bounds.len() + n) as usize),
                    object_range: (lo as usize, hi as usize),
                },
            ),
            v.bounds == v0.bounds + Seq::new(n, |k: int| union_range(objs, lo, hi, k)),
            v.depth == if v0.depth < depth {
                depth
            } else {
                v0.depth
            },
        ensures
            v.subtree_ok(
                objs,
                v0.nodes.len() as int,
                lo,
                hi,
                depth,
                Shape { samples: n, max_depth: v.depth, leaf_size: per_leaf },
            ),
            v.subtree_end(v0.nodes.len() as int) == v.nodes.len(),
            forall|j: int| 0 <= j < v0.nodes.len() ==> v.nodes[j] == v0.nodes[j],
            forall|j: int| 0 <= j < v0.bounds.len() ==> v.bounds[j] == v0.bounds[j],
    {
        let me = v0.nodes.len() as int;
        let bi = v0.bounds.len() as int;
        let added = Seq::new(n, |k: int| union_range(objs, lo, hi, k));
        assert forall|k: int| 0 <= k < n implies #[trigger] v.bounds[bi + k] == union_range(
            objs,
            lo,
            hi,
            k,
        ) by {
            assert(v.bounds[bi + k] == added[k]);
        }
    }

    /// An internal node above two trees that were built behind it, one
    /// after the other, is the root of a tree over the objects of both.
    proof fn lemma_internal_built<T: Boundable>(
        va: BVHView,
        vb: BVHView,
        v: BVHView,
        op: Seq<T>,
        oa: Seq<T>,
        ob: Seq<T>,
        me: int,
        lo: int,
        mid: int,
        hi: int,
        depth: nat,
        per_leaf: nat,
        n: nat,
    )
        requires
            0 <= me,
            0 <= lo < mid < hi <= op.len(),
            op.len() == oa.len() == ob.len(),
            n > 0,
            objects_ok(ob, n),
            me + 1 < va.nodes.len() < vb.nodes.len(),
            va.subtree_ok(
                oa,
                me + 1,
                lo,
                mid,
                depth + 1,
                Shape { samples: n, max_depth: va.depth, leaf_size: per_leaf },
            ),
            va.subtree_end(me + 1) == va.nodes.len(),
            vb.subtree_ok(
                ob,
                va.nodes.len() as int,
                mid,
                hi,
                depth + 1,
                Shape { samples: n, max_depth: vb.depth, leaf_size: per_leaf },
            ),
            vb.subtree_end(va.nodes.len() as int) == vb.nodes.len(),
            forall|j: int| 0 <= j < va.nodes.len() ==> vb.nodes[j] == va.nodes[j],
            va.bounds.len() <= vb.bounds.len(),
            forall|j: int| 0 <= j < va.bounds.len() ==> vb.bounds[j] == va.bounds[j],
            va.depth <= vb.depth,
            forall|k: int| 0 <= k < lo || mid <= k < op.len() ==> oa[k] == op[k],
            forall|k: int| 0 <= k < mid || hi <= k < op.len() ==> ob[k] == oa[k],
            oa.subrange(lo, mid).to_multiset() == op.subrange(lo, mid).to_multiset(),
            ob.subrange(mid, hi).to_multiset() == oa.subrange(mid, hi).to_multiset(),
            v.depth == vb.depth,
            v.nodes.len() == vb.nodes.len(),
            forall|j: int| 0 <= j < vb.nodes.len() && j != me ==> v.nodes[j] == vb.nodes[j],
            v.nodes[me] is Internal,
            v.nodes[me]->second_child_index == va.nodes.len(),
            v.nodes[me]->split_axis < 3,
            v.nodes[me].spec_bounds_range().0 == vb.bounds.len(),
            v.nodes[me].spec_bounds_range().1 == vb.bounds.len() + n,
            v.bounds == vb.bounds + Seq::new(
                n,
                |k: int|
                    vb.bounds[vb.nodes[me + 1].spec_bounds_range().0 + k].spec_union(
                        vb.bounds[vb.nodes[va.nodes.len() as int].spec_bounds_range().0 + k],
                    ),
            ),
        ensures
            v.subtree_ok(
                ob,
                me,
                lo,
                hi,
                depth,
                Shape { samples: n, max_depth: v.depth, leaf_size: per_leaf },
            ),
            v.subtree_end(me) == v.nodes.len(),
            ob.subrange(lo, hi).to_multiset() == op.subrange(lo, hi).to_multiset(),
    {
        let c = va.nodes.len() as int;
        let sa = Shape { samples: n, max_depth: va.depth, leaf_size: per_leaf };
        let sb = Shape { samples: n, max_depth: vb.depth, leaf_size: per_leaf };
        let sc = Shape { samples: n, max_depth: v.depth, leaf_size: per_leaf };
        lemma_subtree_frame(va, vb, oa, ob, me + 1, lo, mid, depth + 1, sa, sb);
        lemma_subtree_frame(va, v, oa, ob, me + 1, lo, mid, depth + 1, sa, sc);
        lemma_subtree_frame(vb, v, ob, ob, c, mid, hi, depth + 1, sb, sc);
        let r1 = vb.nodes[me + 1].spec_bounds_range();
        let r2 = vb.nodes[c].spec_bounds_range();
        let bi = vb.bounds.len() as int;
        assert forall|k: int| 0 <= k < n implies #[trigger] v.bounds[bi + k] == union_range(
            ob,
            lo,
            hi,
            k,
        ) by {
            assert(vb.bounds[r1.0 + k] == union_range(ob, lo, mid, k));
            assert(vb.bounds[r2.0 + k] == union_range(ob, mid, hi, k));
            lemma_union_range_split(ob, lo, mid, hi, k, n);
        }
        lemma_subrange_multiset_split(op, lo, mid, hi);
        lemma_subrange_multiset_split(ob, lo, mid, hi);
        assert(ob.subrange(lo, mid) =~= oa.subrange(lo, mid));
        assert(oa.subrange(mid, hi) =~= op.subrange(mid, hi));
    }

    /// Builds the hierarchy over `objects`, which it rearranges so that
    /// every leaf holds a run of at most `objects_per_leaf` of them.
    /// Returns `None` if the tree would be deeper than `BVH_MAX_DEPTH`.
    pub fn from_objects<T: Boundable>(objects: &mut [T], objects_per_leaf: usize) -> (r: Option<
        BVH,
    >)
        requires
            objects_per_leaf >= 1,
            spec_buildable(old(objects)@),
        ensures
            final(objects)@.to_multiset() == old(objects)@.to_multiset(),
            spec_buildable(final(objects)@),
            r.is_some() ==> r.unwrap().wf_with(final(objects)@, objects_per_leaf as nat),
            r.is_some() ==> r.unwrap().wf_for(final(objects)@),
            r.is_some() ==> r.unwrap()@.depth <= BVH_MAX_DEPTH,
            r.is_some() ==> (r.unwrap()@.nodes.len() == 0 <==> old(objects)@.len() == 0),
            r.is_some() && old(objects)@.len() > 0 ==> r.unwrap()@.root_bounds() == Seq::new(
                old(objects)@[0].spec_bounds().len(),
                |k: int| union_range(old(objects)@, 0, old(objects)@.len() as int, k),
            ),
            objects_per_leaf >= 2 || old(objects)@.len() <= BVH_MAX_DEPTH + 1 ==> r.is_some(),
            final(objects)@ == spec_hierarchy(old(objects)@, objects_per_leaf as nat).1,
            r.is_some() <==> spec_hierarchy(old(objects)@, objects_per_leaf as nat).0.depth
                <= BVH_MAX_DEPTH,
            r.is_some() ==> r.unwrap()@ == spec_hierarchy(
                old(objects)@,
                objects_per_leaf as nat,
            ).0,
    {
        let mut bvh = BVH::new_empty();
        let len: usize = objects.len();
        assert(bvh@.nodes =~= Seq::empty() && bvh@.bounds =~= Seq::empty());
        if len == 0 {
            return Some(bvh);
        }
        let ghost o0 = objects@;
        let ghost n = o0[0].spec_bounds().len();
        proof {
            vstd::arithmetic::power2::lemma2_to64();
            lemma_pow2_unfold(65);
            assert(o0.subrange(0, len as int) =~= o0);
        }
        bvh.recursive_build(objects, 0, len, 0, objects_per_leaf, Ghost(n));
        bvh.bounds_cache.clear();
        proof {
            assert(objects@.subrange(0, len as int) =~= objects@);
            assert(samples_ok(objects@[0].spec_bounds(), n));
            let v = bvh@;
            let s1 = Shape { samples: n, max_depth: v.depth, leaf_size: objects_per_leaf as nat };
            let s2 = Shape { samples: n, max_depth: v.depth, leaf_size: objects@.len() };
            if objects_per_leaf as nat <= objects@.len() {
                lemma_subtree_frame(v, v, objects@, objects@, 0, 0, len as int, 0, s1, s2);
            } else {
                lemma_subtree_frame(v, v, objects@, objects@, 0, 0, len as int, 0, s1, s1);
                lemma_leaves_fit(v, objects@, 0, 0, len as int, 0, s1, s2);
            }
        }
        proof {
            let v = bvh@;
            let root = v.root_bounds();
            let expected = Seq::new(n, |k: int| union_range(o0, 0, o0.len() as int, k));
            assert(root.len() == n);
            assert forall|k: int| 0 <= k < n implies root[k] == expected[k] by {
                let r = v.nodes[0].spec_bounds_range();
                assert(root[k] == v.bounds[r.0 + k]);
                lemma_union_range_permuted(o0, objects@, k, n);
            }
            assert(root =~= expected);
        }
        if bvh.depth > BVH_MAX_DEPTH {
            None
        } else {
            Some(bvh)
        }
    }
}

impl Boundable for BVH {
    /// The bounds of a hierarchy are those of its root.
    closed spec fn spec_bounds(&self) -> Seq<BBox> {
        if self.nodes@.len() > 0 && self.nodes@[0].spec_bounds_range().0
            <= self.nodes@[0].spec_bounds_range().1 <= self.bounds@.len() {
            self@.root_bounds()
        } else {
            Seq::empty()
        }
    }

    fn bounds(&self) -> (r: &[BBox]) {
        if self.nodes.len() == 0 {
            return vstd::slice::slice_subrange(self.bounds.as_slice(), 0, 0);
        }
        let range: (usize, usize) = self.nodes[0].bounds_range();
        if range.0 <= range.1 && range.1 <= self.bounds.len() {
            vstd::slice::slice_subrange(self.bounds.as_slice(), range.0, range.1)
        } else {
            vstd::slice::slice_subrange(self.bounds.as_slice(), 0, 0)
        }
    }
}

impl BVH {
    /// The bounds of a hierarchy over some objects are the boxes around the
    /// bounds of all of them.
    pub proof fn lemma_bounds_of_hierarchy<T: Boundable>(&self, objs: Seq<T>)
        requires
            self.wf_for(objs),
            objs.len() > 0,
        ensures
            self.spec_bounds() == self@.root_bounds(),
            self.spec_bounds() == Seq::new(
                objs[0].spec_bounds().len(),
                |k: int| union_range(objs, 0, objs.len() as int, k),
            ),
    {
        let v = self@;
        let n = objs[0].spec_bounds().len();
        let r = v.nodes[0].spec_bounds_range();
        let expected = Seq::new(n, |k: int| union_range(objs, 0, objs.len() as int, k));
        assert(v.root_bounds().len() == n);
        assert forall|k: int| 0 <= k < n implies v.root_bounds()[k] == expected[k] by {
            assert(v.root_bounds()[k] == v.bounds[r.0 + k]);
        }
        assert(v.root_bounds() =~= expected);
    }
}

/// The depth of node `j` in the tree whose root `i` has depth `depth`.
pub open spec fn spec_node_depth(v: BVHView, i: int, j: int, depth: nat) -> nat
    decreases v.nodes.len() - i,
{
    if 0 <= i < v.nodes.len() && i < j {
        match v.nodes[i] {
            BVHNode::Leaf { .. } => depth,
            BVHNode::Internal { second_child_index, .. } => if i < second_child_index
                < v.nodes.len() {
                if j < second_child_index {
                    spec_node_depth(v, i + 1, j, depth + 1)
                } else {
                    spec_node_depth(v, second_child_index as int, j, depth + 1)
                }
            } else {
                depth
            },
        }
    } else {
        depth
    }
}

/// Every node of a tree is the root of a tree over the objects below it.
pub proof fn lemma_node_is_subtree<T: Boundable>(
    v: BVHView,
    objs: Seq<T>,
    i: int,
    lo: int,
    hi: int,
    depth: nat,
    shape: Shape,
    j: int,
)
    requires
        v.subtree_ok(objs, i, lo, hi, depth, shape),
        i <= j < v.subtree_end(i),
    ensures
        v.subtree_ok(
            objs,
            j,
            v.object_lo(j),
            v.object_hi(j),
            spec_node_depth(v, i, j, depth),
            shape,
        ),
        lo <= v.object_lo(j) < v.object_hi(j) <= hi,
    decreases v.nodes.len() - i,
{
    lemma_subtree_frame(v, v, objs, objs, i, lo, hi, depth, shape, shape);
    if i < j {
        match v.nodes[i] {
            BVHNode::Leaf { .. } => {},
            BVHNode::Internal { second_child_index, .. } => {
                let c = second_child_index as int;
                let mid = v.object_hi(i + 1);
                lemma_subtree_frame(v, v, objs, objs, i + 1, lo, mid, depth + 1, shape, shape);
                lemma_subtree_frame(v, v, objs, objs, c, mid, hi, depth + 1, shape, shape);
                if j < c {
                    lemma_node_is_subtree(v, objs, i + 1, lo, mid, depth + 1, shape, j);
                } else {
                    lemma_node_is_subtree(v, objs, c, mid, hi, depth + 1, shape, j);
                }
            },
        }
    }
}

/// In a hierarchy over some objects, the bounds of every internal node
/// hold the bounds of both its children at every time sample, and are the
/// smallest boxes that do.
pub proof fn lemma_node_bounds_hold_children<T: Boundable>(v: BVHView, objs: Seq<T>, j: int)
    requires
        v.wf_for(objs),
        0 <= j < v.nodes.len(),
        v.nodes[j] is Internal,
    ensures
        ({
            let c = v.nodes[j]->second_child_index as int;
            &&& j + 1 < c < v.nodes.len()
            &&& v.node_bounds(j).len() == v.node_bounds(j + 1).len() == v.node_bounds(c).len()
            &&& forall|t: int|
                0 <= t < v.node_bounds(j).len() ==> (#[trigger] v.node_bounds(j)[t]).contains(
                    v.node_bounds(j + 1)[t],
                ) && v.node_bounds(j)[t].contains(v.node_bounds(c)[t]) && v.node_bounds(j)[t]
                    == v.node_bounds(j + 1)[t].spec_union(v.node_bounds(c)[t])
        }),
{
    let n = objs[0].spec_bounds().len();
    let shape = Shape { samples: n, max_depth: v.depth, leaf_size: objs.len() };
    lemma_node_is_subtree(v, objs, 0, 0, objs.len() as int, 0, shape, j);
    let lo = v.object_lo(j);
    let hi = v.object_hi(j);
    let c = v.nodes[j]->second_child_index as int;
    let mid = v.object_hi(j + 1);
    let d = spec_node_depth(v, 0, j, 0);
    lemma_subtree_frame(v, v, objs, objs, j + 1, lo, mid, d + 1, shape, shape);
    lemma_subtree_frame(v, v, objs, objs, c, mid, hi, d + 1, shape, shape);
    assert forall|t: int| 0 <= t < v.node_bounds(j).len() implies (#[trigger] v.node_bounds(
        j,
    )[t]).contains(v.node_bounds(j + 1)[t]) && v.node_bounds(j)[t].contains(v.node_bounds(c)[t])
        && v.node_bounds(j)[t] == v.node_bounds(j + 1)[t].spec_union(v.node_bounds(c)[t]) by {
        let rj = v.nodes[j].spec_bounds_range();
        let rl = v.nodes[j + 1].spec_bounds_range();
        let rc = v.nodes[c].spec_bounds_range();
        assert(v.node_bounds(j)[t] == v.bounds[rj.0 + t]);
        assert(v.node_bounds(j + 1)[t] == v.bounds[rl.0 + t]);
        assert(v.node_bounds(c)[t] == v.bounds[rc.0 + t]);
        lemma_union_range_split(objs, lo, mid, hi, t, n);
        crate::bbox::lemma_union_is_least(
            union_range(objs, lo, mid, t),
            union_range(objs, mid, hi, t),
            union_range(objs, lo, hi, t),
        );
    }
}

/// In a hierarchy over some objects, no node lies deeper than the depth
/// of the tree, which is at most `BVH_MAX_DEPTH`.
pub proof fn lemma_depth_within_bounds<T: Boundable>(v: BVHView, objs: Seq<T>, j: int)
    requires
        v.wf_for(objs),
        0 <= j < v.nodes.len(),
    ensures
        spec_node_depth(v, 0, j, 0) <= v.depth <= BVH_MAX_DEPTH,
{
    let n = objs[0].spec_bounds().len();
    let shape = Shape { samples: n, max_depth: v.depth, leaf_size: objs.len() };
    lemma_node_is_subtree(v, objs, 0, 0, objs.len() as int, 0, shape, j);
    crate::traverse::lemma_depth_bound(
        v,
        objs,
        j,
        v.object_lo(j),
        v.object_hi(j),
        spec_node_depth(v, 0, j, 0),
        shape,
    );
}

/// Building is a function of the objects and of the leaf size: the same
/// objects in the same order give the same nodes, the same bounds, the
/// same depth and the same order of the objects.
pub proof fn lemma_same_objects_same_hierarchy<T: Boundable>(
    first: Seq<T>,
    second: Seq<T>,
    per_leaf: nat,
)
    requires
        first == second,
    ensures
        spec_hierarchy(first, per_leaf).0.nodes == spec_hierarchy(second, per_leaf).0.nodes,
        spec_hierarchy(first, per_leaf).0.bounds == spec_hierarchy(second, per_leaf).0.bounds,
        spec_hierarchy(first, per_leaf).0.depth == spec_hierarchy(second, per_leaf).0.depth,
        spec_hierarchy(first, per_leaf).1 == spec_hierarchy(second, per_leaf).1,
{
}

} // verus!
