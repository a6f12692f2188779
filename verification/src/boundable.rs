use vstd::prelude::*;
use crate::bbox::BBox;

verus! {

/// Something that occupies space: it exposes one bounding box per time
/// sample, the samples spread evenly over the shutter interval.
pub trait Boundable {
    /// The bounding boxes, one per time sample.  An implementation that
    /// does not say what they are is taken to have none.
    open spec fn spec_bounds(&self) -> Seq<BBox> {
        Seq::empty()
    }

    fn bounds(&self) -> (r: &[BBox])
        ensures
            r@ == self.spec_bounds(),
    ;
}

/// Whether `b` is a list of `n` boxes on the lattice.
pub open spec fn samples_ok(b: Seq<BBox>, n: nat) -> bool {
    &&& b.len() == n
    &&& forall|k: int| 0 <= k < b.len() ==> (#[trigger] b[k]).wf()
}

/// Whether every object in `objs` has `n` bounding boxes on the lattice.
pub open spec fn objects_ok<T: Boundable>(objs: Seq<T>, n: nat) -> bool {
    forall|i: int| 0 <= i < objs.len() ==> samples_ok((#[trigger] objs[i]).spec_bounds(), n)
}

/// The box around the bounds at time sample `k` of the objects from `lo`
/// up to `hi`.
pub open spec fn union_range<T: Boundable>(objs: Seq<T>, lo: int, hi: int, k: int) -> BBox
    decreases hi - lo,
{
    if hi <= lo {
        BBox::spec_new()
    } else {
        union_range(objs, lo, hi - 1, k).spec_union(objs[hi - 1].spec_bounds()[k])
    }
}

/// The box around a range of objects is the box around the boxes of its
/// two parts, holds the box of each object in the range, and is on the
/// lattice.
pub proof fn lemma_union_range_split<T: Boundable>(
    objs: Seq<T>,
    lo: int,
    mid: int,
    hi: int,
    k: int,
    n: nat,
)
    requires
        0 <= lo <= mid <= hi <= objs.len(),
        objects_ok(objs, n),
        0 <= k < n,
    ensures
        union_range(objs, lo, hi, k) == union_range(objs, lo, mid, k).spec_union(
            union_range(objs, mid, hi, k),
        ),
        union_range(objs, lo, hi, k).wf(),
        forall|i: int|
            lo <= i < hi ==> union_range(objs, lo, hi, k).contains(
                (#[trigger] objs[i]).spec_bounds()[k],
            ),
    decreases hi - mid,
{
    lemma_union_range_wf(objs, lo, mid, k, n);
    if mid < hi {
        lemma_union_range_split(objs, lo, mid, hi - 1, k, n);
        lemma_union_range_wf(objs, lo, hi - 1, k, n);
        lemma_union_range_wf(objs, mid, hi - 1, k, n);
        let last = objs[hi - 1].spec_bounds()[k];
        assert(last.wf());
        crate::bbox::lemma_union_assoc(
            union_range(objs, lo, mid, k),
            union_range(objs, mid, hi - 1, k),
            last,
        );
        assert forall|i: int| lo <= i < hi implies union_range(objs, lo, hi, k).contains(
            (#[trigger] objs[i]).spec_bounds()[k],
        ) by {
            if i < hi - 1 {
                assert(union_range(objs, lo, hi - 1, k).contains(objs[i].spec_bounds()[k]));
            }
        }
    } else {
        crate::bbox::lemma_union_is_least(
            union_range(objs, lo, mid, k),
            BBox::spec_new(),
            BBox::spec_new(),
        );
        lemma_union_range_contains(objs, lo, hi, k, n);
    }
}

/// The box around a range of objects is on the lattice.
pub proof fn lemma_union_range_wf<T: Boundable>(objs: Seq<T>, lo: int, hi: int, k: int, n: nat)
    requires
        0 <= lo,
        hi <= objs.len(),
        objects_ok(objs, n),
        0 <= k < n,
    ensures
        union_range(objs, lo, hi, k).wf(),
    decreases hi - lo,
{
    if lo < hi {
        lemma_union_range_wf(objs, lo, hi - 1, k, n);
        assert(objs[hi - 1].spec_bounds()[k].wf());
    }
}

/// The box around a range of objects holds the box of each of them.
pub proof fn lemma_union_range_contains<T: Boundable>(
    objs: Seq<T>,
    lo: int,
    hi: int,
    k: int,
    n: nat,
)
    requires
        0 <= lo,
        hi <= objs.len(),
        objects_ok(objs, n),
        0 <= k < n,
    ensures
        forall|i: int|
            lo <= i < hi ==> union_range(objs, lo, hi, k).contains(
                (#[trigger] objs[i]).spec_bounds()[k],
            ),
    decreases hi - lo,
{
    if lo < hi {
        lemma_union_range_contains(objs, lo, hi - 1, k, n);
        assert forall|i: int| lo <= i < hi implies union_range(objs, lo, hi, k).contains(
            (#[trigger] objs[i]).spec_bounds()[k],
        ) by {
            if i < hi - 1 {
                assert(union_range(objs, lo, hi - 1, k).contains(objs[i].spec_bounds()[k]));
            }
        }
    }
}

/// The box around a range of objects looks only at the objects in it.
pub proof fn lemma_union_range_agrees<T: Boundable>(
    a: Seq<T>,
    b: Seq<T>,
    lo: int,
    hi: int,
    k: int,
)
    requires
        forall|i: int| lo <= i < hi ==> a[i] == b[i],
    ensures
        union_range(a, lo, hi, k) == union_range(b, lo, hi, k),
    decreases hi - lo,
{
    if lo < hi {
        lemma_union_range_agrees(a, b, lo, hi - 1, k);
    }
}

/// The box around a range of objects lies within every box on the lattice
/// that holds the box of each of them.
pub proof fn lemma_union_range_least<T: Boundable>(
    objs: Seq<T>,
    lo: int,
    hi: int,
    k: int,
    c: BBox,
)
    requires
        0 <= lo,
        hi <= objs.len(),
        c.wf(),
        forall|i: int| lo <= i < hi ==> c.contains((#[trigger] objs[i]).spec_bounds()[k]),
    ensures
        c.contains(union_range(objs, lo, hi, k)),
    decreases hi - lo,
{
    if lo < hi {
        lemma_union_range_least(objs, lo, hi - 1, k, c);
        assert(c.contains(objs[hi - 1].spec_bounds()[k]));
    }
}

/// The box around all objects does not depend on their order.
pub proof fn lemma_union_range_permuted<T: Boundable>(a: Seq<T>, b: Seq<T>, k: int, n: nat)
    requires
        a.to_multiset() == b.to_multiset(),
        objects_ok(a, n),
        0 <= k < n,
    ensures
        a.len() == b.len(),
        objects_ok(b, n),
        union_range(a, 0, a.len() as int, k) == union_range(b, 0, b.len() as int, k),
{
    a.to_multiset_ensures();
    b.to_multiset_ensures();
    assert forall|j: int| 0 <= j < b.len() implies samples_ok((#[trigger] b[j]).spec_bounds(), n) by {
        let x = b[j];
        assert(b.contains(x));
        vstd::seq_lib::to_multiset_contains(b, x);
        vstd::seq_lib::to_multiset_contains(a, x);
        let i = choose|i: int| 0 <= i < a.len() && a[i] == x;
        assert(samples_ok(a[i].spec_bounds(), n));
    }
    let ua = union_range(a, 0, a.len() as int, k);
    let ub = union_range(b, 0, b.len() as int, k);
    lemma_union_range_wf(a, 0, a.len() as int, k, n);
    lemma_union_range_wf(b, 0, b.len() as int, k, n);
    lemma_union_range_contains(a, 0, a.len() as int, k, n);
    lemma_union_range_contains(b, 0, b.len() as int, k, n);
    assert forall|j: int| 0 <= j < b.len() implies ua.contains(
        (#[trigger] b[j]).spec_bounds()[k],
    ) by {
        let x = b[j];
        assert(b.contains(x));
        vstd::seq_lib::to_multiset_contains(b, x);
        vstd::seq_lib::to_multiset_contains(a, x);
        let i = choose|i: int| 0 <= i < a.len() && a[i] == x;
        assert(ua.contains(a[i].spec_bounds()[k]));
    }
    assert forall|i: int| 0 <= i < a.len() implies ub.contains(
        (#[trigger] a[i]).spec_bounds()[k],
    ) by {
        let x = a[i];
        assert(a.contains(x));
        vstd::seq_lib::to_multiset_contains(b, x);
        vstd::seq_lib::to_multiset_contains(a, x);
        let j = choose|j: int| 0 <= j < b.len() && b[j] == x;
        assert(ub.contains(b[j].spec_bounds()[k]));
    }
    lemma_union_range_least(b, 0, b.len() as int, k, ua);
    lemma_union_range_least(a, 0, a.len() as int, k, ub);
}

/// Whether `objects` can be put into a hierarchy: if there are any, each
/// has as many bounding boxes as the first, at least one, all on the
/// lattice.
pub open spec fn spec_buildable<T: Boundable>(objs: Seq<T>) -> bool {
    objs.len() > 0 ==> objs[0].spec_bounds().len() > 0 && objects_ok(
        objs,
        objs[0].spec_bounds().len(),
    )
}

/// Whether `objects` can be put into a hierarchy.
pub fn buildable<T: Boundable>(objects: &[T]) -> (ok: bool)
    ensures
        ok == spec_buildable(objects@),
{
    if objects.len() == 0 {
        return true;
    }
    let n: usize = objects[0].bounds().len();
    if n == 0 {
        return false;
    }
    let mut i: usize = 0;
    while i < objects.len()
        invariant
            i <= objects@.len(),
            n == objects@[0].spec_bounds().len(),
            n > 0,
            forall|j: int| 0 <= j < i ==> samples_ok((#[trigger] objects@[j]).spec_bounds(), n as nat),
        decreases objects@.len() - i,
    {
        let b: &[BBox] = objects[i].bounds();
        if b.len() != n {
            assert(!samples_ok(objects@[i as int].spec_bounds(), n as nat));
            return false;
        }
        let mut k: usize = 0;
        while k < n
            invariant
                k <= n,
                b@.len() == n,
                b@ == objects@[i as int].spec_bounds(),
                i < objects@.len(),
                forall|t: int| 0 <= t < k ==> (#[trigger] b@[t]).wf(),
            decreases n - k,
        {
            if !(b[k].min.in_range() && b[k].max.in_range()) {
                assert(!b@[k as int].wf());
                assert(!samples_ok(objects@[i as int].spec_bounds(), n as nat));
                return false;
            }
            k += 1;
        }
        i += 1;
    }
    true
}

} // verus!
