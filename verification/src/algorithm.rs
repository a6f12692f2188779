use vstd::prelude::*;

verus! {

/// `<[T]>::swap` exchanges the elements at `a` and `b` and leaves the rest
/// of the slice alone.  It panics when an index is out of bounds, which the
/// precondition rules out.
pub assume_specification<Item>[ <[Item]>::swap ](slice: &mut [Item], a: usize, b: usize)
    requires
        a < old(slice)@.len(),
        b < old(slice)@.len(),
    ensures
        final(slice)@ == spec_swap(old(slice)@, a as int, b as int),
;

/// The sequence `s` with the elements at `a` and `b` exchanged.
pub open spec fn spec_swap<T>(s: Seq<T>, a: int, b: int) -> Seq<T> {
    s.update(a, s[b]).update(b, s[a])
}

/// What the predicate `pred` answers for `x`.
pub open spec fn pred_holds<T, F: Fn(&T) -> bool>(pred: F, x: T) -> bool {
    call_ensures(pred, (&x,), true)
}

/// Whether `pred` may be asked about `x` and has one answer for it.
pub open spec fn pred_decides<T, F: Fn(&T) -> bool>(pred: F, x: T) -> bool {
    &&& call_requires(pred, (&x,))
    &&& forall|r: bool| call_ensures(pred, (&x,), r) ==> r == pred_holds(pred, x)
}

/// Whether `pred` gives for `x` the answer that it is known by.
pub open spec fn pred_answers<T, F: Fn(&T) -> bool>(pred: F, x: T) -> bool {
    call_ensures(pred, (&x,), pred_holds(pred, x))
}

/// The predicate that `pred` computes.
pub open spec fn pred_fn<T, F: Fn(&T) -> bool>(pred: F) -> spec_fn(T) -> bool {
    |x: T| pred_holds(pred, x)
}

/// The arrangement in which partitioning leaves the elements of `s` between
/// `lo` and `hi`: elements that satisfy `p` stay in front, elements that
/// fail it stay at the back, and a failing element in front trades places
/// with the last satisfying element behind it.
pub open spec fn spec_partition<T>(s: Seq<T>, p: spec_fn(T) -> bool, lo: int, hi: int) -> Seq<T>
    decreases hi - lo,
{
    if lo >= hi {
        s
    } else if p(s[lo]) {
        spec_partition(s, p, lo + 1, hi)
    } else if !p(s[hi - 1]) {
        spec_partition(s, p, lo, hi - 1)
    } else {
        spec_partition(spec_swap(s, lo, hi - 1), p, lo + 1, hi - 1)
    }
}

/// The number of elements of `s` between `lo` and `hi` that satisfy `p`.
pub open spec fn spec_count<T>(s: Seq<T>, p: spec_fn(T) -> bool, lo: int, hi: int) -> int
    decreases hi - lo,
{
    if lo >= hi {
        0
    } else {
        spec_count(s, p, lo, hi - 1) + if p(s[hi - 1]) {
            1int
        } else {
            0int
        }
    }
}

/// Exchanging two elements keeps the elements, counted with repetition.
pub proof fn lemma_swap_permutes<T>(s: Seq<T>, a: int, b: int)
    requires
        0 <= a < s.len(),
        0 <= b < s.len(),
    ensures
        spec_swap(s, a, b).to_multiset() == s.to_multiset(),
        spec_swap(s, a, b).len() == s.len(),
{
    broadcast use vstd::seq_lib::to_multiset_update;

    let s1 = s.update(a, s[b]);
    assert(s1.to_multiset() == s.to_multiset().insert(s[b]).remove(s[a]));
    assert(s1.update(b, s[a]).to_multiset() == s1.to_multiset().insert(s[a]).remove(s1[b]));
    s.to_multiset_ensures();
    assert(s.to_multiset().count(s[a]) > 0 && s.to_multiset().count(s[b]) > 0) by {
        assert(s.contains(s[a]));
        assert(s.contains(s[b]));
    }
    assert(spec_swap(s, a, b).to_multiset() =~= s.to_multiset());
}

/// Counting splits at any point of the range.
pub proof fn lemma_count_split<T>(s: Seq<T>, p: spec_fn(T) -> bool, lo: int, mid: int, hi: int)
    requires
        lo <= mid <= hi,
    ensures
        spec_count(s, p, lo, hi) == spec_count(s, p, lo, mid) + spec_count(s, p, mid, hi),
    decreases hi - mid,
{
    if mid < hi {
        lemma_count_split(s, p, lo, mid, hi - 1);
    }
}

/// Counting looks only at the elements of its range, and at what the
/// predicate says of them.
pub proof fn lemma_count_agrees<T>(
    s1: Seq<T>,
    s2: Seq<T>,
    p: spec_fn(T) -> bool,
    q: spec_fn(T) -> bool,
    lo: int,
    hi: int,
)
    requires
        forall|k: int| lo <= k < hi ==> s1[k] == s2[k],
        forall|k: int| lo <= k < hi ==> p(#[trigger] s1[k]) == q(s1[k]),
    ensures
        spec_count(s1, p, lo, hi) == spec_count(s2, q, lo, hi),
    decreases hi - lo,
{
    if lo < hi {
        lemma_count_agrees(s1, s2, p, q, lo, hi - 1);
    }
}

/// Partitioning looks only at what the predicate says of the elements in
/// its range.
pub proof fn lemma_partition_agrees<T>(
    s: Seq<T>,
    p: spec_fn(T) -> bool,
    q: spec_fn(T) -> bool,
    lo: int,
    hi: int,
)
    requires
        0 <= lo <= hi <= s.len(),
        forall|k: int| lo <= k < hi ==> p(#[trigger] s[k]) == q(s[k]),
    ensures
        spec_partition(s, p, lo, hi) == spec_partition(s, q, lo, hi),
    decreases hi - lo,
{
    if lo >= hi {
    } else if p(s[lo]) {
        lemma_partition_agrees(s, p, q, lo + 1, hi);
    } else if !p(s[hi - 1]) {
        lemma_partition_agrees(s, p, q, lo, hi - 1);
    } else {
        let t = spec_swap(s, lo, hi - 1);
        assert forall|k: int| lo + 1 <= k < hi - 1 implies p(#[trigger] t[k]) == q(t[k]) by {
            assert(t[k] == s[k]);
        }
        lemma_partition_agrees(t, p, q, lo + 1, hi - 1);
    }
}

/// What partitioning achieves: it permutes the sequence, touches nothing
/// outside the range, and within the range puts the elements that satisfy
/// the predicate, as many as there are, before those that fail it.
pub proof fn lemma_partition_properties<T>(s: Seq<T>, p: spec_fn(T) -> bool, lo: int, hi: int)
    requires
        0 <= lo <= hi <= s.len(),
    ensures
        ({
            let r = spec_partition(s, p, lo, hi);
            let n = spec_count(s, p, lo, hi);
            &&& r.len() == s.len()
            &&& r.to_multiset() == s.to_multiset()
            &&& 0 <= n <= hi - lo
            &&& forall|k: int| 0 <= k < lo || hi <= k < s.len() ==> r[k] == s[k]
            &&& forall|k: int| lo <= k < lo + n ==> p(#[trigger] r[k])
            &&& forall|k: int| lo + n <= k < hi ==> !p(#[trigger] r[k])
            &&& r.subrange(lo, hi).to_multiset() == s.subrange(lo, hi).to_multiset()
        }),
    decreases hi - lo,
{
    let r = spec_partition(s, p, lo, hi);
    if lo >= hi {
        assert(s.subrange(lo, hi) =~= r.subrange(lo, hi));
    } else if p(s[lo]) {
        lemma_partition_properties(s, p, lo + 1, hi);
        lemma_count_split(s, p, lo, lo + 1, hi);
        assert(spec_count(s, p, lo, lo) == 0);
        assert(spec_count(s, p, lo, lo + 1) == 1);
        assert(r.subrange(lo, hi) =~= seq![s[lo]] + r.subrange(lo + 1, hi));
        assert(s.subrange(lo, hi) =~= seq![s[lo]] + s.subrange(lo + 1, hi));
        vstd::seq_lib::lemma_multiset_commutative(seq![s[lo]], r.subrange(lo + 1, hi));
        vstd::seq_lib::lemma_multiset_commutative(seq![s[lo]], s.subrange(lo + 1, hi));
    } else if !p(s[hi - 1]) {
        lemma_partition_properties(s, p, lo, hi - 1);
        assert(r.subrange(lo, hi) =~= r.subrange(lo, hi - 1) + seq![s[hi - 1]]);
        assert(s.subrange(lo, hi) =~= s.subrange(lo, hi - 1) + seq![s[hi - 1]]);
        vstd::seq_lib::lemma_multiset_commutative(r.subrange(lo, hi - 1), seq![s[hi - 1]]);
        vstd::seq_lib::lemma_multiset_commutative(s.subrange(lo, hi - 1), seq![s[hi - 1]]);
    } else {
        let t = spec_swap(s, lo, hi - 1);
        lemma_swap_permutes(s, lo, hi - 1);
        lemma_partition_properties(t, p, lo + 1, hi - 1);
        lemma_count_split(s, p, lo, lo + 1, hi);
        lemma_count_agrees(s, t, p, p, lo + 1, hi - 1);
        assert(spec_count(s, p, lo, lo) == 0);
        assert(spec_count(s, p, lo, lo + 1) == 0);
        assert(spec_count(s, p, lo + 1, hi) == spec_count(s, p, lo + 1, hi - 1) + 1);
        let n = spec_count(t, p, lo + 1, hi - 1);
        assert(r[lo] == t[lo]);
        assert(r[hi - 1] == t[hi - 1]);
        assert forall|k: int| lo <= k < lo + n + 1 implies p(#[trigger] r[k]) by {
            if k > lo {
                assert(p(r[k]));
            }
        }
        let rm = r.subrange(lo + 1, hi - 1);
        let sm = s.subrange(lo + 1, hi - 1);
        assert(t.subrange(lo + 1, hi - 1) =~= sm);
        assert(r.subrange(lo, hi) =~= (seq![s[hi - 1]] + rm) + seq![s[lo]]);
        assert(s.subrange(lo, hi) =~= (seq![s[lo]] + sm) + seq![s[hi - 1]]);
        vstd::seq_lib::lemma_multiset_commutative(seq![s[hi - 1]] + rm, seq![s[lo]]);
        vstd::seq_lib::lemma_multiset_commutative(seq![s[hi - 1]], rm);
        vstd::seq_lib::lemma_multiset_commutative(seq![s[lo]] + sm, seq![s[hi - 1]]);
        vstd::seq_lib::lemma_multiset_commutative(seq![s[lo]], sm);
        assert(r.subrange(lo, hi).to_multiset() =~= s.subrange(lo, hi).to_multiset());
    }
}

/// Rearranges the elements of `slc` from `lo` up to `hi` so that those
/// satisfying `pred` come first, and returns how many there are.
pub fn partition_range<T, F: Fn(&T) -> bool>(slc: &mut [T], lo: usize, hi: usize, pred: F) -> (n:
    usize)
    requires
        lo <= hi <= old(slc)@.len(),
        forall|k: int| lo <= k < hi ==> pred_decides(pred, #[trigger] old(slc)@[k]),
    ensures
        final(slc)@ == spec_partition(old(slc)@, pred_fn(pred), lo as int, hi as int),
        n == spec_count(old(slc)@, pred_fn(pred), lo as int, hi as int),
        final(slc)@.len() == old(slc)@.len(),
        n <= hi - lo,
        forall|k: int| lo <= k < hi ==> pred_answers(pred, #[trigger] final(slc)@[k]),
        forall|k: int| lo <= k < hi ==> pred_answers(pred, #[trigger] old(slc)@[k]),
{
    let ghost s0 = slc@;
    let ghost p = pred_fn(pred);
    proof {
        lemma_partition_properties(s0, p, lo as int, hi as int);
    }
    let mut a: usize = lo;
    let mut b: usize = hi;
    while a < b
        invariant
            lo <= a <= b <= hi <= s0.len(),
            slc@.len() == s0.len(),
            p == pred_fn(pred),
            spec_partition(slc@, p, a as int, b as int) == spec_partition(
                s0,
                p,
                lo as int,
                hi as int,
            ),
            forall|k: int| a <= k < b ==> pred_decides(pred, #[trigger] slc@[k]),
            forall|k: int| lo <= k < a || b <= k < hi ==> pred_answers(pred, #[trigger] slc@[k]),
            (a - lo) + spec_count(slc@, p, a as int, b as int) == spec_count(
                s0,
                p,
                lo as int,
                hi as int,
            ),
        decreases b - a,
    {
        let ghost s1 = slc@;
        assert(pred_decides(pred, slc@[a as int]));
        assert(pred_decides(pred, slc@[b - 1]));
        if pred(&slc[a]) {
            proof {
                assert(p(s1[a as int]));
                lemma_count_split(s1, p, a as int, a + 1, b as int);
                assert(spec_count(s1, p, a as int, a as int) == 0);
                assert(spec_count(s1, p, a as int, a + 1) == 1);
            }
            a += 1;
        } else if !pred(&slc[b - 1]) {
            assert(!p(s1[b - 1]));
            b -= 1;
        } else {
            assert(!p(s1[a as int]));
            assert(p(s1[b - 1]));
            slc.swap(a, b - 1);
            proof {
                lemma_count_split(s1, p, a as int, a + 1, b as int);
                lemma_count_agrees(s1, slc@, p, p, a + 1, b - 1);
                assert(spec_count(s1, p, a as int, a as int) == 0);
                assert(spec_count(s1, p, a as int, a + 1) == 0);
                assert forall|k: int| a + 1 <= k < b - 1 implies pred_decides(
                    pred,
                    #[trigger] slc@[k],
                ) by {
                    assert(slc@[k] == s1[k]);
                }
                assert forall|k: int| lo <= k < a + 1 || b - 1 <= k < hi implies pred_answers(
                    pred,
                    #[trigger] slc@[k],
                ) by {
                    if k == a {
                        assert(slc@[k] == s1[b - 1]);
                    } else if k == b - 1 {
                        assert(slc@[k] == s1[a as int]);
                    } else {
                        assert(slc@[k] == s1[k]);
                    }
                }
            }
            a += 1;
            b -= 1;
        }
    }
    proof {
        let s2 = slc@;
        assert forall|k: int| lo <= k < hi implies pred_answers(pred, #[trigger] s0[k]) by {
            let x = s0[k];
            let r0 = s0.subrange(lo as int, hi as int);
            let r2 = s2.subrange(lo as int, hi as int);
            assert(r0[k - lo] == x);
            assert(r0.contains(x));
            vstd::seq_lib::to_multiset_contains(r0, x);
            vstd::seq_lib::to_multiset_contains(r2, x);
            let w = choose|w: int| 0 <= w < r2.len() && r2[w] == x;
            assert(s2[lo + w] == x);
        }
    }
    a - lo
}

/// Rearranges `slc` so that the elements satisfying `pred` come first, and
/// returns how many there are.
pub fn partition<T, F: Fn(&T) -> bool>(slc: &mut [T], pred: F) -> (n: usize)
    requires
        forall|k: int| 0 <= k < old(slc)@.len() ==> pred_decides(pred, #[trigger] old(slc)@[k]),
    ensures
        final(slc)@ == spec_partition(old(slc)@, pred_fn(pred), 0, old(slc)@.len() as int),
        n == spec_count(old(slc)@, pred_fn(pred), 0, old(slc)@.len() as int),
        final(slc)@.len() == old(slc)@.len(),
        final(slc)@.to_multiset() == old(slc)@.to_multiset(),
        forall|k: int| 0 <= k < n ==> pred_holds(pred, #[trigger] final(slc)@[k]),
        forall|k: int| n <= k < final(slc)@.len() ==> !pred_holds(pred, #[trigger] final(slc)@[k]),
{
    proof {
        lemma_partition_properties(old(slc)@, pred_fn(pred), 0, old(slc)@.len() as int);
    }
    let len: usize = slc.len();
    partition_range(slc, 0, len, pred)
}

/// What holds of every element of a sequence holds of every element of any
/// rearrangement of it.
pub proof fn lemma_rearranged_all<T>(before: Seq<T>, after: Seq<T>, p: spec_fn(T) -> bool)
    requires
        after.to_multiset() == before.to_multiset(),
        forall|i: int| 0 <= i < before.len() ==> p(#[trigger] before[i]),
    ensures
        forall|j: int| 0 <= j < after.len() ==> p(#[trigger] after[j]),
{
    assert forall|j: int| 0 <= j < after.len() implies p(#[trigger] after[j]) by {
        let x = after[j];
        assert(after.contains(x));
        vstd::seq_lib::to_multiset_contains(after, x);
        vstd::seq_lib::to_multiset_contains(before, x);
        let w = choose|w: int| 0 <= w < before.len() && before[w] == x;
        assert(p(before[w]));
    }
}

/// Whether `x` stands in `s` somewhere from `lo` up to `hi`.
pub open spec fn found_in<T>(s: Seq<T>, lo: int, hi: int, x: T) -> bool {
    exists|i: int| lo <= i < hi && #[trigger] s[i] == x
}

/// Whether `after` is `before` with the elements from `lo` up to `hi` in
/// some other order: each of them stands in that range before and after,
/// and the elements outside the range are in their places.
#[verifier::opaque]
pub open spec fn rearranged_in<T>(before: Seq<T>, after: Seq<T>, lo: int, hi: int) -> bool {
    &&& after.len() == before.len()
    &&& forall|j: int| lo <= j < hi ==> found_in(before, lo, hi, #[trigger] after[j])
    &&& forall|i: int| lo <= i < hi ==> found_in(after, lo, hi, #[trigger] before[i])
    &&& forall|j: int| 0 <= j < lo || hi <= j < after.len() ==> #[trigger] after[j] == before[j]
}

/// Ranges that hold the same elements, each as often as the other, are
/// rearrangements of each other.
pub proof fn lemma_permuted_rearranged<T>(before: Seq<T>, after: Seq<T>, lo: int, hi: int)
    requires
        0 <= lo <= hi <= before.len(),
        after.len() == before.len(),
        after.subrange(lo, hi).to_multiset() == before.subrange(lo, hi).to_multiset(),
        forall|j: int| 0 <= j < lo || hi <= j < after.len() ==> #[trigger] after[j] == before[j],
    ensures
        rearranged_in(before, after, lo, hi),
{
    reveal(rearranged_in);
    let b = before.subrange(lo, hi);
    let a = after.subrange(lo, hi);
    assert forall|j: int| lo <= j < hi implies found_in(before, lo, hi, #[trigger] after[j]) by {
        let x = after[j];
        assert(a[j - lo] == x);
        assert(a.contains(x));
        vstd::seq_lib::to_multiset_contains(a, x);
        vstd::seq_lib::to_multiset_contains(b, x);
        let w = choose|w: int| 0 <= w < b.len() && b[w] == x;
        assert(before[lo + w] == x);
    }
    assert forall|i: int| lo <= i < hi implies found_in(after, lo, hi, #[trigger] before[i]) by {
        let x = before[i];
        assert(b[i - lo] == x);
        assert(b.contains(x));
        vstd::seq_lib::to_multiset_contains(a, x);
        vstd::seq_lib::to_multiset_contains(b, x);
        let w = choose|w: int| 0 <= w < a.len() && a[w] == x;
        assert(after[lo + w] == x);
    }
}

/// A rearrangement of a rearrangement is one.
pub proof fn lemma_rearranged_trans<T>(a: Seq<T>, b: Seq<T>, c: Seq<T>, lo: int, hi: int)
    requires
        0 <= lo <= hi <= a.len(),
        rearranged_in(a, b, lo, hi),
        rearranged_in(b, c, lo, hi),
    ensures
        rearranged_in(a, c, lo, hi),
{
    reveal(rearranged_in);
    assert forall|j: int| lo <= j < hi implies found_in(a, lo, hi, #[trigger] c[j]) by {
        assert(found_in(b, lo, hi, c[j]));
        let m = choose|m: int| lo <= m < hi && #[trigger] b[m] == c[j];
        assert(found_in(a, lo, hi, b[m]));
    }
    assert forall|i: int| lo <= i < hi implies found_in(c, lo, hi, #[trigger] a[i]) by {
        assert(found_in(b, lo, hi, a[i]));
        let m = choose|m: int| lo <= m < hi && #[trigger] b[m] == a[i];
        assert(found_in(c, lo, hi, b[m]));
    }
    assert forall|j: int| 0 <= j < lo || hi <= j < c.len() implies #[trigger] c[j] == a[j] by {
        assert(c[j] == b[j]);
        assert(b[j] == a[j]);
    }
}

/// What is rearranged within a range is rearranged within every range
/// around it.
pub proof fn lemma_rearranged_widen<T>(
    a: Seq<T>,
    b: Seq<T>,
    lo: int,
    hi: int,
    wide_lo: int,
    wide_hi: int,
)
    requires
        0 <= wide_lo <= lo <= hi <= wide_hi <= a.len(),
        rearranged_in(a, b, lo, hi),
    ensures
        rearranged_in(a, b, wide_lo, wide_hi),
{
    reveal(rearranged_in);
    assert forall|j: int| wide_lo <= j < wide_hi implies found_in(
        a,
        wide_lo,
        wide_hi,
        #[trigger] b[j],
    ) by {
        if lo <= j < hi {
            assert(found_in(a, lo, hi, b[j]));
            let m = choose|m: int| lo <= m < hi && #[trigger] a[m] == b[j];
            assert(a[m] == b[j]);
        } else {
            assert(a[j] == b[j]);
        }
    }
    assert forall|i: int| wide_lo <= i < wide_hi implies found_in(
        b,
        wide_lo,
        wide_hi,
        #[trigger] a[i],
    ) by {
        if lo <= i < hi {
            assert(found_in(b, lo, hi, a[i]));
            let m = choose|m: int| lo <= m < hi && #[trigger] b[m] == a[i];
            assert(b[m] == a[i]);
        } else {
            assert(b[i] == a[i]);
        }
    }
}

/// A range that is rearranged, and then rearranged within a part of it,
/// is rearranged.
pub proof fn lemma_rearranged_step<T>(
    a: Seq<T>,
    b: Seq<T>,
    c: Seq<T>,
    lo: int,
    hi: int,
    part_lo: int,
    part_hi: int,
)
    requires
        0 <= lo <= part_lo <= part_hi <= hi <= a.len(),
        rearranged_in(a, b, lo, hi),
        rearranged_in(b, c, part_lo, part_hi),
    ensures
        rearranged_in(a, c, lo, hi),
{
    assert(b.len() == a.len()) by {
        reveal(rearranged_in);
    }
    lemma_rearranged_widen(b, c, part_lo, part_hi, lo, hi);
    lemma_rearranged_trans(a, b, c, lo, hi);
}

/// What holds of every element of a range holds of every element of any
/// rearrangement of the range.
pub proof fn lemma_rearranged_keeps<T>(
    before: Seq<T>,
    after: Seq<T>,
    lo: int,
    hi: int,
    p: spec_fn(T) -> bool,
)
    requires
        rearranged_in(before, after, lo, hi),
        forall|i: int| lo <= i < hi ==> p(#[trigger] before[i]),
    ensures
        forall|j: int| lo <= j < hi ==> p(#[trigger] after[j]),
{
    reveal(rearranged_in);
    assert forall|j: int| lo <= j < hi implies p(#[trigger] after[j]) by {
        assert(found_in(before, lo, hi, after[j]));
        let m = choose|m: int| lo <= m < hi && #[trigger] before[m] == after[j];
        assert(p(before[m]));
    }
}

/// The positions zero up to `n`, in order.
pub open spec fn spec_positions(n: nat) -> Seq<int> {
    Seq::new(n, |i: int| i)
}

/// The order into which partitioning by the flags `keep` puts `keep.len()`
/// elements: entry `k` is the former position of the element that ends up
/// at `k`.
pub open spec fn spec_pair_order(keep: Seq<bool>) -> Seq<int> {
    spec_partition(spec_positions(keep.len()), |i: int| keep[i], 0, keep.len() as int)
}

/// The number of flags set.
pub open spec fn spec_kept(keep: Seq<bool>) -> int {
    spec_count(spec_positions(keep.len()), |i: int| keep[i], 0, keep.len() as int)
}

/// Rearranges two slices in step so that the elements whose flag in `keep`
/// is set come first, and returns how many there are.  The flag of an
/// element is the one at the position that the element has when the call
/// is made.
pub fn partition_pair<A, B>(slc1: &mut [A], slc2: &mut [B], keep: &[bool]) -> (n: usize)
    requires
        old(slc1)@.len() == keep@.len(),
        old(slc2)@.len() == keep@.len(),
    ensures
        n == spec_kept(keep@),
        n <= keep@.len(),
        final(slc1)@.len() == keep@.len(),
        final(slc2)@.len() == keep@.len(),
        forall|k: int|
            0 <= k < keep@.len() ==> 0 <= #[trigger] spec_pair_order(keep@)[k] < keep@.len(),
        forall|k: int|
            0 <= k < keep@.len() ==> #[trigger] final(slc1)@[k] == old(slc1)@[spec_pair_order(
                keep@,
            )[k]],
        forall|k: int|
            0 <= k < keep@.len() ==> #[trigger] final(slc2)@[k] == old(slc2)@[spec_pair_order(
                keep@,
            )[k]],
        forall|k: int| 0 <= k < n ==> keep@[#[trigger] spec_pair_order(keep@)[k]],
        forall|k: int| n <= k < keep@.len() ==> !keep@[#[trigger] spec_pair_order(keep@)[k]],
        final(slc1)@.to_multiset() == old(slc1)@.to_multiset(),
        final(slc2)@.to_multiset() == old(slc2)@.to_multiset(),
{
    let len: usize = keep.len();
    let ghost p = |i: int| keep@[i];
    let ghost start = spec_positions(len as nat);
    let ghost mut order = start;
    let mut a: usize = 0;
    let mut b: usize = len;
    while a < b
        invariant
            a <= b <= len,
            len == keep@.len(),
            p == (|i: int| keep@[i]),
            start == spec_positions(len as nat),
            slc1@.len() == len,
            slc2@.len() == len,
            order.len() == len,
            forall|k: int| 0 <= k < len ==> 0 <= #[trigger] order[k] < len,
            forall|k: int| a <= k < b ==> #[trigger] order[k] == k,
            forall|k: int| 0 <= k < len ==> #[trigger] slc1@[k] == old(slc1)@[order[k]],
            forall|k: int| 0 <= k < len ==> #[trigger] slc2@[k] == old(slc2)@[order[k]],
            slc1@.to_multiset() == old(slc1)@.to_multiset(),
            slc2@.to_multiset() == old(slc2)@.to_multiset(),
            spec_partition(order, p, a as int, b as int) == spec_partition(start, p, 0, len as int),
            a + spec_count(order, p, a as int, b as int) == spec_count(start, p, 0, len as int),
        decreases b - a,
    {
        let ghost o1 = order;
        assert(order[a as int] == a);
        assert(order[b - 1] == b - 1);
        if keep[a] {
            proof {
                lemma_count_split(o1, p, a as int, a + 1, b as int);
                assert(spec_count(o1, p, a as int, a as int) == 0);
                assert(spec_count(o1, p, a as int, a + 1) == 1);
            }
            a += 1;
        } else if !keep[b - 1] {
            b -= 1;
        } else {
            let ghost s1 = slc1@;
            let ghost s2 = slc2@;
            slc1.swap(a, b - 1);
            slc2.swap(a, b - 1);
            proof {
                order = spec_swap(o1, a as int, b - 1);
                lemma_swap_permutes(s1, a as int, b - 1);
                lemma_swap_permutes(s2, a as int, b - 1);
                lemma_count_split(o1, p, a as int, a + 1, b as int);
                lemma_count_agrees(o1, order, p, p, a + 1, b - 1);
                assert(spec_count(o1, p, a as int, a as int) == 0);
                assert(spec_count(o1, p, a as int, a + 1) == 0);
            }
            a += 1;
            b -= 1;
        }
    }
    proof {
        lemma_partition_properties(start, p, 0, len as int);
        assert(order == spec_pair_order(keep@));
    }
    a
}

} // verus!
