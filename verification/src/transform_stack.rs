use vstd::prelude::*;
use crate::lerp::{lerp_slice, spec_lerp_slice, Lerp, TIME_ONE};
use crate::transform::Matrix;

verus! {

/// The time of sample `k` among `count` samples spread evenly over the
/// shutter interval.
pub open spec fn spec_sample_time_of(k: int, count: int) -> int {
    if count <= 1 {
        0
    } else {
        k * TIME_ONE / (count - 1)
    }
}

/// Sample `k` of `count` of the transform sampled in `s`: the sample
/// itself if `s` has that many, and else its value at the time of the
/// sample.
pub open spec fn spec_resample(s: Seq<Matrix>, k: int, count: int) -> Matrix {
    if s.len() == count {
        s[k]
    } else {
        spec_lerp_slice(s, spec_sample_time_of(k, count))
    }
}

/// The transform that applies `first` and then `then`, sample by sample,
/// with as many samples as the one of the two that has more.
pub open spec fn spec_merge(first: Seq<Matrix>, then: Seq<Matrix>) -> Seq<Matrix> {
    let count = if first.len() >= then.len() {
        first.len()
    } else {
        then.len()
    };
    Seq::new(
        count,
        |k: int|
            spec_resample(first, k, count as int).spec_compose(
                spec_resample(then, k, count as int),
            ),
    )
}

/// The levels after `xforms` has been pushed onto `levels`: the new top
/// applies the old top and then `xforms`.
pub open spec fn spec_push(levels: Seq<Seq<Matrix>>, xforms: Seq<Matrix>) -> Seq<Seq<Matrix>> {
    if levels.len() == 0 {
        levels.push(xforms)
    } else {
        levels.push(spec_merge(levels.last(), xforms))
    }
}

/// The time of sample `k` among `count` samples.
fn sample_time_of(k: usize, count: usize) -> (t: u32)
    requires
        k < count,
    ensures
        t == spec_sample_time_of(k as int, count as int),
        t <= TIME_ONE,
{
    if count <= 1 {
        0
    } else {
        let num: u128 = (k as u128) * (TIME_ONE as u128);
        let den: u128 = (count - 1) as u128;
        assert(num / den <= TIME_ONE) by (nonlinear_arith)
            requires
                num == k * TIME_ONE,
                k <= den,
                den > 0,
        ;
        (num / den) as u32
    }
}

/// Sample `k` of `count` of the transform sampled in `s`.
fn resample(s: &[Matrix], k: usize, count: usize) -> (m: Matrix)
    requires
        s@.len() > 0,
        k < count,
    ensures
        m == spec_resample(s@, k as int, count as int),
{
    if s.len() == count {
        s[k]
    } else {
        lerp_slice(s, sample_time_of(k, count))
    }
}

/// Appends the samples `xforms` to `stack`.
fn append_copy(stack: &mut Vec<Matrix>, xforms: &[Matrix])
    ensures
        final(stack)@ == old(stack)@ + xforms@,
{
    let mut k: usize = 0;
    while k < xforms.len()
        invariant
            k <= xforms@.len(),
            stack@ == old(stack)@ + xforms@.subrange(0, k as int),
        decreases xforms@.len() - k,
    {
        stack.push(xforms[k]);
        assert(stack@ =~= old(stack)@ + xforms@.subrange(0, k + 1));
        k += 1;
    }
    assert(xforms@.subrange(0, k as int) =~= xforms@);
}

/// Appends to `stack` the transform that applies the one held in `stack`
/// from `i1` up to `i2` and then `xforms`.
fn append_merged(stack: &mut Vec<Matrix>, i1: usize, i2: usize, xforms: &[Matrix])
    requires
        i1 < i2 <= old(stack)@.len(),
        xforms@.len() > 0,
    ensures
        final(stack)@ == old(stack)@ + spec_merge(
            old(stack)@.subrange(i1 as int, i2 as int),
            xforms@,
        ),
{
    let top_len: usize = i2 - i1;
    let count: usize = if top_len >= xforms.len() {
        top_len
    } else {
        xforms.len()
    };
    let ghost top0 = stack@.subrange(i1 as int, i2 as int);
    let ghost merged = spec_merge(top0, xforms@);
    let mut k: usize = 0;
    while k < count
        invariant
            k <= count,
            i1 < i2 <= old(stack)@.len(),
            xforms@.len() > 0,
            count == merged.len(),
            top0 == old(stack)@.subrange(i1 as int, i2 as int),
            merged == spec_merge(top0, xforms@),
            stack@ == old(stack)@ + merged.subrange(0, k as int),
        decreases count - k,
    {
        let top: &[Matrix] = vstd::slice::slice_subrange(stack.as_slice(), i1, i2);
        assert(top@ =~= top0);
        let a: Matrix = resample(top, k, count);
        let b: Matrix = resample(xforms, k, count);
        let c: Matrix = a.compose(&b);
        assert(c == merged[k as int]);
        stack.push(c);
        assert(stack@ =~= old(stack)@ + merged.subrange(0, k + 1));
        k += 1;
    }
    assert(merged.subrange(0, k as int) =~= merged);
}

/// The last of `levels`; no samples at all if there is no level.
pub open spec fn spec_top_of(levels: Seq<Seq<Matrix>>) -> Seq<Matrix> {
    if levels.len() == 0 {
        Seq::empty()
    } else {
        levels.last()
    }
}

/// The transforms of the instances that the tracer is inside of: each
/// level holds, one matrix per time sample, the map from world space into
/// the space of that level.
pub struct TransformStack {
    stack: Vec<Matrix>,
    stack_indices: Vec<usize>,
}

impl TransformStack {
    /// The levels are runs of the matrix buffer, which they fill.
    pub closed spec fn wf(&self) -> bool {
        &&& self.stack_indices@.len() >= 2
        &&& self.stack_indices@[0] == 0
        &&& self.stack_indices@[1] == 0
        &&& self.stack_indices@.last() == self.stack@.len()
        &&& forall|i: int|
            0 <= i < self.stack_indices@.len() - 1 ==> #[trigger] self.stack_indices@[i]
                <= self.stack_indices@[i + 1]
        &&& forall|i: int|
            1 <= i < self.stack_indices@.len() - 1 ==> #[trigger] self.stack_indices@[i]
                < self.stack_indices@[i + 1]
    }

    /// Level `i`, from the bottom.
    pub closed spec fn level(&self, i: int) -> Seq<Matrix> {
        self.stack@.subrange(self.stack_indices@[i + 1] as int, self.stack_indices@[i + 2] as int)
    }

    /// The number of levels.
    pub closed spec fn depth(&self) -> nat {
        (self.stack_indices@.len() - 2) as nat
    }

    /// The levels, from the bottom.
    pub open spec fn levels(&self) -> Seq<Seq<Matrix>> {
        Seq::new(self.depth(), |i: int| self.level(i))
    }

    /// The top level; no samples at all if there is no level.
    pub open spec fn spec_top(&self) -> Seq<Matrix> {
        if self.depth() == 0 {
            Seq::empty()
        } else {
            self.level(self.depth() - 1)
        }
    }

    /// The top level is the last of the levels.
    pub proof fn lemma_top_is_last(&self)
        ensures
            self.spec_top() == spec_top_of(self.levels()),
            self.levels().len() == self.depth(),
    {
    }

    /// Every index lies within the matrix buffer.
    proof fn lemma_indices_bounded(&self, i: int)
        requires
            self.wf(),
            0 <= i < self.stack_indices@.len(),
        ensures
            self.stack_indices@[i] <= self.stack@.len(),
        decreases self.stack_indices@.len() - i,
    {
        if i < self.stack_indices@.len() - 1 {
            self.lemma_indices_bounded(i + 1);
        }
    }

    /// The stack with no level.
    pub fn new() -> (ts: TransformStack)
        ensures
            ts.wf(),
            ts.depth() == 0,
    {
        let mut ts = TransformStack { stack: Vec::new(), stack_indices: Vec::new() };
        ts.stack_indices.push(0);
        ts.stack_indices.push(0);
        ts
    }

    /// Drops all levels.
    pub fn clear(&mut self)
        ensures
            final(self).wf(),
            final(self).depth() == 0,
    {
        self.stack.clear();
        self.stack_indices.clear();
        self.stack_indices.push(0);
        self.stack_indices.push(0);
    }

    /// The top level.
    pub fn top(&self) -> (t: &[Matrix])
        requires
            self.wf(),
        ensures
            t@ == self.spec_top(),
    {
        let sil: usize = self.stack_indices.len();
        let i1: usize = self.stack_indices[sil - 2];
        let i2: usize = self.stack_indices[sil - 1];
        proof {
            self.lemma_indices_bounded(sil - 1);
            assert(self.stack_indices@[sil - 2] <= self.stack_indices@[sil - 2 + 1]);
            if self.depth() == 0 {
                assert(self.stack@.subrange(0, 0) =~= Seq::<Matrix>::empty());
            }
        }
        vstd::slice::slice_subrange(self.stack.as_slice(), i1, i2)
    }

    /// Adds a level for an instance with the transform `xforms`: the new
    /// top applies the old top and then `xforms`.
    pub fn push(&mut self, xforms: &[Matrix])
        requires
            old(self).wf(),
            xforms@.len() > 0,
        ensures
            final(self).wf(),
            final(self).levels() == spec_push(old(self).levels(), xforms@),
            final(self).depth() == old(self).depth() + 1,
            final(self).spec_top().len() > 0,
    {
        let sil: usize = self.stack_indices.len();
        let i1: usize = self.stack_indices[sil - 2];
        let i2: usize = self.stack_indices[sil - 1];
        proof {
            self.lemma_indices_bounded(sil - 1);
            assert(self.stack_indices@[sil - 2] <= self.stack_indices@[sil - 2 + 1]);
            if sil > 2 {
                assert(self.stack_indices@[sil - 2] < self.stack_indices@[sil - 2 + 1]);
            }
        }
        if sil == 2 {
            append_copy(&mut self.stack, xforms);
        } else {
            append_merged(&mut self.stack, i1, i2, xforms);
        }
        let end: usize = self.stack.len();
        self.stack_indices.push(end);
        proof {
            self.lemma_pushed(old(self), xforms@, end);
        }
    }

    /// What a push does to the levels.
    proof fn lemma_pushed(&self, before: &TransformStack, xforms: Seq<Matrix>, end: usize)
        requires
            before.wf(),
            xforms.len() > 0,
            end == self.stack@.len(),
            self.stack_indices@ == before.stack_indices@.push(end),
            self.stack@ == before.stack@ + (if before.depth() == 0 {
                xforms
            } else {
                spec_merge(before.spec_top(), xforms)
            }),
        ensures
            self.wf(),
            self.levels() == spec_push(before.levels(), xforms),
            self.depth() == before.depth() + 1,
            self.spec_top().len() > 0,
    {
        let sil = before.stack_indices@.len() as int;
        let added = if before.depth() == 0 {
            xforms
        } else {
            spec_merge(before.spec_top(), xforms)
        };
        assert(added.len() > 0);
        assert forall|i: int| 0 <= i < self.stack_indices@.len() - 1 implies #[trigger] self.stack_indices@[i]
            <= self.stack_indices@[i + 1] by {
            if i < sil - 1 {
                assert(before.stack_indices@[i] <= before.stack_indices@[i + 1]);
            }
        }
        assert forall|i: int| 1 <= i < self.stack_indices@.len() - 1 implies #[trigger] self.stack_indices@[i]
            < self.stack_indices@[i + 1] by {
            if i < sil - 1 {
                assert(before.stack_indices@[i] < before.stack_indices@[i + 1]);
            }
        }
        assert(self.level(sil - 2) =~= added);
        assert forall|i: int| 0 <= i < sil - 2 implies self.level(i) == before.levels()[i] by {
            before.lemma_indices_bounded(i + 2);
            assert(before.stack_indices@[i + 1] <= before.stack_indices@[i + 1 + 1]);
            assert(self.level(i) =~= before.level(i));
        }
        assert(self.levels() =~= before.levels().push(added));
        if sil > 2 {
            assert(before.levels().last() == before.level(sil - 3));
        }
    }

    /// Drops the top level.
    pub fn pop(&mut self)
        requires
            old(self).wf(),
            old(self).depth() > 0,
        ensures
            final(self).wf(),
            final(self).levels() == old(self).levels().drop_last(),
            final(self).depth() == old(self).depth() - 1,
    {
        let sl: usize = self.stack.len();
        let sil: usize = self.stack_indices.len();
        let i1: usize = self.stack_indices[sil - 2];
        let i2: usize = self.stack_indices[sil - 1];
        let ghost old_indices = self.stack_indices@;
        proof {
            assert(self.stack_indices@[sil - 2] <= self.stack_indices@[sil - 2 + 1]);
        }
        self.stack.truncate(sl - (i2 - i1));
        self.stack_indices.pop();
        proof {
            assert forall|i: int| 0 <= i < self.stack_indices@.len() - 1 implies #[trigger] self.stack_indices@[i]
                <= self.stack_indices@[i + 1] by {
                assert(old_indices[i] <= old_indices[i + 1]);
            }
            assert forall|i: int| 1 <= i < self.stack_indices@.len() - 1 implies #[trigger] self.stack_indices@[i]
                < self.stack_indices@[i + 1] by {
                assert(old_indices[i] < old_indices[i + 1]);
            }
            assert forall|i: int| 0 <= i < sil - 3 implies self.level(i) == old(self).levels()[i] by {
                self.lemma_indices_bounded(i + 2);
                assert(old_indices[i + 1] <= old_indices[i + 1 + 1]);
                assert(self.level(i) =~= old(self).level(i));
            }
            assert(self.levels() =~= old(self).levels().drop_last());
        }
    }
}

} // verus!
