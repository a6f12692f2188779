use vstd::prelude::*;
use crate::bbox::BBox;
use crate::boundable::{samples_ok, Boundable};
use crate::lerp::{lerp_slice, spec_lerp_slice, Lerp, TIME_HALF, TIME_ONE};

verus! {

/// The number of candidate planes per axis.
pub const SAH_PLANES: usize = 12;

/// The number of candidate splits: every plane of every axis.
pub const SAH_CANDIDATES: usize = 36;

/// The bounds of an object in the middle of the shutter interval.
pub open spec fn spec_mid_bounds<T: Boundable>(obj: T) -> BBox {
    spec_lerp_slice(obj.spec_bounds(), TIME_HALF as int)
}

/// Interpolating between boxes on the lattice gives a box on the lattice.
pub proof fn lemma_lerp_slice_wf(s: Seq<BBox>, time: int)
    requires
        s.len() > 0,
        0 <= time <= TIME_ONE,
        forall|k: int| 0 <= k < s.len() ==> (#[trigger] s[k]).wf(),
    ensures
        spec_lerp_slice(s, time).wf(),
{
    if s.len() == 1 || time == TIME_ONE {
        assert(s.last().wf());
    } else {
        crate::lerp::lemma_sample_index_bounds(s.len() as int, time);
        let i = crate::lerp::spec_sample_index(s.len() as int, time);
        let a = crate::lerp::spec_sample_alpha(s.len() as int, time);
        let p = s[i];
        let q = s[i + 1];
        assert(p.wf() && q.wf());
        crate::lerp::lemma_lerp_bounds(p.min.x as int, q.min.x as int, a);
        crate::lerp::lemma_lerp_bounds(p.min.y as int, q.min.y as int, a);
        crate::lerp::lemma_lerp_bounds(p.min.z as int, q.min.z as int, a);
        crate::lerp::lemma_lerp_bounds(p.max.x as int, q.max.x as int, a);
        crate::lerp::lemma_lerp_bounds(p.max.y as int, q.max.y as int, a);
        crate::lerp::lemma_lerp_bounds(p.max.z as int, q.max.z as int, a);
    }
}

/// The bounds of `obj` in the middle of the shutter interval.
pub fn mid_bounds<T: Boundable>(obj: &T) -> (b: BBox)
    requires
        obj.spec_bounds().len() > 0,
        samples_ok(obj.spec_bounds(), obj.spec_bounds().len()),
    ensures
        b == spec_mid_bounds(*obj),
        b.wf(),
{
    let s: &[BBox] = obj.bounds();
    assert forall|i: int| 0 <= i < s@.len() implies (#[trigger] s@[i]).lerp_ok() by {
        assert(s@[i].wf());
    }
    lerp_slice(s, TIME_HALF)
}

/// The box around the first `upto` of the boxes `m`.
pub open spec fn spec_combined(m: Seq<BBox>, upto: int) -> BBox
    decreases upto,
{
    if upto <= 0 {
        BBox::spec_new()
    } else {
        spec_combined(m, upto - 1).spec_union(m[upto - 1])
    }
}

/// Twenty-six times the coordinate of candidate plane `k` of `axis`: the
/// planes cut the extent of `b` along the axis into thirteen equal bins.
pub open spec fn spec_plane(b: BBox, axis: int, k: int) -> int {
    26 * b.min.at(axis) + 2 * (b.max.at(axis) - b.min.at(axis)) * k
}

/// Whether the centre of `m` lies at or below the plane, which is given as
/// twenty-six times its coordinate.
pub open spec fn spec_at_or_below(m: BBox, axis: int, plane: int) -> bool {
    13 * m.spec_centroid2(axis) <= plane
}

/// Whether the centre of `m` lies below the plane.
pub open spec fn spec_below(m: BBox, axis: int, plane: int) -> bool {
    13 * m.spec_centroid2(axis) < plane
}

/// The two sides of a candidate split: the box around the objects on each
/// side and their number.
pub struct Bin {
    pub left: BBox,
    pub right: BBox,
    pub left_count: nat,
    pub right_count: nat,
}

/// The two sides into which the plane sorts the first `upto` of the boxes
/// `m`.
pub open spec fn spec_bin(m: Seq<BBox>, upto: int, axis: int, plane: int) -> Bin
    decreases upto,
{
    if upto <= 0 {
        Bin { left: BBox::spec_new(), right: BBox::spec_new(), left_count: 0, right_count: 0 }
    } else {
        let b = spec_bin(m, upto - 1, axis, plane);
        if spec_at_or_below(m[upto - 1], axis, plane) {
            Bin { left: b.left.spec_union(m[upto - 1]), left_count: b.left_count + 1, ..b }
        } else {
            Bin { right: b.right.spec_union(m[upto - 1]), right_count: b.right_count + 1, ..b }
        }
    }
}

/// The cost of a split by the surface area heuristic.
pub open spec fn spec_cost(b: Bin) -> int {
    b.left.spec_surface_area() * b.left_count + b.right.spec_surface_area() * b.right_count
}

/// The axis of candidate number `c`.
pub open spec fn spec_candidate_axis(c: int) -> int {
    c / (SAH_PLANES as int)
}

/// Twenty-six times the plane of candidate number `c` for objects bounded
/// by `b`.
pub open spec fn spec_candidate_plane(b: BBox, c: int) -> int {
    spec_plane(b, spec_candidate_axis(c), c % (SAH_PLANES as int) + 1)
}

/// The two sides into which candidate number `c` sorts the boxes `m`.
pub open spec fn spec_candidate_bin(m: Seq<BBox>, c: int) -> Bin {
    let b = spec_combined(m, m.len() as int);
    spec_bin(m, m.len() as int, spec_candidate_axis(c), spec_candidate_plane(b, c))
}

/// A split of a node: the axis, and twenty-six times the coordinate of the
/// plane below which the centre of an object has to lie to go left.
pub struct Split {
    pub axis: usize,
    pub plane: i64,
}

/// The cheapest among the first `upto` candidates that leave neither side
/// empty, and its cost; among equally cheap ones the first.
pub open spec fn spec_best(m: Seq<BBox>, upto: int) -> Option<(int, int)>
    decreases upto,
{
    if upto <= 0 {
        None
    } else {
        let prev = spec_best(m, upto - 1);
        let bin = spec_candidate_bin(m, upto - 1);
        if bin.left_count > 0 && bin.right_count > 0 && (prev.is_none() || spec_cost(bin)
            < prev.unwrap().0) {
            Some((spec_cost(bin), upto - 1))
        } else {
            prev
        }
    }
}

/// The split that the surface area heuristic chooses for objects with the
/// mid-shutter bounds `m`: the cheapest candidate, or, if every candidate
/// leaves one side empty, the plane through the origin across the first
/// axis.
pub open spec fn spec_sah_split(m: Seq<BBox>) -> Split {
    match spec_best(m, SAH_CANDIDATES as int) {
        Some((_, c)) => Split {
            axis: spec_candidate_axis(c) as usize,
            plane: spec_candidate_plane(spec_combined(m, m.len() as int), c) as i64,
        },
        None => Split { axis: 0, plane: 0 },
    }
}

/// The axis along which `b` is longest; among equally long ones the first.
pub open spec fn spec_widest_axis(b: BBox) -> int {
    let ex = b.max.x - b.min.x;
    let ey = b.max.y - b.min.y;
    let ez = b.max.z - b.min.z;
    if ez > ex && ez > ey {
        2
    } else if ey > ex {
        1
    } else {
        0
    }
}

/// The box around boxes on the lattice is on the lattice.
pub proof fn lemma_combined_wf(m: Seq<BBox>, upto: int)
    requires
        upto <= m.len(),
        forall|i: int| 0 <= i < m.len() ==> (#[trigger] m[i]).wf(),
    ensures
        spec_combined(m, upto).wf(),
    decreases upto,
{
    if upto > 0 {
        lemma_combined_wf(m, upto - 1);
        assert(m[upto - 1].wf());
    }
}

/// Both sides of a bin are on the lattice, and between them they hold all
/// the boxes that were sorted.
pub proof fn lemma_bin_wf(m: Seq<BBox>, upto: int, axis: int, plane: int)
    requires
        0 <= upto <= m.len(),
        forall|i: int| 0 <= i < m.len() ==> (#[trigger] m[i]).wf(),
    ensures
        spec_bin(m, upto, axis, plane).left.wf(),
        spec_bin(m, upto, axis, plane).right.wf(),
        spec_bin(m, upto, axis, plane).left_count + spec_bin(m, upto, axis, plane).right_count
            == upto,
    decreases upto,
{
    if upto > 0 {
        lemma_bin_wf(m, upto - 1, axis, plane);
        assert(m[upto - 1].wf());
    }
}

/// The box around all of `mids`.
pub fn combined_bounds(mids: &Vec<BBox>) -> (b: BBox)
    requires
        forall|i: int| 0 <= i < mids@.len() ==> (#[trigger] mids@[i]).wf(),
    ensures
        b == spec_combined(mids@, mids@.len() as int),
        b.wf(),
{
    let mut b: BBox = BBox::new();
    let mut i: usize = 0;
    while i < mids.len()
        invariant
            i <= mids@.len(),
            b == spec_combined(mids@, i as int),
            b.wf(),
            forall|j: int| 0 <= j < mids@.len() ==> (#[trigger] mids@[j]).wf(),
        decreases mids@.len() - i,
    {
        assert(mids@[i as int].wf());
        b = b.union(&mids[i]);
        i += 1;
    }
    b
}

/// Twenty-six times the coordinate of candidate plane `k` of `axis`.
fn plane(b: &BBox, axis: usize, k: usize) -> (p: i64)
    requires
        b.wf(),
        axis < 3,
        1 <= k <= SAH_PLANES,
    ensures
        p == spec_plane(*b, axis as int, k as int),
        -0x10_0000_0000 <= p <= 0x10_0000_0000,
{
    let lo: i64 = b.min.get_n(axis) as i64;
    let hi: i64 = b.max.get_n(axis) as i64;
    let e: i64 = hi - lo;
    let kk: i64 = k as i64;
    assert(-0x4000_0000 * 12 <= e * kk <= 0x4000_0000 * 12 && 2 * e * kk == 2 * (e * kk))
        by (nonlinear_arith)
        requires
            -0x4000_0000 <= e <= 0x4000_0000,
            1 <= kk <= 12,
    ;
    26 * lo + 2 * (e * kk)
}

/// The cost of sorting `mids` by the plane, or `None` if that leaves one
/// side empty.
fn candidate_cost(mids: &Vec<BBox>, axis: usize, plane: i64) -> (r: Option<u128>)
    requires
        axis < 3,
        forall|i: int| 0 <= i < mids@.len() ==> (#[trigger] mids@[i]).wf(),
    ensures
        ({
            let bin = spec_bin(mids@, mids@.len() as int, axis as int, plane as int);
            &&& r.is_some() <==> bin.left_count > 0 && bin.right_count > 0
            &&& r.is_some() ==> r.unwrap() == spec_cost(bin)
        }),
{
    let mut left: BBox = BBox::new();
    let mut right: BBox = BBox::new();
    let mut left_count: usize = 0;
    let mut right_count: usize = 0;
    let mut i: usize = 0;
    while i < mids.len()
        invariant
            i <= mids@.len(),
            axis < 3,
            forall|j: int| 0 <= j < mids@.len() ==> (#[trigger] mids@[j]).wf(),
            left.wf(),
            right.wf(),
            left_count + right_count == i,
            spec_bin(mids@, i as int, axis as int, plane as int) == (Bin {
                left,
                right,
                left_count: left_count as nat,
                right_count: right_count as nat,
            }),
        decreases mids@.len() - i,
    {
        assert(mids@[i as int].wf());
        let c: i64 = mids[i].centroid2(axis) as i64;
        if 13 * c <= plane {
            left = left.union(&mids[i]);
            left_count += 1;
        } else {
            right = right.union(&mids[i]);
            right_count += 1;
        }
        i += 1;
    }
    if left_count > 0 && right_count > 0 {
        let la: u128 = left.surface_area() as u128;
        let ra: u128 = right.surface_area() as u128;
        let lc: u128 = left_count as u128;
        let rc: u128 = right_count as u128;
        assert(la * lc <= 0x6000_0000_0000_0000 * 0xffff_ffff_ffff_ffff && ra * rc
            <= 0x6000_0000_0000_0000 * 0xffff_ffff_ffff_ffff) by (nonlinear_arith)
            requires
                la <= 0x6000_0000_0000_0000,
                ra <= 0x6000_0000_0000_0000,
                lc <= 0xffff_ffff_ffff_ffff,
                rc <= 0xffff_ffff_ffff_ffff,
        ;
        Some(la * lc + ra * rc)
    } else {
        None
    }
}

/// The split that the surface area heuristic chooses for objects with the
/// mid-shutter bounds `mids`.
pub fn sah_split(mids: &Vec<BBox>) -> (s: Split)
    requires
        forall|i: int| 0 <= i < mids@.len() ==> (#[trigger] mids@[i]).wf(),
    ensures
        s == spec_sah_split(mids@),
        s.axis < 3,
{
    let b: BBox = combined_bounds(mids);
    let mut best: Option<u128> = None;
    let mut split: Split = Split { axis: 0, plane: 0 };
    let mut c: usize = 0;
    while c < SAH_CANDIDATES
        invariant
            c <= SAH_CANDIDATES,
            b == spec_combined(mids@, mids@.len() as int),
            b.wf(),
            forall|i: int| 0 <= i < mids@.len() ==> (#[trigger] mids@[i]).wf(),
            split.axis < 3,
            match spec_best(mids@, c as int) {
                Some((cost, k)) => {
                    &&& best == Some(cost as u128)
                    &&& 0 <= cost <= u128::MAX
                    &&& 0 <= k < c
                    &&& split.axis == spec_candidate_axis(k)
                    &&& split.plane == spec_candidate_plane(b, k)
                },
                None => best.is_none() && split == (Split { axis: 0, plane: 0 }),
            },
        decreases SAH_CANDIDATES - c,
    {
        let axis: usize = c / SAH_PLANES;
        let p: i64 = plane(&b, axis, c % SAH_PLANES + 1);
        match candidate_cost(mids, axis, p) {
            Some(cost) => {
                let better: bool = match best {
                    Some(least) => cost < least,
                    None => true,
                };
                if better {
                    best = Some(cost);
                    split = Split { axis, plane: p };
                }
            },
            None => {},
        }
        c += 1;
    }
    split
}

/// The axis along which `b` is longest.
pub fn widest_axis(b: &BBox) -> (axis: usize)
    requires
        b.wf(),
    ensures
        axis == spec_widest_axis(*b),
        axis < 3,
{
    let ex: i64 = b.max.x as i64 - b.min.x as i64;
    let ey: i64 = b.max.y as i64 - b.min.y as i64;
    let ez: i64 = b.max.z as i64 - b.min.z as i64;
    if ez > ex && ez > ey {
        2
    } else if ey > ex {
        1
    } else {
        0
    }
}

} // verus!
