use vstd::prelude::*;
use crate::vector::{coord_ok, COORD_MAX};

verus! {

/// The time value that stands for the end of the shutter interval.  Times,
/// and the weights of an interpolation, are fractions in units of
/// `1 / TIME_ONE`.
pub const TIME_ONE: u32 = 0x1_0000;

/// The time in the middle of the shutter interval.
pub const TIME_HALF: u32 = 0x8000;

/// `TIME_ONE` times the value that lies the fraction `alpha / TIME_ONE` of
/// the way from `a` to `b`.
pub open spec fn spec_lerp_num(a: int, b: int, alpha: int) -> int {
    a * (TIME_ONE - alpha) + b * alpha
}

/// The interpolated value, rounded down to the lattice.
pub open spec fn spec_lerp_floor(a: int, b: int, alpha: int) -> int {
    spec_lerp_num(a, b, alpha) / (TIME_ONE as int)
}

/// The interpolated value, rounded up to the lattice.
pub open spec fn spec_lerp_ceil(a: int, b: int, alpha: int) -> int {
    (spec_lerp_num(a, b, alpha) + TIME_ONE - 1) / (TIME_ONE as int)
}

/// Both roundings of an interpolated value lie between its end points, the
/// lower one below the upper one, and at the end points both are exact.
pub proof fn lemma_lerp_bounds(a: int, b: int, alpha: int)
    requires
        0 <= alpha <= TIME_ONE,
    ensures
        a <= b ==> a <= spec_lerp_floor(a, b, alpha) <= spec_lerp_ceil(a, b, alpha) <= b,
        b <= a ==> b <= spec_lerp_floor(a, b, alpha) <= spec_lerp_ceil(a, b, alpha) <= a,
        spec_lerp_floor(a, b, 0) == a,
        spec_lerp_ceil(a, b, 0) == a,
        spec_lerp_floor(a, b, TIME_ONE as int) == b,
        spec_lerp_ceil(a, b, TIME_ONE as int) == b,
{
    let d = TIME_ONE as int;
    let n = spec_lerp_num(a, b, alpha);
    assert(a <= b ==> a * d <= n <= b * d) by (nonlinear_arith)
        requires
            0 <= alpha <= d,
            n == a * (d - alpha) + b * alpha,
    ;
    assert(b <= a ==> b * d <= n <= a * d) by (nonlinear_arith)
        requires
            0 <= alpha <= d,
            n == a * (d - alpha) + b * alpha,
    ;
    assert(a * (d - 0) + b * 0 == a * d && a * (d - d) + b * d == b * d) by (nonlinear_arith);
}

/// Interpolation is monotone in both end points, whichever way it rounds.
pub proof fn lemma_lerp_monotone(a1: int, b1: int, a2: int, b2: int, alpha: int)
    requires
        0 <= alpha <= TIME_ONE,
        a1 <= a2,
        b1 <= b2,
    ensures
        spec_lerp_floor(a1, b1, alpha) <= spec_lerp_floor(a2, b2, alpha),
        spec_lerp_ceil(a1, b1, alpha) <= spec_lerp_ceil(a2, b2, alpha),
{
    let d = TIME_ONE as int;
    assert(spec_lerp_num(a1, b1, alpha) <= spec_lerp_num(a2, b2, alpha)) by (nonlinear_arith)
        requires
            0 <= alpha <= d,
            a1 <= a2,
            b1 <= b2,
            spec_lerp_num(a1, b1, alpha) == a1 * (d - alpha) + b1 * alpha,
            spec_lerp_num(a2, b2, alpha) == a2 * (d - alpha) + b2 * alpha,
    ;
}

/// The numerator of an interpolation between lattice coordinates, shifted
/// to be non-negative.
fn lerp_shifted(a: i32, b: i32, alpha: u32) -> (n: u64)
    requires
        coord_ok(a as int),
        coord_ok(b as int),
        alpha <= TIME_ONE,
    ensures
        n == spec_lerp_num(a as int, b as int, alpha as int) + COORD_MAX * TIME_ONE,
        n <= 2 * COORD_MAX * TIME_ONE,
{
    let ao: u64 = (a as i64 + COORD_MAX as i64) as u64;
    let bo: u64 = (b as i64 + COORD_MAX as i64) as u64;
    let w: u64 = alpha as u64;
    let wc: u64 = TIME_ONE as u64 - w;
    assert(ao * wc + bo * w == a * (TIME_ONE - alpha) + b * alpha + COORD_MAX * TIME_ONE && ao * wc
        <= 2 * COORD_MAX * wc && bo * w <= 2 * COORD_MAX * w) by (nonlinear_arith)
        requires
            ao == a + COORD_MAX,
            bo == b + COORD_MAX,
            w == alpha,
            wc == TIME_ONE - alpha,
            0 <= ao <= 2 * COORD_MAX,
            0 <= bo <= 2 * COORD_MAX,
            0 <= w,
            0 <= wc,
    ;
    ao * wc + bo * w
}

/// The value the fraction `alpha / TIME_ONE` of the way from `a` to `b`,
/// rounded down.
pub fn lerp_floor(a: i32, b: i32, alpha: u32) -> (r: i32)
    requires
        coord_ok(a as int),
        coord_ok(b as int),
        alpha <= TIME_ONE,
    ensures
        r == spec_lerp_floor(a as int, b as int, alpha as int),
        coord_ok(r as int),
{
    let n: u64 = lerp_shifted(a, b, alpha);
    let q: u64 = n / (TIME_ONE as u64);
    proof {
        lemma_lerp_bounds(a as int, b as int, alpha as int);
        let m = spec_lerp_num(a as int, b as int, alpha as int);
        assert(n == m + 0x2000_0000_0000int);
        vstd::arithmetic::div_mod::lemma_hoist_over_denominator(m, 0x2000_0000, 0x1_0000);
    }
    (q as i64 - COORD_MAX as i64) as i32
}

/// The value the fraction `alpha / TIME_ONE` of the way from `a` to `b`,
/// rounded up.
pub fn lerp_ceil(a: i32, b: i32, alpha: u32) -> (r: i32)
    requires
        coord_ok(a as int),
        coord_ok(b as int),
        alpha <= TIME_ONE,
    ensures
        r == spec_lerp_ceil(a as int, b as int, alpha as int),
        coord_ok(r as int),
{
    let n: u64 = lerp_shifted(a, b, alpha);
    let q: u64 = (n + (TIME_ONE as u64 - 1)) / (TIME_ONE as u64);
    proof {
        lemma_lerp_bounds(a as int, b as int, alpha as int);
        let m = spec_lerp_num(a as int, b as int, alpha as int);
        assert(n == m + 0x2000_0000_0000int);
        vstd::arithmetic::div_mod::lemma_hoist_over_denominator(
            m + 0xffff,
            0x2000_0000,
            0x1_0000,
        );
    }
    (q as i64 - COORD_MAX as i64) as i32
}

/// Values that can be interpolated between time samples.
pub trait Lerp: Copy {
    /// Whether the value can take part in an interpolation.
    spec fn lerp_ok(&self) -> bool;

    /// The value the fraction `alpha / TIME_ONE` of the way from `self` to
    /// `other`.
    spec fn spec_lerp(self, other: Self, alpha: int) -> Self;

    fn lerp(self, other: Self, alpha: u32) -> (r: Self)
        requires
            self.lerp_ok(),
            other.lerp_ok(),
            alpha <= TIME_ONE,
        ensures
            r == self.spec_lerp(other, alpha as int),
            r.lerp_ok(),
    ;
}

/// The index of the time sample at or before `time` among `len` samples
/// spread evenly over the shutter interval.
pub open spec fn spec_sample_index(len: int, time: int) -> int {
    time * (len - 1) / (TIME_ONE as int)
}

/// How far `time` lies from the sample before it towards the next one, in
/// units of `1 / TIME_ONE` of their distance.
pub open spec fn spec_sample_alpha(len: int, time: int) -> int {
    time * (len - 1) % (TIME_ONE as int)
}

/// The value at `time` of a quantity given by the samples `s`, which are
/// spread evenly over the shutter interval: the only sample if there is just
/// one, the last one at the end of the interval, and otherwise the
/// interpolation between the two samples that bracket `time`.
pub open spec fn spec_lerp_slice<T: Lerp>(s: Seq<T>, time: int) -> T {
    if s.len() == 1 || time == TIME_ONE {
        s.last()
    } else {
        let i = spec_sample_index(s.len() as int, time);
        s[i].spec_lerp(s[i + 1], spec_sample_alpha(s.len() as int, time))
    }
}

/// Before the end of the shutter interval the bracketing samples exist.
pub proof fn lemma_sample_index_bounds(len: int, time: int)
    requires
        len >= 2,
        0 <= time < TIME_ONE,
    ensures
        0 <= spec_sample_index(len, time) < len - 1,
        0 <= spec_sample_alpha(len, time) < TIME_ONE,
{
    let d = TIME_ONE as int;
    let p = time * (len - 1);
    assert(0 <= p < d * (len - 1)) by (nonlinear_arith)
        requires
            len >= 2,
            0 <= time < d,
            p == time * (len - 1),
    ;
}

/// The value at `time` of the quantity sampled in `s`.
pub fn lerp_slice<T: Lerp>(s: &[T], time: u32) -> (r: T)
    requires
        s@.len() > 0,
        time <= TIME_ONE,
        forall|i: int| 0 <= i < s@.len() ==> (#[trigger] s@[i]).lerp_ok(),
    ensures
        r == spec_lerp_slice(s@, time as int),
        r.lerp_ok(),
{
    let len: usize = s.len();
    if len == 1 || time == TIME_ONE {
        s[len - 1]
    } else {
        proof {
            lemma_sample_index_bounds(len as int, time as int);
        }
        let p: u128 = (time as u128) * ((len - 1) as u128);
        let i: usize = (p / (TIME_ONE as u128)) as usize;
        let alpha: u32 = (p % (TIME_ONE as u128)) as u32;
        s[i].lerp(s[i + 1], alpha)
    }
}

} // verus!
