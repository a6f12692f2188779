use vstd::prelude::*;
use crate::hash::{hash_u32, spec_hash_u32};
use crate::lerp::TIME_ONE;

verus! {

/// The number of dimensions that the low-discrepancy sequence covers; the
/// dimensions beyond it are hashed.
pub const MAX_DIMENSION: u32 = 32;

/// The shortest wavelength sampled, in picometres.
pub const WAVELENGTH_MIN: u32 = 380_000;

/// The longest wavelength sampled, in picometres.
pub const WAVELENGTH_MAX: u32 = 700_000;

/// The base of the sequence in dimension `dimension`: the prime of that
/// number.
pub open spec fn spec_base(dimension: int) -> int {
    if dimension == 0 { 2 } else if dimension == 1 { 3 } else if dimension == 2 { 5 }
    else if dimension == 3 { 7 } else if dimension == 4 { 11 } else if dimension == 5 { 13 }
    else if dimension == 6 { 17 } else if dimension == 7 { 19 } else if dimension == 8 { 23 }
    else if dimension == 9 { 29 } else if dimension == 10 { 31 } else if dimension == 11 { 37 }
    else if dimension == 12 { 41 } else if dimension == 13 { 43 } else if dimension == 14 { 47 }
    else if dimension == 15 { 53 } else if dimension == 16 { 59 } else if dimension == 17 { 61 }
    else if dimension == 18 { 67 } else if dimension == 19 { 71 } else if dimension == 20 { 73 }
    else if dimension == 21 { 79 } else if dimension == 22 { 83 } else if dimension == 23 { 89 }
    else if dimension == 24 { 97 } else if dimension == 25 { 101 } else if dimension == 26 { 103 }
    else if dimension == 27 { 107 } else if dimension == 28 { 109 } else if dimension == 29 { 113 }
    else if dimension == 30 { 127 } else { 131 }
}

/// The base of the sequence in dimension `dimension`.
pub fn base(dimension: u32) -> (b: u64)
    requires
        dimension < MAX_DIMENSION,
    ensures
        b == spec_base(dimension as int),
        2 <= b <= 131,
{
    let primes: [u64; 32] = [
        2, 3, 5, 7, 11, 13, 17, 19, 23, 29, 31, 37, 41, 43, 47, 53, 59, 61, 67, 71, 73, 79, 83,
        89, 97, 101, 103, 107, 109, 113, 127, 131,
    ];
    primes[dimension as usize]
}

/// The digits of `i` in base `b`, read from the lowest up and appended
/// to the digits `num`; `den` is the power of the base that goes with
/// them.  The fraction `num / den` at the end is `i` mirrored at the
/// point.
pub open spec fn spec_mirror(b: int, i: int, num: int, den: int) -> (int, int)
    decreases i,
{
    if i <= 0 || b < 2 || i / b >= i {
        (num, den)
    } else {
        spec_mirror(b, i / b, num * b + i % b, den * b)
    }
}

/// Element `i` of the Halton sequence in base `b`, in units of two to
/// the minus thirty-second, rounded down.
pub open spec fn spec_halton(b: int, i: int) -> int {
    let (num, den) = spec_mirror(b, i, 0, 1);
    num * 0x1_0000_0000 / den
}

/// Sample `i` in dimension `dimension`, as a fraction of one in units of
/// two to the minus thirty-second: an element of the Halton sequence in
/// the dimensions that sequence covers, and a hash of dimension and index
/// beyond them.
pub open spec fn spec_get_sample(dimension: u32, i: u32) -> int {
    if dimension < MAX_DIMENSION {
        spec_halton(spec_base(dimension as int), i as int)
    } else {
        spec_hash_u32(dimension, i) as int
    }
}

/// Element `i` of the Halton sequence in base `b`.
fn halton(b: u64, i: u32) -> (r: u32)
    requires
        2 <= b <= 131,
    ensures
        r == spec_halton(b as int, i as int),
{
    let mut rest: u64 = i as u64;
    let mut num: u64 = 0;
    let mut den: u64 = 1;
    while rest > 0
        invariant
            2 <= b <= 131,
            0 <= num < den,
            rest > 0 ==> den * rest <= i,
            rest == 0 ==> den <= i * b || den == 1,
            den <= 0x1_0000_0000 * 131,
            spec_mirror(b as int, rest as int, num as int, den as int) == spec_mirror(
                b as int,
                i as int,
                0,
                1,
            ),
        decreases rest,
    {
        let digit: u64 = rest % b;
        let next: u64 = rest / b;
        proof {
            vstd::arithmetic::div_mod::lemma_fundamental_div_mod(rest as int, b as int);
            vstd::arithmetic::div_mod::lemma_div_decreases(rest as int, b as int);
            assert(b * next == next * b) by (nonlinear_arith);
        }
        assert(den * b <= 0x1_0000_0000 * 131 && num * b + digit < den * b && (next > 0 ==> den * b
            * next <= i) && den * b <= i * b) by (nonlinear_arith)
            requires
                den * rest <= i,
                i <= 0xffff_ffff,
                rest == next * b + digit,
                0 <= digit < b,
                2 <= b <= 131,
                0 <= num < den,
                rest > 0,
                next >= 0,
        ;
        num = num * b + digit;
        den = den * b;
        rest = next;
    }
    let scaled: u128 = (num as u128) * 0x1_0000_0000u128;
    assert(scaled / (den as u128) < 0x1_0000_0000) by (nonlinear_arith)
        requires
            scaled == num * 0x1_0000_0000,
            0 <= num < den,
    ;
    (scaled / (den as u128)) as u32
}

/// Sample `i` in dimension `dimension`, as a fraction of one in units of
/// two to the minus thirty-second.
pub fn get_sample(dimension: u32, i: u32) -> (r: u32)
    ensures
        r == spec_get_sample(dimension, i),
{
    if dimension < MAX_DIMENSION {
        halton(base(dimension), i)
    } else {
        hash_u32(dimension, i)
    }
}

/// The time within the shutter interval that the sample `u` stands for.
pub open spec fn spec_sample_time(u: u32) -> u32 {
    (u / 0x1_0000) as u32
}

/// The time within the shutter interval that the sample `u` stands for.
pub fn sample_time(u: u32) -> (t: u32)
    ensures
        t == spec_sample_time(u),
        t < TIME_ONE,
{
    u / 0x1_0000
}

/// The wavelength in picometres that the sample `u` stands for: the
/// samples spread evenly from the shortest wavelength to the longest.
pub open spec fn spec_sample_wavelength(u: u32) -> int {
    WAVELENGTH_MIN + (WAVELENGTH_MAX - WAVELENGTH_MIN) * u / 0x1_0000_0000
}

/// The wavelength in picometres that the sample `u` stands for.
pub fn sample_wavelength(u: u32) -> (w: u32)
    ensures
        w == spec_sample_wavelength(u),
        WAVELENGTH_MIN <= w < WAVELENGTH_MAX,
{
    let span: u64 = (WAVELENGTH_MAX - WAVELENGTH_MIN) as u64;
    let scaled: u64 = span * (u as u64);
    (WAVELENGTH_MIN as u64 + scaled / 0x1_0000_0000) as u32
}

} // verus!
