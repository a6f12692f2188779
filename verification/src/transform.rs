use vstd::prelude::*;
use crate::lerp::{Lerp, TIME_ONE};
use crate::vector::{Vector, COORD_MAX};

verus! {

/// The fixed-point value of one in the linear part of a transform.
pub const FIXED_ONE: i32 = 0x1_0000;

/// `v` limited to the range from `lo` to `hi`.
pub open spec fn spec_clamp(v: int, lo: int, hi: int) -> int {
    if v < lo {
        lo
    } else if v > hi {
        hi
    } else {
        v
    }
}

/// The whole part of `v / 65536`, limited to the range from `lo` to `hi`.
pub open spec fn spec_scale_down(v: int, lo: int, hi: int) -> int {
    spec_clamp(v / (FIXED_ONE as int), lo, hi)
}

/// The whole part of `v / 65536`, limited to the range from `lo` to `hi`.
fn scale_down(v: i128, lo: i32, hi: i32) -> (r: i32)
    requires
        lo <= hi,
        -0x1000_0000_0000_0000_0000 <= v <= 0x1000_0000_0000_0000_0000,
    ensures
        r == spec_scale_down(v as int, lo as int, hi as int),
        lo <= r <= hi,
{
    let shifted: i128 = v + 0x1000_0000_0000_0000_0000_0000;
    let q: i128 = shifted / 0x1_0000;
    proof {
        vstd::arithmetic::div_mod::lemma_hoist_over_denominator(
            v as int,
            0x1000_0000_0000_0000_0000int,
            0x1_0000,
        );
    }
    let w: i128 = q - 0x1000_0000_0000_0000_0000;
    if w < lo as i128 {
        lo
    } else if w > hi as i128 {
        hi
    } else {
        w as i32
    }
}

/// An affine map of the lattice: a linear part in sixteen-bit fixed point,
/// by rows, and a translation in lattice units.
#[derive(Clone, Copy, Debug, PartialEq, Eq, Structural)]
pub struct Matrix {
    pub row_x: Vector,
    pub row_y: Vector,
    pub row_z: Vector,
    pub translation: Vector,
}

/// The dot product of a row of a linear part with a vector.
pub open spec fn spec_dot(row: Vector, v: Vector) -> int {
    row.x * v.x + row.y * v.y + row.z * v.z
}

/// The dot product of a row of a linear part with a vector.
fn dot(row: &Vector, v: &Vector) -> (d: i128)
    ensures
        d == spec_dot(*row, *v),
        -0x1_0000_0000_0000_0000 <= d <= 0x1_0000_0000_0000_0000,
{
    let a: i128 = row.x as i128;
    let b: i128 = row.y as i128;
    let c: i128 = row.z as i128;
    let x: i128 = v.x as i128;
    let y: i128 = v.y as i128;
    let z: i128 = v.z as i128;
    assert(-0x4000_0000_0000_0000 <= a * x <= 0x4000_0000_0000_0000 && -0x4000_0000_0000_0000 <= b
        * y <= 0x4000_0000_0000_0000 && -0x4000_0000_0000_0000 <= c * z <= 0x4000_0000_0000_0000)
        by (nonlinear_arith)
        requires
            -0x8000_0000 <= a <= 0x8000_0000,
            -0x8000_0000 <= b <= 0x8000_0000,
            -0x8000_0000 <= c <= 0x8000_0000,
            -0x8000_0000 <= x <= 0x8000_0000,
            -0x8000_0000 <= y <= 0x8000_0000,
            -0x8000_0000 <= z <= 0x8000_0000,
    ;
    a * x + b * y + c * z
}

impl Matrix {
    /// The map that leaves every point where it is.
    pub open spec fn spec_identity() -> Matrix {
        Matrix {
            row_x: Vector { x: FIXED_ONE, y: 0, z: 0 },
            row_y: Vector { x: 0, y: FIXED_ONE, z: 0 },
            row_z: Vector { x: 0, y: 0, z: FIXED_ONE },
            translation: Vector { x: 0, y: 0, z: 0 },
        }
    }

    /// Where the linear part takes the direction `d`: each component is
    /// rounded down and kept on the lattice.
    pub open spec fn spec_transform_dir(self, d: Vector) -> Vector {
        Vector {
            x: spec_scale_down(spec_dot(self.row_x, d), -COORD_MAX as int, COORD_MAX as int) as i32,
            y: spec_scale_down(spec_dot(self.row_y, d), -COORD_MAX as int, COORD_MAX as int) as i32,
            z: spec_scale_down(spec_dot(self.row_z, d), -COORD_MAX as int, COORD_MAX as int) as i32,
        }
    }

    /// Where the map takes the point `p`: the linear part is applied and
    /// rounded down, the translation added, and each component kept on
    /// the lattice.
    pub open spec fn spec_transform_point(self, p: Vector) -> Vector {
        Vector {
            x: spec_scale_down(
                spec_dot(self.row_x, p) + self.translation.x * FIXED_ONE,
                -COORD_MAX as int,
                COORD_MAX as int,
            ) as i32,
            y: spec_scale_down(
                spec_dot(self.row_y, p) + self.translation.y * FIXED_ONE,
                -COORD_MAX as int,
                COORD_MAX as int,
            ) as i32,
            z: spec_scale_down(
                spec_dot(self.row_z, p) + self.translation.z * FIXED_ONE,
                -COORD_MAX as int,
                COORD_MAX as int,
            ) as i32,
        }
    }

    /// The column `n` of the linear part.
    pub open spec fn spec_column(self, n: int) -> Vector {
        Vector { x: self.row_x.at(n), y: self.row_y.at(n), z: self.row_z.at(n) }
    }

    /// The row of the linear part of `self` followed by `then` that
    /// belongs to the row `row` of `then`.
    pub open spec fn spec_compose_row(self, row: Vector) -> Vector {
        Vector {
            x: spec_scale_down(
                spec_dot(row, self.spec_column(0)),
                i32::MIN as int,
                i32::MAX as int,
            ) as i32,
            y: spec_scale_down(
                spec_dot(row, self.spec_column(1)),
                i32::MIN as int,
                i32::MAX as int,
            ) as i32,
            z: spec_scale_down(
                spec_dot(row, self.spec_column(2)),
                i32::MIN as int,
                i32::MAX as int,
            ) as i32,
        }
    }

    /// The map that applies `self` and then `then`, with every entry
    /// rounded down and kept within its range.
    pub open spec fn spec_compose(self, then: Matrix) -> Matrix {
        Matrix {
            row_x: self.spec_compose_row(then.row_x),
            row_y: self.spec_compose_row(then.row_y),
            row_z: self.spec_compose_row(then.row_z),
            translation: Vector {
                x: spec_scale_down(
                    spec_dot(then.row_x, self.translation) + then.translation.x * FIXED_ONE,
                    i32::MIN as int,
                    i32::MAX as int,
                ) as i32,
                y: spec_scale_down(
                    spec_dot(then.row_y, self.translation) + then.translation.y * FIXED_ONE,
                    i32::MIN as int,
                    i32::MAX as int,
                ) as i32,
                z: spec_scale_down(
                    spec_dot(then.row_z, self.translation) + then.translation.z * FIXED_ONE,
                    i32::MIN as int,
                    i32::MAX as int,
                ) as i32,
            },
        }
    }

    /// The map that leaves every point where it is.
    pub fn identity() -> (m: Matrix)
        ensures
            m == Self::spec_identity(),
    {
        Matrix {
            row_x: Vector { x: FIXED_ONE, y: 0, z: 0 },
            row_y: Vector { x: 0, y: FIXED_ONE, z: 0 },
            row_z: Vector { x: 0, y: 0, z: FIXED_ONE },
            translation: Vector { x: 0, y: 0, z: 0 },
        }
    }

    /// Where the linear part takes the direction `d`.
    pub fn transform_dir(&self, d: &Vector) -> (r: Vector)
        ensures
            r == self.spec_transform_dir(*d),
            r.wf(),
    {
        Vector {
            x: scale_down(dot(&self.row_x, d), -COORD_MAX, COORD_MAX),
            y: scale_down(dot(&self.row_y, d), -COORD_MAX, COORD_MAX),
            z: scale_down(dot(&self.row_z, d), -COORD_MAX, COORD_MAX),
        }
    }

    /// Where the map takes the point `p`.
    pub fn transform_point(&self, p: &Vector) -> (r: Vector)
        ensures
            r == self.spec_transform_point(*p),
            r.wf(),
    {
        Vector {
            x: scale_down(
                dot(&self.row_x, p) + (self.translation.x as i128) * 0x1_0000,
                -COORD_MAX,
                COORD_MAX,
            ),
            y: scale_down(
                dot(&self.row_y, p) + (self.translation.y as i128) * 0x1_0000,
                -COORD_MAX,
                COORD_MAX,
            ),
            z: scale_down(
                dot(&self.row_z, p) + (self.translation.z as i128) * 0x1_0000,
                -COORD_MAX,
                COORD_MAX,
            ),
        }
    }

    /// The column `n` of the linear part.
    fn column(&self, n: usize) -> (c: Vector)
        requires
            n < 3,
        ensures
            c == self.spec_column(n as int),
    {
        Vector { x: self.row_x.get_n(n), y: self.row_y.get_n(n), z: self.row_z.get_n(n) }
    }

    /// The row of the linear part of `self` followed by `then` that
    /// belongs to the row `row` of `then`.
    fn compose_row(&self, row: &Vector) -> (r: Vector)
        ensures
            r == self.spec_compose_row(*row),
    {
        Vector {
            x: scale_down(dot(row, &self.column(0)), i32::MIN, i32::MAX),
            y: scale_down(dot(row, &self.column(1)), i32::MIN, i32::MAX),
            z: scale_down(dot(row, &self.column(2)), i32::MIN, i32::MAX),
        }
    }

    /// The map that applies `self` and then `then`.
    pub fn compose(&self, then: &Matrix) -> (m: Matrix)
        ensures
            m == self.spec_compose(*then),
    {
        Matrix {
            row_x: self.compose_row(&then.row_x),
            row_y: self.compose_row(&then.row_y),
            row_z: self.compose_row(&then.row_z),
            translation: Vector {
                x: scale_down(
                    dot(&then.row_x, &self.translation) + (then.translation.x as i128) * 0x1_0000,
                    i32::MIN,
                    i32::MAX,
                ),
                y: scale_down(
                    dot(&then.row_y, &self.translation) + (then.translation.y as i128) * 0x1_0000,
                    i32::MIN,
                    i32::MAX,
                ),
                z: scale_down(
                    dot(&then.row_z, &self.translation) + (then.translation.z as i128) * 0x1_0000,
                    i32::MIN,
                    i32::MAX,
                ),
            },
        }
    }
}

/// The value the fraction `alpha / TIME_ONE` of the way from `a` to `b`,
/// rounded down.
pub open spec fn spec_lerp_entry(a: int, b: int, alpha: int) -> int {
    (a * (TIME_ONE - alpha) + b * alpha) / (TIME_ONE as int)
}

/// The value the fraction `alpha / TIME_ONE` of the way from `a` to `b`,
/// rounded down.
fn lerp_entry(a: i32, b: i32, alpha: u32) -> (r: i32)
    requires
        alpha <= TIME_ONE,
    ensures
        r == spec_lerp_entry(a as int, b as int, alpha as int),
{
    let w: i128 = alpha as i128;
    let wc: i128 = 0x1_0000 - w;
    let x: i128 = a as i128;
    let y: i128 = b as i128;
    assert(x * wc + y * w == a * (TIME_ONE - alpha) + b * alpha && -0x8000_0000 * 0x1_0000 <= x * wc
        + y * w <= 0x7fff_ffff * 0x1_0000 && -0x8000_0000 * 0x1_0000 <= x * wc <= 0x8000_0000
        * 0x1_0000 && -0x8000_0000 * 0x1_0000 <= y * w <= 0x8000_0000 * 0x1_0000)
        by (nonlinear_arith)
        requires
            0 <= w <= 0x1_0000,
            wc == 0x1_0000 - w,
            -0x8000_0000 <= x <= 0x7fff_ffff,
            -0x8000_0000 <= y <= 0x7fff_ffff,
            x == a,
            y == b,
            w == alpha,
    ;
    scale_down(x * wc + y * w, i32::MIN, i32::MAX)
}

/// The vector between two vectors, entry by entry.
pub open spec fn spec_lerp_vector(a: Vector, b: Vector, alpha: int) -> Vector {
    Vector {
        x: spec_lerp_entry(a.x as int, b.x as int, alpha) as i32,
        y: spec_lerp_entry(a.y as int, b.y as int, alpha) as i32,
        z: spec_lerp_entry(a.z as int, b.z as int, alpha) as i32,
    }
}

fn lerp_vector(a: &Vector, b: &Vector, alpha: u32) -> (r: Vector)
    requires
        alpha <= TIME_ONE,
    ensures
        r == spec_lerp_vector(*a, *b, alpha as int),
{
    Vector {
        x: lerp_entry(a.x, b.x, alpha),
        y: lerp_entry(a.y, b.y, alpha),
        z: lerp_entry(a.z, b.z, alpha),
    }
}

impl Lerp for Matrix {
    open spec fn lerp_ok(&self) -> bool {
        true
    }

    /// The map between two time samples, entry by entry.
    open spec fn spec_lerp(self, other: Matrix, alpha: int) -> Matrix {
        Matrix {
            row_x: spec_lerp_vector(self.row_x, other.row_x, alpha),
            row_y: spec_lerp_vector(self.row_y, other.row_y, alpha),
            row_z: spec_lerp_vector(self.row_z, other.row_z, alpha),
            translation: spec_lerp_vector(self.translation, other.translation, alpha),
        }
    }

    fn lerp(self, other: Matrix, alpha: u32) -> (r: Matrix) {
        Matrix {
            row_x: lerp_vector(&self.row_x, &other.row_x, alpha),
            row_y: lerp_vector(&self.row_y, &other.row_y, alpha),
            row_z: lerp_vector(&self.row_z, &other.row_z, alpha),
            translation: lerp_vector(&self.translation, &other.translation, alpha),
        }
    }
}

} // verus!
