use vstd::prelude::*;
use crate::vector::{Vector, COORD_MAX};
use crate::lerp::{
    lemma_lerp_bounds,
    lemma_lerp_monotone,
    lerp_ceil,
    lerp_floor,
    spec_lerp_ceil,
    spec_lerp_floor,
    Lerp,
    TIME_ONE,
};
use crate::ray::{AccelRay, T_ONE};

verus! {

/// An axis-aligned bounding box on the lattice.  A box whose `min` lies
/// above its `max` on some axis holds no point.
#[derive(Clone, Copy, Debug, PartialEq, Eq, Structural)]
pub struct BBox {
    pub min: Vector,
    pub max: Vector,
}

pub open spec fn spec_min(a: int, b: int) -> int {
    if a <= b {
        a
    } else {
        b
    }
}

pub open spec fn spec_max(a: int, b: int) -> int {
    if a >= b {
        a
    } else {
        b
    }
}

fn min_coord(a: i32, b: i32) -> (r: i32)
    ensures
        r == spec_min(a as int, b as int),
{
    if a <= b {
        a
    } else {
        b
    }
}

fn max_coord(a: i32, b: i32) -> (r: i32)
    ensures
        r == spec_max(a as int, b as int),
{
    if a >= b {
        a
    } else {
        b
    }
}

/// Whether the fraction `a`, lower bound of a ray parameter, is at most the
/// fraction `b`, upper bound of it.  A fraction is a numerator over a
/// non-negative denominator; the denominator zero stands for a bound at
/// infinity on the side of the numerator's sign.
pub open spec fn spec_bound_le(a: (int, int), b: (int, int)) -> bool {
    a.0 * b.1 <= b.0 * a.1
}

impl BBox {
    /// Both corners are on the lattice.
    pub open spec fn wf(&self) -> bool {
        self.min.wf() && self.max.wf()
    }

    /// The box that holds no point and is neutral for `union`.
    pub open spec fn spec_new() -> BBox {
        BBox {
            min: Vector { x: COORD_MAX, y: COORD_MAX, z: COORD_MAX },
            max: Vector { x: (-COORD_MAX) as i32, y: (-COORD_MAX) as i32, z: (-COORD_MAX) as i32 },
        }
    }

    /// The smallest box around both `self` and `other`.
    pub open spec fn spec_union(self, other: BBox) -> BBox {
        BBox {
            min: Vector {
                x: spec_min(self.min.x as int, other.min.x as int) as i32,
                y: spec_min(self.min.y as int, other.min.y as int) as i32,
                z: spec_min(self.min.z as int, other.min.z as int) as i32,
            },
            max: Vector {
                x: spec_max(self.max.x as int, other.max.x as int) as i32,
                y: spec_max(self.max.y as int, other.max.y as int) as i32,
                z: spec_max(self.max.z as int, other.max.z as int) as i32,
            },
        }
    }

    /// Whether `other` lies within `self`.
    pub open spec fn contains(self, other: BBox) -> bool {
        &&& self.min.x <= other.min.x
        &&& self.min.y <= other.min.y
        &&& self.min.z <= other.min.z
        &&& other.max.x <= self.max.x
        &&& other.max.y <= self.max.y
        &&& other.max.z <= self.max.z
    }

    /// Whether the point `p` lies within `self`.
    pub open spec fn contains_point(self, p: Vector) -> bool {
        &&& self.min.x <= p.x <= self.max.x
        &&& self.min.y <= p.y <= self.max.y
        &&& self.min.z <= p.z <= self.max.z
    }

    /// The length of the box along axis `n`, zero if it holds no point
    /// there.
    pub open spec fn spec_extent(self, n: int) -> int {
        if self.max.at(n) >= self.min.at(n) {
            self.max.at(n) - self.min.at(n)
        } else {
            0
        }
    }

    /// The area of the six faces of the box.
    pub open spec fn spec_surface_area(self) -> int {
        2 * (self.spec_extent(0) * self.spec_extent(1) + self.spec_extent(1) * self.spec_extent(2)
            + self.spec_extent(2) * self.spec_extent(0))
    }

    /// Twice the coordinate of the centre of the box along axis `n`.
    pub open spec fn spec_centroid2(self, n: int) -> int {
        self.min.at(n) + self.max.at(n)
    }

    /// The lower bound that the slab of axis `n` puts on the parameter of
    /// a ray from `orig` along `dir`.
    pub open spec fn slab_lo(self, orig: Vector, dir: Vector, n: int) -> (int, int) {
        let d = dir.at(n) as int;
        if d > 0 {
            (self.min.at(n) - orig.at(n), d)
        } else if d < 0 {
            (orig.at(n) - self.max.at(n), -d)
        } else {
            (-1, 0)
        }
    }

    /// The upper bound that the slab of axis `n` puts on the parameter of
    /// a ray from `orig` along `dir`.
    pub open spec fn slab_hi(self, orig: Vector, dir: Vector, n: int) -> (int, int) {
        let d = dir.at(n) as int;
        if d > 0 {
            (self.max.at(n) - orig.at(n), d)
        } else if d < 0 {
            (orig.at(n) - self.min.at(n), -d)
        } else {
            (1, 0)
        }
    }

    /// Whether a ray that does not move along axis `n` lies within the slab
    /// of that axis.
    pub open spec fn slab_open(self, orig: Vector, dir: Vector, n: int) -> bool {
        dir.at(n) != 0 || self.min.at(n) <= orig.at(n) <= self.max.at(n)
    }

    /// Lower bound number `i` on the parameter of `ray`: those of the three
    /// slabs, then the start of the ray.
    pub open spec fn ray_lo(self, ray: AccelRay, i: int) -> (int, int) {
        if i < 3 {
            self.slab_lo(ray.orig, ray.dir, i)
        } else {
            (0, 1)
        }
    }

    /// Upper bound number `i` on the parameter of `ray`: those of the three
    /// slabs, then the closest hit so far.
    pub open spec fn ray_hi(self, ray: AccelRay, i: int) -> (int, int) {
        if i < 3 {
            self.slab_hi(ray.orig, ray.dir, i)
        } else {
            (ray.max_t as int, T_ONE as int)
        }
    }

    /// Whether `ray` passes through the box within its parameter range
    /// `[0, max_t]`: no slab shuts it out, and no lower bound on the
    /// parameter exceeds an upper bound.
    pub open spec fn spec_intersect_accel_ray(self, ray: AccelRay) -> bool {
        &&& forall|n: int| 0 <= n < 3 ==> #[trigger] self.slab_open(ray.orig, ray.dir, n)
        &&& forall|i: int, j: int|
            0 <= i < 4 && 0 <= j < 4 ==> spec_bound_le(
                #[trigger] self.ray_lo(ray, i),
                #[trigger] self.ray_hi(ray, j),
            )
    }

    /// The box that holds no point.
    pub fn new() -> (b: BBox)
        ensures
            b == Self::spec_new(),
            b.wf(),
    {
        BBox {
            min: Vector { x: COORD_MAX, y: COORD_MAX, z: COORD_MAX },
            max: Vector { x: -COORD_MAX, y: -COORD_MAX, z: -COORD_MAX },
        }
    }

    /// The smallest box around both `self` and `other`.
    pub fn union(&self, other: &BBox) -> (b: BBox)
        ensures
            b == self.spec_union(*other),
            self.wf() && other.wf() ==> b.wf(),
    {
        BBox {
            min: Vector {
                x: min_coord(self.min.x, other.min.x),
                y: min_coord(self.min.y, other.min.y),
                z: min_coord(self.min.z, other.min.z),
            },
            max: Vector {
                x: max_coord(self.max.x, other.max.x),
                y: max_coord(self.max.y, other.max.y),
                z: max_coord(self.max.z, other.max.z),
            },
        }
    }

    /// The length of the box along axis `n`.
    pub fn extent(&self, n: usize) -> (e: u64)
        requires
            self.wf(),
            n < 3,
        ensures
            e == self.spec_extent(n as int),
            e <= 2 * COORD_MAX,
    {
        let lo: i32 = self.min.get_n(n);
        let hi: i32 = self.max.get_n(n);
        if hi >= lo {
            (hi as i64 - lo as i64) as u64
        } else {
            0
        }
    }

    /// The area of the six faces of the box.
    pub fn surface_area(&self) -> (a: u64)
        requires
            self.wf(),
        ensures
            a == self.spec_surface_area(),
            a <= 6 * (2 * COORD_MAX) * (2 * COORD_MAX),
    {
        let dx: u64 = self.extent(0);
        let dy: u64 = self.extent(1);
        let dz: u64 = self.extent(2);
        assert(dx * dy <= 0x4000_0000 * 0x4000_0000 && dy * dz <= 0x4000_0000 * 0x4000_0000 && dz
            * dx <= 0x4000_0000 * 0x4000_0000) by (nonlinear_arith)
            requires
                dx <= 0x4000_0000,
                dy <= 0x4000_0000,
                dz <= 0x4000_0000,
        ;
        2 * (dx * dy + dy * dz + dz * dx)
    }

    /// Twice the coordinate of the centre of the box along axis `n`.
    pub fn centroid2(&self, n: usize) -> (c: i32)
        requires
            self.wf(),
            n < 3,
        ensures
            c == self.spec_centroid2(n as int),
    {
        self.min.get_n(n) + self.max.get_n(n)
    }

    /// Lower and upper bound that the slab of axis `n` puts on the
    /// parameter of `ray`, or `None` if the slab shuts the ray out.
    pub fn slab_bounds(&self, ray: &AccelRay, n: usize) -> (r: Option<((i128, i128), (i128, i128))>)
        requires
            self.wf(),
            ray.wf(),
            n < 3,
        ensures
            r.is_some() == self.slab_open(ray.orig, ray.dir, n as int),
            r.is_some() ==> {
                let (lo, hi) = r.unwrap();
                &&& (lo.0 as int, lo.1 as int) == self.slab_lo(ray.orig, ray.dir, n as int)
                &&& (hi.0 as int, hi.1 as int) == self.slab_hi(ray.orig, ray.dir, n as int)
            },
    {
        let d: i128 = ray.dir.get_n(n) as i128;
        let o: i128 = ray.orig.get_n(n) as i128;
        let lo: i128 = self.min.get_n(n) as i128;
        let hi: i128 = self.max.get_n(n) as i128;
        if d > 0 {
            Some(((lo - o, d), (hi - o, d)))
        } else if d < 0 {
            Some(((o - hi, -d), (o - lo, -d)))
        } else if lo <= o && o <= hi {
            Some(((-1, 0), (1, 0)))
        } else {
            None
        }
    }

    /// Whether `ray` passes through the box within its parameter range.
    pub fn intersect_accel_ray(&self, ray: &AccelRay) -> (hit: bool)
        requires
            self.wf(),
            ray.wf(),
        ensures
            hit == self.spec_intersect_accel_ray(*ray),
    {
        let mut lo: [(i128, i128); 4] = [(0, 1), (0, 1), (0, 1), (0, 1)];
        let mut hi: [(i128, i128); 4] = [(0, 1), (0, 1), (0, 1), (ray.max_t as i128, T_ONE as i128)];
        let mut n: usize = 0;
        while n < 3
            invariant
                n <= 3,
                self.wf(),
                ray.wf(),
                lo[3] == (0i128, 1i128),
                hi[3] == (ray.max_t as i128, T_ONE as i128),
                forall|k: int| 0 <= k < n ==> #[trigger] self.slab_open(ray.orig, ray.dir, k),
                forall|k: int|
                    0 <= k < n ==> (lo[k].0 as int, lo[k].1 as int) == #[trigger] self.ray_lo(
                        *ray,
                        k,
                    ),
                forall|k: int|
                    0 <= k < n ==> (hi[k].0 as int, hi[k].1 as int) == #[trigger] self.ray_hi(
                        *ray,
                        k,
                    ),
            decreases 3 - n,
        {
            match self.slab_bounds(ray, n) {
                Some((l, h)) => {
                    lo[n] = l;
                    hi[n] = h;
                },
                None => {
                    return false;
                },
            }
            n += 1;
        }
        assert forall|k: int| 0 <= k < 4 implies (lo[k].0 as int, lo[k].1 as int) == self.ray_lo(
            *ray,
            k,
        ) && (hi[k].0 as int, hi[k].1 as int) == self.ray_hi(*ray, k) && -0x4000_0000 <= lo[k].0
            <= 0x4000_0000 && 0 <= lo[k].1 <= 0x2000_0000 && -0x4000_0000 <= hi[k].0
            <= 0xffff_ffff_ffff_ffff && 0 <= hi[k].1 <= 0x2000_0000 by {
            if k < 3 {
                assert((lo[k].0 as int, lo[k].1 as int) == self.ray_lo(*ray, k));
                assert((hi[k].0 as int, hi[k].1 as int) == self.ray_hi(*ray, k));
            }
        }
        let mut i: usize = 0;
        while i < 4
            invariant
                i <= 4,
                forall|k: int|
                    0 <= k < 4 ==> (lo[k].0 as int, lo[k].1 as int) == #[trigger] self.ray_lo(
                        *ray,
                        k,
                    ) && -0x4000_0000 <= lo[k].0 <= 0x4000_0000 && 0 <= lo[k].1 <= 0x2000_0000,
                forall|k: int|
                    0 <= k < 4 ==> (hi[k].0 as int, hi[k].1 as int) == #[trigger] self.ray_hi(
                        *ray,
                        k,
                    ) && -0x4000_0000 <= hi[k].0 <= 0xffff_ffff_ffff_ffff && 0 <= hi[k].1
                        <= 0x2000_0000,
                forall|n: int| 0 <= n < 3 ==> #[trigger] self.slab_open(ray.orig, ray.dir, n),
                forall|a: int, b: int|
                    0 <= a < i && 0 <= b < 4 ==> spec_bound_le(
                        #[trigger] self.ray_lo(*ray, a),
                        #[trigger] self.ray_hi(*ray, b),
                    ),
            decreases 4 - i,
        {
            let mut j: usize = 0;
            while j < 4
                invariant
                    i < 4,
                    j <= 4,
                    forall|k: int|
                        0 <= k < 4 ==> (lo[k].0 as int, lo[k].1 as int) == #[trigger] self.ray_lo(
                            *ray,
                            k,
                        ) && -0x4000_0000 <= lo[k].0 <= 0x4000_0000 && 0 <= lo[k].1
                            <= 0x2000_0000,
                    forall|k: int|
                        0 <= k < 4 ==> (hi[k].0 as int, hi[k].1 as int) == #[trigger] self.ray_hi(
                            *ray,
                            k,
                        ) && -0x4000_0000 <= hi[k].0 <= 0xffff_ffff_ffff_ffff && 0 <= hi[k].1
                            <= 0x2000_0000,
                    forall|a: int, b: int|
                        0 <= a < i && 0 <= b < 4 ==> spec_bound_le(
                            #[trigger] self.ray_lo(*ray, a),
                            #[trigger] self.ray_hi(*ray, b),
                        ),
                    forall|b: int|
                        0 <= b < j ==> spec_bound_le(
                            self.ray_lo(*ray, i as int),
                            #[trigger] self.ray_hi(*ray, b),
                        ),
                decreases 4 - j,
            {
                let l: (i128, i128) = lo[i];
                let h: (i128, i128) = hi[j];
                assert((l.0 as int, l.1 as int) == self.ray_lo(*ray, i as int));
                assert((h.0 as int, h.1 as int) == self.ray_hi(*ray, j as int));
                assert(-0x4000_0000 * 0x2000_0000 <= l.0 * h.1 <= 0x4000_0000 * 0x2000_0000
                    && -0x4000_0000 * 0x2000_0000 <= h.0 * l.1 <= 0xffff_ffff_ffff_ffff
                    * 0x2000_0000) by (nonlinear_arith)
                    requires
                        -0x4000_0000 <= l.0 <= 0x4000_0000,
                        0 <= l.1 <= 0x2000_0000,
                        -0x4000_0000 <= h.0 <= 0xffff_ffff_ffff_ffff,
                        0 <= h.1 <= 0x2000_0000,
                ;
                if l.0 * h.1 > h.0 * l.1 {
                    return false;
                }
                j += 1;
            }
            i += 1;
        }
        true
    }
}

impl Lerp for BBox {
    open spec fn lerp_ok(&self) -> bool {
        self.wf()
    }

    /// The box between two time samples: each face is interpolated and then
    /// moved outwards to the lattice, so that the result holds every point
    /// that the exact interpolation holds.
    open spec fn spec_lerp(self, other: BBox, alpha: int) -> BBox {
        BBox {
            min: Vector {
                x: spec_lerp_floor(self.min.x as int, other.min.x as int, alpha) as i32,
                y: spec_lerp_floor(self.min.y as int, other.min.y as int, alpha) as i32,
                z: spec_lerp_floor(self.min.z as int, other.min.z as int, alpha) as i32,
            },
            max: Vector {
                x: spec_lerp_ceil(self.max.x as int, other.max.x as int, alpha) as i32,
                y: spec_lerp_ceil(self.max.y as int, other.max.y as int, alpha) as i32,
                z: spec_lerp_ceil(self.max.z as int, other.max.z as int, alpha) as i32,
            },
        }
    }

    fn lerp(self, other: BBox, alpha: u32) -> (r: BBox) {
        BBox {
            min: Vector {
                x: lerp_floor(self.min.x, other.min.x, alpha),
                y: lerp_floor(self.min.y, other.min.y, alpha),
                z: lerp_floor(self.min.z, other.min.z, alpha),
            },
            max: Vector {
                x: lerp_ceil(self.max.x, other.max.x, alpha),
                y: lerp_ceil(self.max.y, other.max.y, alpha),
                z: lerp_ceil(self.max.z, other.max.z, alpha),
            },
        }
    }
}

/// A union holds both of its operands and is the smallest box that does.
pub proof fn lemma_union_is_least(a: BBox, b: BBox, c: BBox)
    ensures
        a.spec_union(b).contains(a),
        a.spec_union(b).contains(b),
        c.contains(a) && c.contains(b) ==> c.contains(a.spec_union(b)),
        a.wf() ==> BBox::spec_new().spec_union(a) == a,
        a.wf() ==> a.spec_union(BBox::spec_new()) == a,
        a.spec_union(b) == b.spec_union(a),
        a.spec_union(a) == a,
{
}

/// Union is associative.
pub proof fn lemma_union_assoc(a: BBox, b: BBox, c: BBox)
    ensures
        a.spec_union(b).spec_union(c) == a.spec_union(b.spec_union(c)),
{
}

/// A ray that starts inside a box passes through it, and enters it at or
/// before its own start: no slab bounds its parameter from below by more
/// than zero.
pub proof fn lemma_origin_inside_hits(b: BBox, ray: AccelRay)
    requires
        b.contains_point(ray.orig),
    ensures
        b.spec_intersect_accel_ray(ray),
        forall|n: int| 0 <= n < 3 ==> (#[trigger] b.slab_lo(ray.orig, ray.dir, n)).0 <= 0,
        forall|n: int| 0 <= n < 3 ==> (#[trigger] b.slab_hi(ray.orig, ray.dir, n)).0 >= 0,
{
    assert forall|i: int, j: int| 0 <= i < 4 && 0 <= j < 4 implies spec_bound_le(
        #[trigger] b.ray_lo(ray, i),
        #[trigger] b.ray_hi(ray, j),
    ) by {
        let l = b.ray_lo(ray, i);
        let h = b.ray_hi(ray, j);
        assert(l.0 * h.1 <= 0 <= h.0 * l.1) by (nonlinear_arith)
            requires
                l.0 <= 0,
                l.1 >= 0,
                h.0 >= 0,
                h.1 >= 0,
        ;
    }
}

/// Whether two rays differ at most in how far they reach and in their
/// flags.
pub open spec fn same_geometry(a: AccelRay, b: AccelRay) -> bool {
    &&& a.orig == b.orig
    &&& a.dir == b.dir
    &&& a.time == b.time
    &&& a.id == b.id
}

/// A ray that passes through a box passes through every box around it, and
/// so does every ray that runs the same and reaches as far or further.
pub proof fn lemma_intersect_monotone(outer: BBox, inner: BBox, far: AccelRay, near: AccelRay)
    requires
        outer.contains(inner),
        far.orig == near.orig,
        far.dir == near.dir,
        near.max_t <= far.max_t,
        inner.spec_intersect_accel_ray(near),
    ensures
        outer.spec_intersect_accel_ray(far),
{
    assert forall|n: int| 0 <= n < 3 implies #[trigger] outer.slab_open(far.orig, far.dir, n) by {
        assert(inner.slab_open(near.orig, near.dir, n));
    }
    assert forall|i: int, j: int| 0 <= i < 4 && 0 <= j < 4 implies spec_bound_le(
        #[trigger] outer.ray_lo(far, i),
        #[trigger] outer.ray_hi(far, j),
    ) by {
        let lo = outer.ray_lo(far, i);
        let hi = outer.ray_hi(far, j);
        let li = inner.ray_lo(near, i);
        let hj = inner.ray_hi(near, j);
        assert(spec_bound_le(li, hj));
        assert(lo.1 == li.1 && hi.1 == hj.1 && lo.0 <= li.0 && hj.0 <= hi.0 && lo.1 >= 0 && hi.1
            >= 0);
        assert(lo.0 * hi.1 <= hi.0 * lo.1) by (nonlinear_arith)
            requires
                li.0 * hj.1 <= hj.0 * li.1,
                lo.1 == li.1,
                hi.1 == hj.1,
                lo.0 <= li.0,
                hj.0 <= hi.0,
                lo.1 >= 0,
                hi.1 >= 0,
        ;
    }
}

/// Interpolating between two boxes that hold two others gives a box that
/// holds the interpolation of those.
pub proof fn lemma_lerp_contains(a1: BBox, b1: BBox, a2: BBox, b2: BBox, alpha: int)
    requires
        a1.wf(),
        b1.wf(),
        a2.wf(),
        b2.wf(),
        a1.contains(a2),
        b1.contains(b2),
        0 <= alpha <= TIME_ONE,
    ensures
        a1.spec_lerp(b1, alpha).contains(a2.spec_lerp(b2, alpha)),
{
    lemma_lerp_monotone(a1.min.x as int, b1.min.x as int, a2.min.x as int, b2.min.x as int, alpha);
    lemma_lerp_monotone(a1.min.y as int, b1.min.y as int, a2.min.y as int, b2.min.y as int, alpha);
    lemma_lerp_monotone(a1.min.z as int, b1.min.z as int, a2.min.z as int, b2.min.z as int, alpha);
    lemma_lerp_monotone(a2.max.x as int, b2.max.x as int, a1.max.x as int, b1.max.x as int, alpha);
    lemma_lerp_monotone(a2.max.y as int, b2.max.y as int, a1.max.y as int, b1.max.y as int, alpha);
    lemma_lerp_monotone(a2.max.z as int, b2.max.z as int, a1.max.z as int, b1.max.z as int, alpha);
    lemma_lerp_bounds(a1.min.x as int, b1.min.x as int, alpha);
    lemma_lerp_bounds(a1.min.y as int, b1.min.y as int, alpha);
    lemma_lerp_bounds(a1.min.z as int, b1.min.z as int, alpha);
    lemma_lerp_bounds(a1.max.x as int, b1.max.x as int, alpha);
    lemma_lerp_bounds(a1.max.y as int, b1.max.y as int, alpha);
    lemma_lerp_bounds(a1.max.z as int, b1.max.z as int, alpha);
    lemma_lerp_bounds(a2.min.x as int, b2.min.x as int, alpha);
    lemma_lerp_bounds(a2.min.y as int, b2.min.y as int, alpha);
    lemma_lerp_bounds(a2.min.z as int, b2.min.z as int, alpha);
    lemma_lerp_bounds(a2.max.x as int, b2.max.x as int, alpha);
    lemma_lerp_bounds(a2.max.y as int, b2.max.y as int, alpha);
    lemma_lerp_bounds(a2.max.z as int, b2.max.z as int, alpha);
}

/// If each time sample of one list of boxes holds the sample of another,
/// then so does its value at every time.
pub proof fn lemma_lerp_slice_contains(outer: Seq<BBox>, inner: Seq<BBox>, time: int)
    requires
        outer.len() == inner.len(),
        outer.len() > 0,
        0 <= time <= TIME_ONE,
        forall|k: int| 0 <= k < outer.len() ==> (#[trigger] outer[k]).wf(),
        forall|k: int| 0 <= k < inner.len() ==> (#[trigger] inner[k]).wf(),
        forall|k: int| 0 <= k < outer.len() ==> (#[trigger] outer[k]).contains(inner[k]),
    ensures
        crate::lerp::spec_lerp_slice(outer, time).contains(
            crate::lerp::spec_lerp_slice(inner, time),
        ),
{
    if outer.len() == 1 || time == TIME_ONE {
        assert(outer.last().contains(inner.last()));
    } else {
        crate::lerp::lemma_sample_index_bounds(outer.len() as int, time);
        let i = crate::lerp::spec_sample_index(outer.len() as int, time);
        let a = crate::lerp::spec_sample_alpha(outer.len() as int, time);
        assert(outer[i].contains(inner[i]));
        assert(outer[i + 1].contains(inner[i + 1]));
        assert(outer[i].wf() && outer[i + 1].wf() && inner[i].wf() && inner[i + 1].wf());
        lemma_lerp_contains(outer[i], outer[i + 1], inner[i], inner[i + 1], a);
    }
}

} // verus!
