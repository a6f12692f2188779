use vstd::prelude::*;
use crate::vector::Vector;
use crate::lerp::TIME_ONE;
use crate::transform::Matrix;

verus! {

/// Ray parameters are measured in units of `1 / T_ONE` of the direction
/// vector's length.
pub const T_ONE: u64 = 0x1_0000;

/// The parameter bound of a ray that has not hit anything yet.
pub const MAX_T_INFINITY: u64 = 0xffff_ffff_ffff_ffff;

/// Flag bit of a ray that needs no further intersection tests.
pub const FLAG_DONE: u32 = 1;

/// Flag bit of a shadow ray.
pub const FLAG_SHADOW: u32 = 2;

/// A ray in world space, as the integrator hands it to the tracer.
#[derive(Clone, Copy, Debug)]
pub struct Ray {
    pub orig: Vector,
    pub dir: Vector,
    pub max_t: u64,
    pub time: u32,
    pub wavelength: u32,
    pub flags: u32,
}

impl Ray {
    /// Origin and direction are on the lattice and the time lies within the
    /// shutter interval.
    pub open spec fn wf(&self) -> bool {
        &&& self.orig.wf()
        &&& self.dir.wf()
        &&& self.time <= TIME_ONE
    }

    pub open spec fn spec_is_shadow(&self) -> bool {
        self.flags & FLAG_SHADOW != 0
    }

    /// A fresh ray with an unbounded parameter range, or `None` when origin,
    /// direction or time lie outside the lattice.
    pub fn new(orig: Vector, dir: Vector, time: u32, wavelength: u32, is_shadow: bool) -> (r:
        Option<Ray>)
        ensures
            r.is_some() <==> (orig.wf() && dir.wf() && time <= TIME_ONE),
            r.is_some() ==> r.unwrap() == (Ray {
                orig,
                dir,
                max_t: MAX_T_INFINITY,
                time,
                wavelength,
                flags: if is_shadow { FLAG_SHADOW } else { 0u32 },
            }),
            r.is_some() ==> r.unwrap().wf(),
            r.is_some() ==> r.unwrap().spec_is_shadow() == is_shadow,
    {
        if orig.in_range() && dir.in_range() && time <= TIME_ONE {
            assert(FLAG_SHADOW & FLAG_SHADOW != 0) by (bit_vector);
            assert(0u32 & FLAG_SHADOW == 0) by (bit_vector);
            Some(
                Ray {
                    orig,
                    dir,
                    max_t: MAX_T_INFINITY,
                    time,
                    wavelength,
                    flags: if is_shadow { FLAG_SHADOW } else { 0 },
                },
            )
        } else {
            None
        }
    }

    #[verifier::when_used_as_spec(spec_is_shadow)]
    pub fn is_shadow(&self) -> (r: bool)
        ensures
            r == self.spec_is_shadow(),
    {
        self.flags & FLAG_SHADOW != 0
    }
}

/// The compact copy of a world ray that travels through the acceleration
/// structures.  Its `id` is the index of the world ray it stands for.
#[derive(Clone, Copy, Debug)]
pub struct AccelRay {
    pub orig: Vector,
    pub dir: Vector,
    pub max_t: u64,
    pub time: u32,
    pub flags: u32,
    pub id: u32,
}

impl AccelRay {
    /// Origin and direction are on the lattice and the time lies within the
    /// shutter interval.
    pub open spec fn wf(&self) -> bool {
        &&& self.orig.wf()
        &&& self.dir.wf()
        &&& self.time <= TIME_ONE
    }

    pub open spec fn spec_is_done(&self) -> bool {
        self.flags & FLAG_DONE != 0
    }

    /// The ray as it looks once it has been marked as done.
    pub open spec fn spec_mark_done(self) -> AccelRay {
        AccelRay { flags: self.flags | FLAG_DONE, ..self }
    }

    /// The acceleration copy of the world ray `ray`, which is number `id` of
    /// its batch.
    pub fn new(ray: &Ray, id: u32) -> (r: AccelRay)
        ensures
            r == (AccelRay {
                orig: ray.orig,
                dir: ray.dir,
                max_t: ray.max_t,
                time: ray.time,
                flags: ray.flags,
                id,
            }),
            ray.wf() ==> r.wf(),
    {
        AccelRay {
            orig: ray.orig,
            dir: ray.dir,
            max_t: ray.max_t,
            time: ray.time,
            flags: ray.flags,
            id,
        }
    }

    /// Puts the ray back into the space of the world ray `wr`.
    pub fn update_from_world_ray(&mut self, wr: &Ray)
        ensures
            *final(self) == (AccelRay { orig: wr.orig, dir: wr.dir, ..*old(self) }),
    {
        self.orig = wr.orig;
        self.dir = wr.dir;
    }

    /// Puts the ray into the space that `mat` maps the world to.
    pub fn update_from_xformed_world_ray(&mut self, wr: &Ray, mat: &Matrix)
        ensures
            *final(self) == (AccelRay {
                orig: mat.spec_transform_point(wr.orig),
                dir: mat.spec_transform_dir(wr.dir),
                ..*old(self)
            }),
            final(self).orig.wf(),
            final(self).dir.wf(),
    {
        self.orig = mat.transform_point(&wr.orig);
        self.dir = mat.transform_dir(&wr.dir);
    }

    /// Whether the ray needs no further intersection tests.
    #[verifier::when_used_as_spec(spec_is_done)]
    pub fn is_done(&self) -> (r: bool)
        ensures
            r == self.spec_is_done(),
    {
        self.flags & FLAG_DONE != 0
    }

    /// Marks the ray as needing no further intersection tests.
    pub fn mark_done(&mut self)
        ensures
            *final(self) == old(self).spec_mark_done(),
            final(self).spec_is_done(),
    {
        let f: u32 = self.flags;
        assert((f | FLAG_DONE) & FLAG_DONE != 0) by (bit_vector);
        self.flags = f | FLAG_DONE;
    }
}

} // verus!
