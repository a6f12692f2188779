use vstd::prelude::*;
use crate::ray::Ray;

verus! {

/// Number of scattering events after which a path samples no further bounce.
pub const MAX_BOUNCES: u32 = 2;

/// Sample dimensions that the camera consumes before the first surface is
/// hit: lens (2), time (1), wavelength (1), image plane filter (2).
pub const CAMERA_DIMENSIONS: u32 = 6;

/// Sample dimensions that choosing and sampling a light consumes.
pub const LIGHT_DIMENSIONS: u32 = 4;

/// Sample dimensions that sampling a scattering direction consumes.
pub const BOUNCE_DIMENSIONS: u32 = 2;

/// The kind of ray whose result a path is waiting for.
#[derive(Clone, Copy, Debug, PartialEq, Eq, Structural)]
pub enum LightPathEvent {
    CameraRay,
    BounceRay,
    ShadowRay,
}

/// What the tracer and the shading of the hit point found for the ray that
/// a path sent out last.
///
/// For a hit on a scattering surface the caller has already drawn the
/// samples named by [`LightPath::sample_dimensions`]: `shadow_ray` is the ray
/// towards the sampled light, present only if that light can contribute
/// (its probability densities and the surface's response are positive);
/// `bounce_ray` is the sampled continuation, present only if its
/// probability density and its filter are positive.
#[derive(Clone, Copy, Debug)]
pub enum PathHit {
    Miss,
    Emission,
    Surface { shadow_ray: Option<Ray>, bounce_ray: Option<Ray> },
}

/// The radiance term that one step adds to the colour of a path.
#[derive(Clone, Copy, Debug, PartialEq, Eq, Structural)]
pub enum Contribution {
    /// Nothing is added.
    Nothing,
    /// The world background, weighted by the attenuation of the path over
    /// the density of the last scattering sample.
    Background,
    /// The emitted colour as the camera sees it.
    EmissionDirect,
    /// The emitted colour, weighted by the attenuation of the path over the
    /// power heuristic of scattering density against light density.
    EmissionWeighted,
    /// The light contribution that was held back until its shadow ray
    /// turned out to be unoccluded.
    PendingLight,
}

/// What the caller commits after one step of a path.
#[derive(Clone, Copy, Debug)]
pub struct PathStep {
    /// The term added to the colour of the path.
    pub contribution: Contribution,
    /// The density of the previous scattering sample is divided out of the
    /// attenuation.
    pub fold_closure_pdf: bool,
    /// The contribution of the sampled light is stored as pending.
    pub store_pending: bool,
    /// Filter and density of the sampled bounce are stored for later.
    pub store_bounce: bool,
    /// The stored bounce filter is multiplied into the attenuation.
    pub fold_bounce: bool,
    /// The ray to trace next; `None` ends the path.
    pub next_ray: Option<Ray>,
}

/// The sample dimensions to draw from when shading a surface hit.
#[derive(Clone, Copy, Debug)]
pub struct SampleDimensions {
    /// Dimension that selects the light.
    pub light_select: u32,
    /// Dimensions that sample a point on the selected light.
    pub light_uvw: (u32, u32, u32),
    /// Dimensions that sample the scattering direction, if the path still
    /// bounces.
    pub bounce_uv: Option<(u32, u32)>,
}

/// The abstract state of a light path.
pub struct PathState {
    pub event: LightPathEvent,
    pub bounce_count: nat,
    pub pixel_co: (u32, u32),
    pub lds_offset: u32,
    pub dim_offset: nat,
    pub time: u32,
    pub wavelength: u32,
    pub next_bounce_ray: Option<Ray>,
    pub finished: bool,
}

impl PathState {
    /// The state of a path whose camera ray is in flight.
    pub open spec fn initial(
        pixel_co: (u32, u32),
        time: u32,
        wavelength: u32,
        lds_offset: u32,
    ) -> PathState {
        PathState {
            event: LightPathEvent::CameraRay,
            bounce_count: 0,
            pixel_co,
            lds_offset,
            dim_offset: CAMERA_DIMENSIONS as nat,
            time,
            wavelength,
            next_bounce_ray: None,
            finished: false,
        }
    }

    /// Whether a surface hit in this state samples a bounce.
    pub open spec fn samples_bounce(self) -> bool {
        self.bounce_count < MAX_BOUNCES
    }

    /// The number of dimensions that a surface hit in this state consumes.
    pub open spec fn surface_dimensions(self) -> nat {
        if self.samples_bounce() {
            (LIGHT_DIMENSIONS + BOUNCE_DIMENSIONS) as nat
        } else {
            LIGHT_DIMENSIONS as nat
        }
    }

    /// A path that has passed its last bounce waits for at most one more
    /// shadow ray; until then every surface hit has consumed the dimensions
    /// of a light, and all but the last those of a bounce.
    pub open spec fn wf(self) -> bool {
        &&& self.bounce_count <= MAX_BOUNCES
        &&& self.dim_offset <= CAMERA_DIMENSIONS + (LIGHT_DIMENSIONS + BOUNCE_DIMENSIONS)
            * self.bounce_count + (if self.finished || (self.event == LightPathEvent::ShadowRay
            && self.next_bounce_ray.is_none()) {
            LIGHT_DIMENSIONS as int
        } else {
            0int
        })
    }

    /// The state after the path has ended.
    pub open spec fn finish(self) -> PathState {
        PathState { finished: true, ..self }
    }

    /// The successor state when the ray in flight was a camera or bounce ray
    /// that hit a scattering surface.
    pub open spec fn after_surface(
        self,
        shadow_ray: Option<Ray>,
        bounce_ray: Option<Ray>,
    ) -> PathState {
        let queued = if self.samples_bounce() {
            bounce_ray
        } else {
            None
        };
        let shaded = PathState {
            bounce_count: if self.samples_bounce() {
                self.bounce_count + 1
            } else {
                self.bounce_count
            },
            dim_offset: self.dim_offset + self.surface_dimensions(),
            next_bounce_ray: queued,
            ..self
        };
        if shadow_ray.is_some() {
            PathState { event: LightPathEvent::ShadowRay, ..shaded }
        } else if self.samples_bounce() && bounce_ray.is_some() {
            PathState { event: LightPathEvent::BounceRay, ..shaded }
        } else {
            shaded.finish()
        }
    }

    /// What the caller commits when the ray in flight was a camera or bounce
    /// ray that hit a scattering surface.
    pub open spec fn step_of_surface(
        self,
        shadow_ray: Option<Ray>,
        bounce_ray: Option<Ray>,
    ) -> PathStep {
        let bounced = self.samples_bounce() && bounce_ray.is_some();
        PathStep {
            contribution: Contribution::Nothing,
            fold_closure_pdf: true,
            store_pending: shadow_ray.is_some(),
            store_bounce: bounced,
            fold_bounce: shadow_ray.is_none() && bounced,
            next_ray: if shadow_ray.is_some() {
                shadow_ray
            } else if bounced {
                bounce_ray
            } else {
                None
            },
        }
    }

    /// The step that ends a path with the given contribution.
    pub open spec fn last_step(contribution: Contribution) -> PathStep {
        PathStep {
            contribution,
            fold_closure_pdf: false,
            store_pending: false,
            store_bounce: false,
            fold_bounce: false,
            next_ray: None,
        }
    }

    /// The successor state for the result `hit` of the ray in flight.
    pub open spec fn next_state(self, hit: PathHit) -> PathState {
        if self.finished {
            self
        } else if self.event == LightPathEvent::ShadowRay {
            if self.next_bounce_ray.is_some() {
                PathState { event: LightPathEvent::BounceRay, ..self }
            } else {
                self.finish()
            }
        } else {
            match hit {
                PathHit::Miss => self.finish(),
                PathHit::Emission => self.finish(),
                PathHit::Surface { shadow_ray, bounce_ray } => self.after_surface(
                    shadow_ray,
                    bounce_ray,
                ),
            }
        }
    }

    /// What the caller commits for the result `hit` of the ray in flight.
    pub open spec fn next_step(self, hit: PathHit) -> PathStep {
        if self.finished {
            Self::last_step(Contribution::Nothing)
        } else if self.event == LightPathEvent::ShadowRay {
            let seen = if hit is Miss {
                Contribution::PendingLight
            } else {
                Contribution::Nothing
            };
            if self.next_bounce_ray.is_some() {
                PathStep {
                    contribution: seen,
                    fold_closure_pdf: false,
                    store_pending: false,
                    store_bounce: false,
                    fold_bounce: true,
                    next_ray: self.next_bounce_ray,
                }
            } else {
                Self::last_step(seen)
            }
        } else {
            match hit {
                PathHit::Miss => Self::last_step(Contribution::Background),
                PathHit::Emission => if self.event == LightPathEvent::CameraRay {
                    Self::last_step(Contribution::EmissionDirect)
                } else {
                    Self::last_step(Contribution::EmissionWeighted)
                },
                PathHit::Surface { shadow_ray, bounce_ray } => self.step_of_surface(
                    shadow_ray,
                    bounce_ray,
                ),
            }
        }
    }

    /// The dimensions that shading a surface hit draws from in this state.
    pub open spec fn dimensions(self) -> SampleDimensions {
        let d = self.dim_offset;
        SampleDimensions {
            light_select: d as u32,
            light_uvw: ((d + 1) as u32, (d + 2) as u32, (d + 3) as u32),
            bounce_uv: if self.samples_bounce() {
                Some(((d + 4) as u32, (d + 5) as u32))
            } else {
                None
            },
        }
    }
}

/// The bookkeeping of one sample's path through the scene: which ray is in
/// flight, how many bounces it has taken, and which sample dimension comes
/// next.
#[derive(Clone, Copy, Debug)]
pub struct LightPath {
    event: LightPathEvent,
    bounce_count: u32,
    pixel_co: (u32, u32),
    lds_offset: u32,
    dim_offset: u32,
    time: u32,
    wavelength: u32,
    next_bounce_ray: Option<Ray>,
    finished: bool,
}

impl View for LightPath {
    type V = PathState;

    closed spec fn view(&self) -> PathState {
        PathState {
            event: self.event,
            bounce_count: self.bounce_count as nat,
            pixel_co: self.pixel_co,
            lds_offset: self.lds_offset,
            dim_offset: self.dim_offset as nat,
            time: self.time,
            wavelength: self.wavelength,
            next_bounce_ray: self.next_bounce_ray,
            finished: self.finished,
        }
    }
}

impl LightPath {
    /// The invariant of every path that this module hands out.
    pub open spec fn wf(&self) -> bool {
        self@.wf()
    }

    /// The path of the sample with low-discrepancy index `lds_offset` through
    /// pixel `pixel_co`, waiting for its camera ray.
    pub fn new(pixel_co: (u32, u32), time: u32, wavelength: u32, lds_offset: u32) -> (path:
        LightPath)
        ensures
            path@ == PathState::initial(pixel_co, time, wavelength, lds_offset),
            path.wf(),
    {
        LightPath {
            event: LightPathEvent::CameraRay,
            bounce_count: 0,
            pixel_co,
            lds_offset,
            dim_offset: CAMERA_DIMENSIONS,
            time,
            wavelength,
            next_bounce_ray: None,
            finished: false,
        }
    }

    pub fn event(&self) -> (r: LightPathEvent)
        ensures
            r == self@.event,
    {
        self.event
    }

    pub fn bounce_count(&self) -> (r: u32)
        ensures
            r == self@.bounce_count,
    {
        self.bounce_count
    }

    pub fn pixel_co(&self) -> (r: (u32, u32))
        ensures
            r == self@.pixel_co,
    {
        self.pixel_co
    }

    pub fn lds_offset(&self) -> (r: u32)
        ensures
            r == self@.lds_offset,
    {
        self.lds_offset
    }

    pub fn time(&self) -> (r: u32)
        ensures
            r == self@.time,
    {
        self.time
    }

    pub fn wavelength(&self) -> (r: u32)
        ensures
            r == self@.wavelength,
    {
        self.wavelength
    }

    pub fn is_finished(&self) -> (r: bool)
        ensures
            r == self@.finished,
    {
        self.finished
    }

    /// The sample dimensions that the shading of a surface hit draws from,
    /// in the order in which the path consumes them.
    pub fn sample_dimensions(&self) -> (dims: SampleDimensions)
        requires
            self.wf(),
        ensures
            dims == self@.dimensions(),
            dims.light_select == self@.dim_offset,
            dims.bounce_uv.is_some() <==> self@.bounce_count < MAX_BOUNCES,
    {
        let d: u32 = self.dim_offset;
        SampleDimensions {
            light_select: d,
            light_uvw: (d + 1, d + 2, d + 3),
            bounce_uv: if self.bounce_count < MAX_BOUNCES {
                Some((d + 4, d + 5))
            } else {
                None
            },
        }
    }

    /// Advances the path by the result of the ray it sent out last, and
    /// says what the caller has to commit and which ray to trace next.
    pub fn next(&mut self, hit: PathHit) -> (step: PathStep)
        requires
            old(self).wf(),
        ensures
            final(self)@ == old(self)@.next_state(hit),
            step == old(self)@.next_step(hit),
            final(self).wf(),
            step.next_ray.is_none() <==> final(self)@.finished,
    {
        if self.finished {
            return PathStep {
                contribution: Contribution::Nothing,
                fold_closure_pdf: false,
                store_pending: false,
                store_bounce: false,
                fold_bounce: false,
                next_ray: None,
            };
        }
        match self.event {
            LightPathEvent::ShadowRay => {
                let seen = match hit {
                    PathHit::Miss => Contribution::PendingLight,
                    _ => Contribution::Nothing,
                };
                match self.next_bounce_ray {
                    Some(ray) => {
                        self.event = LightPathEvent::BounceRay;
                        PathStep {
                            contribution: seen,
                            fold_closure_pdf: false,
                            store_pending: false,
                            store_bounce: false,
                            fold_bounce: true,
                            next_ray: Some(ray),
                        }
                    },
                    None => {
                        self.finished = true;
                        PathStep {
                            contribution: seen,
                            fold_closure_pdf: false,
                            store_pending: false,
                            store_bounce: false,
                            fold_bounce: false,
                            next_ray: None,
                        }
                    },
                }
            },
            _ => {
                match hit {
                    PathHit::Miss => {
                        self.finished = true;
                        PathStep {
                            contribution: Contribution::Background,
                            fold_closure_pdf: false,
                            store_pending: false,
                            store_bounce: false,
                            fold_bounce: false,
                            next_ray: None,
                        }
                    },
                    PathHit::Emission => {
                        let seen = match self.event {
                            LightPathEvent::CameraRay => Contribution::EmissionDirect,
                            _ => Contribution::EmissionWeighted,
                        };
                        self.finished = true;
                        PathStep {
                            contribution: seen,
                            fold_closure_pdf: false,
                            store_pending: false,
                            store_bounce: false,
                            fold_bounce: false,
                            next_ray: None,
                        }
                    },
                    PathHit::Surface { shadow_ray, bounce_ray } => {
                        self.shade_surface(shadow_ray, bounce_ray)
                    },
                }
            },
        }
    }

    /// The step for a camera or bounce ray that hit a scattering surface.
    fn shade_surface(&mut self, shadow_ray: Option<Ray>, bounce_ray: Option<Ray>) -> (step:
        PathStep)
        requires
            old(self).wf(),
            !old(self)@.finished,
            old(self)@.event != LightPathEvent::ShadowRay,
        ensures
            final(self)@ == old(self)@.after_surface(shadow_ray, bounce_ray),
            step == old(self)@.step_of_surface(shadow_ray, bounce_ray),
            final(self).wf(),
            step.next_ray.is_none() <==> final(self)@.finished,
    {
        self.dim_offset = self.dim_offset + LIGHT_DIMENSIONS;
        let bounced = if self.bounce_count < MAX_BOUNCES {
            self.bounce_count = self.bounce_count + 1;
            self.dim_offset = self.dim_offset + BOUNCE_DIMENSIONS;
            self.next_bounce_ray = bounce_ray;
            bounce_ray.is_some()
        } else {
            self.next_bounce_ray = None;
            false
        };
        match shadow_ray {
            Some(ray) => {
                self.event = LightPathEvent::ShadowRay;
                PathStep {
                    contribution: Contribution::Nothing,
                    fold_closure_pdf: true,
                    store_pending: true,
                    store_bounce: bounced,
                    fold_bounce: false,
                    next_ray: Some(ray),
                }
            },
            None => {
                if bounced {
                    self.event = LightPathEvent::BounceRay;
                    PathStep {
                        contribution: Contribution::Nothing,
                        fold_closure_pdf: true,
                        store_pending: false,
                        store_bounce: true,
                        fold_bounce: true,
                        next_ray: bounce_ray,
                    }
                } else {
                    self.finished = true;
                    PathStep {
                        contribution: Contribution::Nothing,
                        fold_closure_pdf: true,
                        store_pending: false,
                        store_bounce: false,
                        fold_bounce: false,
                        next_ray: None,
                    }
                }
            },
        }
    }
}

/// An upper bound on the number of steps that a path in state `s` can
/// still take.
pub open spec fn steps_left(s: PathState) -> nat {
    let after_hit = (2 * (MAX_BOUNCES - s.bounce_count) + 2) as nat;
    if s.finished {
        0
    } else if s.event == LightPathEvent::ShadowRay {
        if s.next_bounce_ray.is_some() {
            after_hit + 1
        } else {
            1
        }
    } else {
        after_hit
    }
}

/// A path never outlives its bounce budget: every step of an unfinished
/// path lowers the number of steps it has left, whatever the rays find, and
/// a path with no steps left is finished.
pub proof fn lemma_path_terminates(s: PathState, hit: PathHit)
    requires
        s.wf(),
    ensures
        steps_left(s) <= 2 * MAX_BOUNCES + 3,
        !s.finished ==> steps_left(s.next_state(hit)) < steps_left(s),
        steps_left(s) == 0 <==> s.finished,
{
}

/// A path consumes sample dimensions in order and never more than those of
/// the camera, three lights and two bounces.
pub proof fn lemma_path_dimensions_bounded(s: PathState, hit: PathHit)
    requires
        s.wf(),
    ensures
        s.next_state(hit).wf(),
        s.dim_offset <= s.next_state(hit).dim_offset,
        s.next_state(hit).dim_offset <= CAMERA_DIMENSIONS + 3 * LIGHT_DIMENSIONS + 2
            * BOUNCE_DIMENSIONS,
{
}

} // verus!
