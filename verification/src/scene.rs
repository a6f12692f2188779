use vstd::prelude::*;
use crate::bbox::BBox;
use crate::algorithm::lemma_rearranged_all;
use crate::boundable::{buildable, spec_buildable, Boundable};
use crate::bvh::BVH;
use crate::ray::{AccelRay, Ray};
use crate::hits::{all_in_top, recorded_with, records_agree, tested_with};
use crate::transform::Matrix;
use crate::vector::Vector;
use crate::traverse::{distinct_ids, id_absent};

verus! {

/// What an instance is an instance of.
#[derive(Clone, Copy, Debug, PartialEq, Eq, Structural)]
pub enum InstanceType {
    Object,
    Assembly,
}

/// One placement of an object or of a nested assembly within an assembly.
#[derive(Clone, Debug)]
pub struct Instance {
    /// Whether `data_index` counts through the objects or the assemblies.
    pub instance_type: InstanceType,
    /// Which object or assembly is placed.
    pub data_index: usize,
    /// The number under which the instance was added to its assembly.
    pub id: usize,
    /// The range of the instance's transform samples in the transforms of
    /// its assembly, if it has a transform.
    pub transform_indices: Option<(usize, usize)>,
    /// The entry of the shader table that shades the instance, if one is
    /// assigned.
    pub surface_shader_index: Option<usize>,
    /// The bounds of the instance in the space of its assembly, one box
    /// per time sample.
    pub bounds: Vec<BBox>,
}

impl Boundable for Instance {
    open spec fn spec_bounds(&self) -> Seq<BBox> {
        self.bounds@
    }

    fn bounds(&self) -> (r: &[BBox]) {
        self.bounds.as_slice()
    }
}

/// The shader that a surface is to use for its hits.
#[derive(Clone, Copy, Debug, PartialEq, Eq, Structural)]
pub enum ShaderChoice {
    /// The shader with this index in the shader arena.
    Assigned(usize),
    /// No shader is assigned: the surface shows in bright magenta.
    Unassigned,
}

/// What a ray has found.
#[derive(Clone, Copy, Debug, PartialEq, Eq, Structural)]
pub enum SurfaceIntersection {
    Miss,
    /// The ray meets a surface at parameter `t`; `handle` is the handle of
    /// the surface, and `shader` is the shader that the tracer has chosen
    /// for the hit.
    Hit { t: u64, handle: u64, shader: ShaderChoice },
}

/// Whether each of `rays` lies on the lattice and stands for one of
/// `count` world rays.
pub open spec fn batch_ok(rays: Seq<AccelRay>, count: int) -> bool {
    forall|j: int| 0 <= j < rays.len() ==> (#[trigger] rays[j]).wf() && rays[j].id < count
}

/// Whether all of `wrays` lie on the lattice.
pub open spec fn world_rays_ok(wrays: Seq<Ray>) -> bool {
    forall|j: int| 0 <= j < wrays.len() ==> (#[trigger] wrays[j]).wf()
}

/// Geometry that rays can be intersected with.
pub trait Surface {
    /// The parameter at which a ray that runs from `orig` along `dir` in
    /// the space of the surface meets the surface at `time`, however far
    /// the ray reaches; `None` if it does not meet it.  An implementation
    /// that does not say where rays meet it is taken never to be met.
    open spec fn spec_hit_at(&self, orig: Vector, dir: Vector, time: u32) -> Option<u64> {
        None
    }

    /// The handle under which the surface records its hits.  An
    /// implementation that does not name one records them under zero.
    open spec fn spec_handle(&self) -> u64 {
        0
    }

    /// Intersects `accel_rays`, which are in the space that the transform
    /// samples `space` map the world to, with the surface.  Where a ray
    /// meets the surface before its reach ends, its reach is drawn in and
    /// the hit is recorded in the entry of `isects` that belongs to the
    /// ray, with the distance, the handle of the surface and `shader`; the
    /// other entries stay as they are.
    fn intersect_rays(
        &self,
        accel_rays: &mut [AccelRay],
        wrays: &[Ray],
        isects: &mut [SurfaceIntersection],
        shader: ShaderChoice,
        space: &[Matrix],
    )
        requires
            batch_ok(old(accel_rays)@, wrays@.len() as int),
            world_rays_ok(wrays@),
            old(isects)@.len() == wrays@.len(),
            distinct_ids(old(accel_rays)@),
            records_agree(old(isects)@, wrays@, old(accel_rays)@),
            all_in_top(old(accel_rays)@, wrays@, space@),
        ensures
            final(accel_rays)@.len() == old(accel_rays)@.len(),
            batch_ok(final(accel_rays)@, wrays@.len() as int),
            final(isects)@.len() == wrays@.len(),
            forall|j: int|
                0 <= j < old(accel_rays)@.len() ==> tested_with(
                    self.spec_hit_at(
                        old(accel_rays)@[j].orig,
                        old(accel_rays)@[j].dir,
                        old(accel_rays)@[j].time,
                    ),
                    #[trigger] old(accel_rays)@[j],
                    final(accel_rays)@[j],
                ),
            records_agree(final(isects)@, wrays@, final(accel_rays)@),
            forall|j: int|
                0 <= j < old(accel_rays)@.len() ==> recorded_with(
                    old(isects)@,
                    final(isects)@,
                    #[trigger] old(accel_rays)@[j],
                    final(accel_rays)@[j],
                    self.spec_handle(),
                    shader,
                ),
            forall|i: int|
                0 <= i < wrays@.len() && id_absent(old(accel_rays)@, i as u32)
                    ==> #[trigger] final(isects)@[i] == old(isects)@[i],
    ;
}

/// An object of an assembly.
pub enum Object<S> {
    Surface(S),
    SurfaceLight(S),
}

/// The shader that the hits of `obj` are recorded with when the instance
/// that places it has the shader `assigned`: a surface has the shader of
/// its instance, or none if the instance has none; a light ignores it.
pub open spec fn spec_shader_choice<S>(obj: Object<S>, assigned: Option<usize>) -> ShaderChoice {
    match obj {
        Object::Surface(_) => match assigned {
            Some(index) => ShaderChoice::Assigned(index),
            None => ShaderChoice::Unassigned,
        },
        Object::SurfaceLight(_) => ShaderChoice::Unassigned,
    }
}

/// The shader that the hits of `obj` are recorded with when the instance
/// that places it has the shader `assigned`.
pub fn shader_choice<S>(obj: &Object<S>, assigned: Option<usize>) -> (choice: ShaderChoice)
    ensures
        choice == spec_shader_choice(*obj, assigned),
{
    match obj {
        Object::Surface(_) => match assigned {
            Some(index) => ShaderChoice::Assigned(index),
            None => ShaderChoice::Unassigned,
        },
        // Lights don't use shaders
        Object::SurfaceLight(_) => ShaderChoice::Unassigned,
    }
}

/// A container of objects and nested assemblies, and of the instances that
/// place them.
pub struct Assembly<S> {
    pub instances: Vec<Instance>,
    pub xforms: Vec<Matrix>,
    pub surface_shaders: Vec<usize>,
    pub objects: Vec<Object<S>>,
    pub assemblies: Vec<Assembly<S>>,
    pub object_accel: BVH,
}

/// Whether `inst` refers to one of `objects` objects or `assemblies`
/// assemblies, as its type says, to a run of `xforms` transforms, if it has
/// a transform, and to one of `shaders` shaders, if one is assigned.
pub open spec fn instance_valid(
    inst: Instance,
    objects: nat,
    assemblies: nat,
    xforms: nat,
    shaders: nat,
) -> bool {
    &&& match inst.instance_type {
        InstanceType::Object => inst.data_index < objects,
        InstanceType::Assembly => inst.data_index < assemblies,
    }
    &&& match inst.transform_indices {
        Some((start, end)) => start < end <= xforms,
        None => true,
    }
    &&& match inst.surface_shader_index {
        Some(s) => s < shaders,
        None => true,
    }
}

/// Whether all of `instances` refer to what there is.
pub open spec fn instances_valid(
    instances: Seq<Instance>,
    objects: nat,
    assemblies: nat,
    xforms: nat,
    shaders: nat,
) -> bool {
    forall|i: int|
        0 <= i < instances.len() ==> instance_valid(
            #[trigger] instances[i],
            objects,
            assemblies,
            xforms,
            shaders,
        )
}

/// Whether all of `instances` refer to what there is.
fn check_instances(
    instances: &Vec<Instance>,
    objects: usize,
    assemblies: usize,
    xforms: usize,
    shaders: usize,
) -> (ok: bool)
    ensures
        ok == instances_valid(
            instances@,
            objects as nat,
            assemblies as nat,
            xforms as nat,
            shaders as nat,
        ),
{
    let mut i: usize = 0;
    while i < instances.len()
        invariant
            i <= instances@.len(),
            forall|j: int|
                0 <= j < i ==> instance_valid(
                    #[trigger] instances@[j],
                    objects as nat,
                    assemblies as nat,
                    xforms as nat,
                    shaders as nat,
                ),
        decreases instances@.len() - i,
    {
        let target_ok: bool = match instances[i].instance_type {
            InstanceType::Object => instances[i].data_index < objects,
            InstanceType::Assembly => instances[i].data_index < assemblies,
        };
        let transform_ok: bool = match instances[i].transform_indices {
            Some((start, end)) => start < end && end <= xforms,
            None => true,
        };
        let shader_ok: bool = match instances[i].surface_shader_index {
            Some(s) => s < shaders,
            None => true,
        };
        if !(target_ok && transform_ok && shader_ok) {
            assert(!instance_valid(
                instances@[i as int],
                objects as nat,
                assemblies as nat,
                xforms as nat,
                shaders as nat,
            ));
            return false;
        }
        i += 1;
    }
    true
}

impl<S> Assembly<S> {
    /// Whether instance `i` refers to what the assembly holds.
    pub open spec fn instance_ok(&self, i: int) -> bool {
        instance_valid(
            self.instances@[i],
            self.objects@.len(),
            self.assemblies@.len(),
            self.xforms@.len(),
            self.surface_shaders@.len(),
        )
    }

    /// Whether the instances refer to what the assembly holds, the
    /// hierarchy is one over the instances, and the nested assemblies are
    /// as good.
    pub open spec fn wf(&self) -> bool
        decreases self,
    {
        &&& self.object_accel.wf_for(self.instances@)
        &&& forall|i: int| 0 <= i < self.instances@.len() ==> #[trigger] self.instance_ok(i)
        &&& forall|j: int|
            0 <= j < self.assemblies@.len() ==> (#[trigger] self.assemblies@[j]).wf()
    }

    /// The assembly of the given parts, with a hierarchy over its
    /// instances, which it puts into the order of the hierarchy.  Returns
    /// `None` if an instance refers to what is not there, if the bounds of
    /// the instances do not all have the same number of time samples, at
    /// least one, or do not lie on the lattice, or if the hierarchy would
    /// be too deep.
    pub fn new(
        instances: Vec<Instance>,
        xforms: Vec<Matrix>,
        surface_shaders: Vec<usize>,
        objects: Vec<Object<S>>,
        assemblies: Vec<Assembly<S>>,
    ) -> (r: Option<Assembly<S>>)
        requires
            forall|j: int| 0 <= j < assemblies@.len() ==> (#[trigger] assemblies@[j]).wf(),
        ensures
            r.is_some() <==> instances_valid(
                instances@,
                objects@.len(),
                assemblies@.len(),
                xforms@.len(),
                surface_shaders@.len(),
            ) && spec_buildable(instances@) && crate::bvh::spec_hierarchy(instances@, 1).0.depth
                <= crate::bvh::BVH_MAX_DEPTH,
            r.is_some() ==> r.unwrap().wf() && r.unwrap().instances@ == crate::bvh::spec_hierarchy(
                instances@,
                1,
            ).1 && r.unwrap().object_accel@ == crate::bvh::spec_hierarchy(instances@, 1).0
                && r.unwrap().instances@.to_multiset() == instances@.to_multiset()
                && r.unwrap().xforms == xforms && r.unwrap().surface_shaders == surface_shaders
                && r.unwrap().objects == objects && r.unwrap().assemblies == assemblies,
            instances_valid(
                instances@,
                objects@.len(),
                assemblies@.len(),
                xforms@.len(),
                surface_shaders@.len(),
            ) && spec_buildable(instances@) && instances@.len() <= crate::bvh::BVH_MAX_DEPTH + 1
                ==> r.is_some(),
    {
        if !check_instances(
            &instances,
            objects.len(),
            assemblies.len(),
            xforms.len(),
            surface_shaders.len(),
        ) {
            return None;
        }
        if !buildable(instances.as_slice()) {
            return None;
        }
        let mut instances = instances;
        let ghost before = instances@;
        let accel = BVH::from_objects(instances.as_mut_slice(), 1);
        match accel {
            Some(object_accel) => {
                proof {
                    let ok = |inst: Instance|
                        instance_valid(
                            inst,
                            objects@.len(),
                            assemblies@.len(),
                            xforms@.len(),
                            surface_shaders@.len(),
                        );
                    lemma_rearranged_all(before, instances@, ok);
                }
                let assembly = Assembly {
                    instances,
                    xforms,
                    surface_shaders,
                    objects,
                    assemblies,
                    object_accel,
                };
                proof {
                    assert forall|i: int|
                        0 <= i < assembly.instances@.len() implies #[trigger] assembly.instance_ok(
                        i,
                    ) by {
                        assert(instance_valid(
                            assembly.instances@[i],
                            objects@.len(),
                            assemblies@.len(),
                            xforms@.len(),
                            surface_shaders@.len(),
                        ));
                    }
                }
                Some(assembly)
            },
            None => None,
        }
    }
}

} // verus!
