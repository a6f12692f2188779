use std::cell::RefCell;

use psychopath::bbox::BBox;
use psychopath::cuboid::{box_hit, Cuboid};
use psychopath::ray::{AccelRay, Ray, MAX_T_INFINITY};
use psychopath::scene::{
    shader_choice, Assembly, Instance, InstanceType, Object, ShaderChoice, Surface,
    SurfaceIntersection,
};
use psychopath::tracer::{split_rays_by_direction, split_rays_by_direction_range, Tracer};
use psychopath::transform::Matrix;
use psychopath::vector::Vector;

/// A cuboid around the origin of its own space that notes what it is
/// asked, and leaves the answer to the cuboid.
struct Block {
    cuboid: Cuboid,
    shaders: RefCell<Vec<ShaderChoice>>,
    spaces: RefCell<Vec<usize>>,
}

impl Block {
    fn new(handle: u64, half: i32) -> Block {
        Block {
            cuboid: Cuboid { id: handle, bounds: around(0, 0, 0, half) },
            shaders: RefCell::new(Vec::new()),
            spaces: RefCell::new(Vec::new()),
        }
    }
}

impl Surface for Block {
    fn intersect_rays(
        &self,
        accel_rays: &mut [AccelRay],
        wrays: &[Ray],
        isects: &mut [SurfaceIntersection],
        shader: ShaderChoice,
        space: &[Matrix],
    ) {
        self.shaders.borrow_mut().push(shader);
        self.spaces.borrow_mut().push(space.len());
        assert_eq!(isects.len(), wrays.len());
        self.cuboid.intersect_rays(accel_rays, wrays, isects, shader, space);
    }
}

fn around(x: i32, y: i32, z: i32, half: i32) -> Vec<BBox> {
    vec![BBox {
        min: Vector::new(x - half, y - half, z - half),
        max: Vector::new(x + half, y + half, z + half),
    }]
}

fn shift(x: i32, y: i32, z: i32) -> Matrix {
    Matrix { translation: Vector::new(x, y, z), ..Matrix::identity() }
}

fn ray(from: (i32, i32, i32), dir: (i32, i32, i32)) -> Ray {
    Ray::new(
        Vector::new(from.0, from.1, from.2),
        Vector::new(dir.0, dir.1, dir.2),
        0,
        550_000,
        false,
    )
    .unwrap()
}

fn object_at(id: usize, index: usize, x: i32, xform: Option<(usize, usize)>, shader: Option<usize>) -> Instance {
    Instance {
        instance_type: InstanceType::Object,
        data_index: index,
        id,
        transform_indices: xform,
        surface_shader_index: shader,
        bounds: around(x, 0, 0, 10),
    }
}

#[test]
fn an_empty_scene_is_missed_by_every_ray() {
    let scene: Assembly<Block> =
        Assembly::new(Vec::new(), Vec::new(), Vec::new(), Vec::new(), Vec::new()).unwrap();
    let mut tracer = Tracer::from_assembly(&scene);
    let rays = vec![ray((0, 0, 0), (1, 0, 0)), ray((5, 5, 5), (0, -1, 0))];
    let isects = tracer.trace(&rays);
    assert_eq!(isects, &[SurfaceIntersection::Miss, SurfaceIntersection::Miss][..]);
    let none: Vec<Ray> = Vec::new();
    assert!(tracer.trace(&none).is_empty());
}

#[test]
fn objects_in_their_own_space_are_hit_where_their_instances_are() {
    // One block around the origin of its own space, placed twice: 100 and
    // 300 units along x.
    let scene = Assembly::new(
        vec![object_at(0, 0, 100, Some((0, 1)), Some(0)), object_at(1, 0, 300, Some((1, 2)), None)],
        vec![shift(-100, 0, 0), shift(-300, 0, 0)],
        vec![42],
        vec![Object::Surface(Block::new(7, 10))],
        Vec::new(),
    )
    .unwrap();
    let mut tracer = Tracer::from_assembly(&scene);
    let rays = vec![
        ray((0, 0, 0), (1000, 0, 0)),
        ray((500, 0, 0), (-1000, 0, 0)),
        ray((200, 0, 0), (0, 1000, 0)),
        ray((300, 50, 0), (0, -100, 0)),
    ];
    let isects = tracer.trace(&rays).to_vec();
    // the first instance begins at x = 90, 9 hundredths of the direction
    // away; the second ends at x = 310, 19 hundredths away from x = 500
    assert_eq!(
        isects[0],
        SurfaceIntersection::Hit {
            t: (90 * 65536 + 999) / 1000,
            handle: 7,
            shader: ShaderChoice::Assigned(42)
        }
    );
    assert_eq!(isects[1], SurfaceIntersection::Hit { t: (190 * 65536 + 999) / 1000, handle: 7, shader: ShaderChoice::Unassigned });
    assert_eq!(isects[2], SurfaceIntersection::Miss);
    assert_eq!(isects[3], SurfaceIntersection::Hit { t: (40 * 65536 + 99) / 100, handle: 7, shader: ShaderChoice::Unassigned });
    if let Object::Surface(block) = &scene.objects[0] {
        let shaders = block.shaders.borrow();
        assert!(shaders.contains(&ShaderChoice::Assigned(42)));
        assert!(shaders.contains(&ShaderChoice::Unassigned));
        assert!(block.spaces.borrow().iter().all(|&samples| samples == 1));
    } else {
        panic!("the object is a surface");
    }
    // the tracer can be used again
    let again = tracer.trace(&rays).to_vec();
    assert_eq!(again, isects);
}

#[test]
fn lights_ignore_the_shader_of_their_instance() {
    let scene = Assembly::new(
        vec![object_at(0, 0, 0, None, Some(0))],
        Vec::new(),
        vec![3],
        vec![Object::SurfaceLight(Block::new(1, 10))],
        Vec::new(),
    )
    .unwrap();
    let mut tracer = Tracer::from_assembly(&scene);
    let isects = tracer.trace(&[ray((0, 0, 100), (0, 0, -100))]).to_vec();
    assert_eq!(isects[0], SurfaceIntersection::Hit { t: (90 * 65536 + 99) / 100, handle: 1, shader: ShaderChoice::Unassigned });
    if let Object::SurfaceLight(block) = &scene.objects[0] {
        assert_eq!(*block.shaders.borrow(), vec![ShaderChoice::Unassigned]);
        assert_eq!(*block.spaces.borrow(), vec![0]);
    } else {
        panic!("the object is a light");
    }
}

#[test]
fn nested_assemblies_add_up_their_transforms() {
    // A block around the origin sits in an inner assembly 50 units along
    // y; the inner assembly sits in the scene 100 units along x.
    let inner = Assembly::new(
        vec![Instance {
            instance_type: InstanceType::Object,
            data_index: 0,
            id: 0,
            transform_indices: Some((0, 1)),
            surface_shader_index: None,
            bounds: around(0, 50, 0, 10),
        }],
        vec![shift(0, -50, 0)],
        Vec::new(),
        vec![Object::Surface(Block::new(9, 10))],
        Vec::new(),
    )
    .unwrap();
    let scene = Assembly::new(
        vec![Instance {
            instance_type: InstanceType::Assembly,
            data_index: 0,
            id: 0,
            transform_indices: Some((0, 1)),
            surface_shader_index: None,
            bounds: around(100, 50, 0, 10),
        }],
        vec![shift(-100, 0, 0)],
        Vec::new(),
        Vec::new(),
        vec![inner],
    )
    .unwrap();
    let mut tracer = Tracer::from_assembly(&scene);
    let rays = vec![
        ray((100, 50, 100), (0, 0, -100)),
        ray((0, 0, 100), (0, 0, -100)),
        ray((100, 0, 100), (0, 0, -100)),
    ];
    let isects = tracer.trace(&rays).to_vec();
    assert_eq!(isects[0], SurfaceIntersection::Hit { t: (90 * 65536 + 99) / 100, handle: 9, shader: ShaderChoice::Unassigned });
    assert_eq!(isects[1], SurfaceIntersection::Miss);
    assert_eq!(isects[2], SurfaceIntersection::Miss);
    if let Object::Surface(block) = &scene.assemblies[0].objects[0] {
        assert_eq!(*block.spaces.borrow(), vec![1]);
    }
}

#[test]
fn the_nearest_of_many_instances_is_found() {
    let mut instances = Vec::new();
    for i in 0..40 {
        instances.push(Instance {
            instance_type: InstanceType::Object,
            data_index: 0,
            id: i,
            transform_indices: Some((i, i + 1)),
            surface_shader_index: None,
            bounds: around(0, 0, 100 * i as i32, 10),
        });
    }
    let xforms: Vec<Matrix> = (0..40).map(|i| shift(0, 0, -100 * i)).collect();
    let scene = Assembly::new(
        instances,
        xforms,
        Vec::new(),
        vec![Object::Surface(Block::new(5, 10))],
        Vec::new(),
    )
    .unwrap();
    let mut tracer = Tracer::from_assembly(&scene);
    let mut rays = Vec::new();
    for i in 0..39 {
        // from between two blocks towards the higher one
        rays.push(ray((0, 0, 100 * i + 50), (0, 0, 100)));
    }
    rays.push(ray((0, 50, 0), (0, 0, 100)));
    let isects = tracer.trace(&rays).to_vec();
    for i in 0..39 {
        assert_eq!(isects[i], SurfaceIntersection::Hit { t: (40 * 65536 + 99) / 100, handle: 5, shader: ShaderChoice::Unassigned });
    }
    assert_eq!(isects[39], SurfaceIntersection::Miss);
}

#[test]
fn instances_that_refer_to_nothing_are_refused() {
    let missing_object: Option<Assembly<Block>> = Assembly::new(
        vec![object_at(0, 0, 0, None, None)],
        Vec::new(),
        Vec::new(),
        Vec::new(),
        Vec::new(),
    );
    assert!(missing_object.is_none());
    let missing_transform = Assembly::new(
        vec![object_at(0, 0, 0, Some((0, 1)), None)],
        Vec::new(),
        Vec::new(),
        vec![Object::Surface(Block::new(1, 1))],
        Vec::new(),
    );
    assert!(missing_transform.is_none());
    let empty_transform = Assembly::new(
        vec![object_at(0, 0, 0, Some((0, 0)), None)],
        vec![Matrix::identity()],
        Vec::new(),
        vec![Object::Surface(Block::new(1, 1))],
        Vec::new(),
    );
    assert!(empty_transform.is_none());
    let missing_shader = Assembly::new(
        vec![object_at(0, 0, 0, None, Some(0))],
        Vec::new(),
        Vec::new(),
        vec![Object::Surface(Block::new(1, 1))],
        Vec::new(),
    );
    assert!(missing_shader.is_none());
    let mut unbounded = object_at(0, 0, 0, None, None);
    unbounded.bounds.clear();
    let no_bounds = Assembly::new(
        vec![unbounded],
        Vec::new(),
        Vec::new(),
        vec![Object::Surface(Block::new(1, 1))],
        Vec::new(),
    );
    assert!(no_bounds.is_none());
}

fn directed(id: u32, dir: (i32, i32, i32)) -> AccelRay {
    AccelRay {
        orig: Vector::new(0, 0, 0),
        dir: Vector::new(dir.0, dir.1, dir.2),
        max_t: MAX_T_INFINITY,
        time: 0,
        flags: 0,
        id,
    }
}

fn octant(ray: &AccelRay) -> usize {
    (if ray.dir.x >= 0 { 0 } else { 4 })
        + (if ray.dir.y >= 0 { 0 } else { 2 })
        + (if ray.dir.z >= 0 { 0 } else { 1 })
}

#[test]
fn rays_are_sorted_into_the_octants_of_their_direction() {
    let mut rays = Vec::new();
    let mut id = 0;
    for round in 0..5 {
        for x in [-3, 0, 2] {
            for y in [1, -1, 0] {
                for z in [-7, 7, 0] {
                    rays.push(directed(id, (x * (round + 1), y, z)));
                    id += 1;
                }
            }
        }
    }
    let mut sorted = rays.clone();
    let points = split_rays_by_direction(&mut sorted);
    assert_eq!(points[0], 0);
    assert_eq!(points[8], rays.len());
    for m in 0..8 {
        assert!(points[m] <= points[m + 1]);
        for ray in &sorted[points[m]..points[m + 1]] {
            assert_eq!(octant(ray), m);
        }
    }
    let mut ids: Vec<u32> = sorted.iter().map(|r| r.id).collect();
    ids.sort();
    assert_eq!(ids, (0..rays.len() as u32).collect::<Vec<u32>>());

    // the same rays are sorted the same way
    let mut again = rays.clone();
    let same = split_rays_by_direction(&mut again);
    assert_eq!(same, points);
    for (a, b) in again.iter().zip(sorted.iter()) {
        assert_eq!(a.id, b.id);
    }
}

#[test]
fn rays_outside_the_range_stay_where_they_are() {
    let mut rays = vec![
        directed(0, (-1, -1, -1)),
        directed(1, (-1, 1, 1)),
        directed(2, (1, 1, 1)),
        directed(3, (1, -1, 1)),
        directed(4, (1, 1, 1)),
    ];
    let points = split_rays_by_direction_range(&mut rays, 1, 4);
    assert_eq!(rays[0].id, 0);
    assert_eq!(rays[4].id, 4);
    assert_eq!(points, [1, 2, 2, 3, 3, 4, 4, 4, 4]);
    assert_eq!(rays[1].id, 2);
    assert_eq!(rays[2].id, 3);
    assert_eq!(rays[3].id, 1);
    let mut none: Vec<AccelRay> = Vec::new();
    assert_eq!(split_rays_by_direction(&mut none), [0; 9]);
}

#[test]
fn a_shadow_ray_stops_at_a_hit_within_its_reach() {
    // Two blocks along x; a shadow ray along x meets both, and is done at
    // the first that it is tested against.
    let scene = Assembly::new(
        vec![object_at(0, 0, 100, Some((0, 1)), None), object_at(1, 0, 300, Some((1, 2)), None)],
        vec![shift(-100, 0, 0), shift(-300, 0, 0)],
        Vec::new(),
        vec![Object::Surface(Block::new(3, 10))],
        Vec::new(),
    )
    .unwrap();
    let mut tracer = Tracer::from_assembly(&scene);
    let shadow = Ray::new(Vector::new(0, 0, 0), Vector::new(1, 0, 0), 0, 550_000, true).unwrap();
    let away = Ray::new(Vector::new(0, 0, 0), Vector::new(-1, 0, 0), 0, 550_000, true).unwrap();
    let isects = tracer.trace(&[shadow, away]);
    match isects[0] {
        SurfaceIntersection::Hit { t, handle, shader } => {
            assert_eq!(shader, ShaderChoice::Unassigned);
            assert_eq!(handle, 3);
            assert!(t == 90 * 0x1_0000 || t == 290 * 0x1_0000);
            assert!(t < MAX_T_INFINITY);
        }
        SurfaceIntersection::Miss => panic!("the shadow ray is occluded"),
    }
    assert_eq!(isects[1], SurfaceIntersection::Miss);
}

#[test]
fn the_nearest_hit_is_found_through_nested_assemblies() {
    // The same block placed by the scene itself, far along x, and by a
    // nested assembly, nearer: the nearer one is on record.
    let inner = Assembly::new(
        vec![object_at(0, 0, 0, None, None)],
        Vec::new(),
        Vec::new(),
        vec![Object::Surface(Block::new(11, 10))],
        Vec::new(),
    )
    .unwrap();
    let scene = Assembly::new(
        vec![
            object_at(0, 0, 500, Some((0, 1)), None),
            Instance {
                instance_type: InstanceType::Assembly,
                data_index: 0,
                id: 1,
                transform_indices: Some((1, 2)),
                surface_shader_index: None,
                bounds: around(200, 0, 0, 10),
            },
        ],
        vec![shift(-500, 0, 0), shift(-200, 0, 0)],
        Vec::new(),
        vec![Object::Surface(Block::new(12, 10))],
        vec![inner],
    )
    .unwrap();
    let mut tracer = Tracer::from_assembly(&scene);
    let isects = tracer.trace(&[ray((0, 0, 0), (1, 0, 0)), ray((1000, 0, 0), (-1, 0, 0))]);
    assert_eq!(isects[0], SurfaceIntersection::Hit { t: 190 * 0x1_0000, handle: 11, shader: ShaderChoice::Unassigned });
    assert_eq!(isects[1], SurfaceIntersection::Hit { t: 490 * 0x1_0000, handle: 12, shader: ShaderChoice::Unassigned });
}

#[test]
fn cuboids_are_surfaces_whose_nearest_hit_is_found() {
    // A grid of cuboids of different sizes, placed where they are.
    let mut cuboids: Vec<Object<Cuboid>> = Vec::new();
    let mut instances: Vec<Instance> = Vec::new();
    let mut boxes: Vec<BBox> = Vec::new();
    let mut n: usize = 0;
    for gx in 0..4 {
        for gy in 0..3 {
            for gz in 0..2 {
                let half = 5 + ((gx + 2 * gy + 3 * gz) % 4) as i32 * 3;
                let (x, y, z) = (gx as i32 * 70 - 100, gy as i32 * 60 - 60, gz as i32 * 90 - 40);
                let bounds = around(x, y, z, half);
                boxes.push(bounds[0]);
                cuboids.push(Object::Surface(Cuboid { id: 100 + n as u64, bounds: bounds.clone() }));
                instances.push(Instance {
                    instance_type: InstanceType::Object,
                    data_index: n,
                    id: n,
                    transform_indices: None,
                    surface_shader_index: None,
                    bounds,
                });
                n += 1;
            }
        }
    }
    let scene = Assembly::new(instances, Vec::new(), Vec::new(), cuboids, Vec::new()).unwrap();
    let mut rays: Vec<Ray> = Vec::new();
    for a in -3i32..4 {
        for b in -3i32..4 {
            rays.push(ray((-400, a * 37, b * 29), (5, a.signum(), b.signum())));
            rays.push(ray((a * 41, 300, b * 17), (b, -7, a)));
            rays.push(ray((a * 13, b * 23, -500), (0, 0, 1)));
        }
    }
    // and three rays at the middle of each cuboid
    for b in boxes.iter() {
        let (x, y, z) = ((b.min.x + b.max.x) / 2, (b.min.y + b.max.y) / 2, (b.min.z + b.max.z) / 2);
        rays.push(ray((-400, 0, 0), (x + 400, y, z)));
        rays.push(ray((0, 300, 0), (x, y - 300, z)));
        rays.push(ray((0, 0, -500), (x, y, z + 500)));
    }
    let mut tracer = Tracer::from_assembly(&scene);
    let isects = tracer.trace(&rays).to_vec();
    let mut hits = 0;
    for (i, wr) in rays.iter().enumerate() {
        let probe = AccelRay::new(wr, i as u32);
        let nearest = boxes.iter().filter_map(|b| box_hit(b, &probe)).min();
        match (isects[i], nearest) {
            (SurfaceIntersection::Miss, None) => {}
            (SurfaceIntersection::Hit { t, handle, shader }, Some(best)) => {
                assert_eq!(shader, ShaderChoice::Unassigned);
                assert_eq!(t, best);
                let own = boxes[(handle - 100) as usize];
                assert_eq!(box_hit(&own, &probe), Some(best));
                hits += 1;
            }
            (found, expected) => panic!("ray {}: {:?} on record, {:?} expected", i, found, expected),
        }
    }
    assert!(hits >= 72);
}

#[test]
fn a_cuboid_without_boxes_is_never_met() {
    let hollow = Cuboid { id: 1, bounds: Vec::new() };
    assert!(!hollow.is_solid());
    let mut rays = vec![AccelRay::new(&ray((0, 0, 0), (1, 0, 0)), 0)];
    let wrays = vec![ray((0, 0, 0), (1, 0, 0))];
    let mut isects = vec![SurfaceIntersection::Miss];
    hollow.intersect_rays(&mut rays, &wrays, &mut isects, ShaderChoice::Unassigned, &[]);
    assert_eq!(isects, vec![SurfaceIntersection::Miss]);
    assert_eq!(rays[0].max_t, MAX_T_INFINITY);
    let solid = Cuboid { id: 2, bounds: around(50, 0, 0, 10) };
    assert!(solid.is_solid());
    solid.intersect_rays(&mut rays, &wrays, &mut isects, ShaderChoice::Unassigned, &[]);
    assert_eq!(isects, vec![SurfaceIntersection::Hit { t: 40 * 0x1_0000, handle: 2, shader: ShaderChoice::Unassigned }]);
    assert_eq!(rays[0].max_t, 40 * 0x1_0000);
    assert!(!rays[0].is_done());
}

#[test]
fn hits_are_recorded_with_the_shader_of_their_instance() {
    // A cuboid placed three times: with a shader, without one, and as a
    // light whose instance has a shader.
    let placed = |id: usize, index: usize, x: i32, shader: Option<usize>| Instance {
        instance_type: InstanceType::Object,
        data_index: index,
        id,
        transform_indices: Some((id, id + 1)),
        surface_shader_index: shader,
        bounds: around(x, 0, 0, 10),
    };
    let scene = Assembly::new(
        vec![placed(0, 0, 100, Some(1)), placed(1, 0, 300, None), placed(2, 1, 500, Some(0))],
        vec![shift(-100, 0, 0), shift(-300, 0, 0), shift(-500, 0, 0)],
        vec![8, 9],
        vec![
            Object::Surface(Cuboid { id: 21, bounds: around(0, 0, 0, 10) }),
            Object::SurfaceLight(Cuboid { id: 22, bounds: around(0, 0, 0, 10) }),
        ],
        Vec::new(),
    )
    .unwrap();
    let mut tracer = Tracer::from_assembly(&scene);
    let isects = tracer
        .trace(&[ray((100, 50, 0), (0, -1, 0)), ray((300, 50, 0), (0, -1, 0)), ray((500, 50, 0), (0, -1, 0))])
        .to_vec();
    let t = 40 * 0x1_0000;
    assert_eq!(isects[0], SurfaceIntersection::Hit { t, handle: 21, shader: ShaderChoice::Assigned(9) });
    assert_eq!(isects[1], SurfaceIntersection::Hit { t, handle: 21, shader: ShaderChoice::Unassigned });
    assert_eq!(isects[2], SurfaceIntersection::Hit { t, handle: 22, shader: ShaderChoice::Unassigned });
}

#[test]
fn the_shader_of_an_object_is_that_of_its_instance_unless_it_is_a_light() {
    let surface = Object::Surface(Cuboid { id: 1, bounds: around(0, 0, 0, 1) });
    let light = Object::SurfaceLight(Cuboid { id: 2, bounds: around(0, 0, 0, 1) });
    assert_eq!(shader_choice(&surface, Some(4)), ShaderChoice::Assigned(4));
    assert_eq!(shader_choice(&surface, None), ShaderChoice::Unassigned);
    assert_eq!(shader_choice(&light, Some(4)), ShaderChoice::Unassigned);
    assert_eq!(shader_choice(&light, None), ShaderChoice::Unassigned);
}
