use raymarcher::geometry::{Geometry, Vector};
use raymarcher::march::{march_step, March, Step, START_FACTOR_BITS};
use raymarcher::scalar::Scalar;
use raymarcher::scene::{Light, Material, Mesh, Scene};
use raymarcher::settings::RendererSettings;

fn scalar(value: f32) -> Scalar {
    Scalar::from_bits(value.to_bits())
}

fn number(s: Scalar) -> f32 {
    f32::from_bits(s.to_bits())
}

fn vector(x: f32, y: f32, z: f32) -> Vector {
    Vector { x: scalar(x), y: scalar(y), z: scalar(z) }
}

fn sphere(center: [f32; 3], radius: f32) -> Geometry {
    Geometry::Sphere { center: vector(center[0], center[1], center[2]), radius: scalar(radius) }
}

fn paint(color: [f32; 3], is_light: bool) -> Material {
    Material {
        base_color: vector(color[0], color[1], color[2]),
        diffuse: scalar(1.0),
        specular: scalar(1.0),
        shininess: scalar(10.0),
        is_light,
    }
}

fn settings(epsilon: f32) -> RendererSettings {
    RendererSettings {
        definition: 40,
        anti_aliasing: 1,
        epsilon: scalar(epsilon),
        ambient_light: scalar(0.2),
    }
}

fn sample(scene: &Scene, p: [f32; 3]) -> Vec<Vec<Scalar>> {
    scene
        .meshes
        .iter()
        .map(|mesh| {
            mesh.geometry
                .leaves()
                .iter()
                .map(|leaf| match leaf {
                    Geometry::Sphere { center, radius } => {
                        let c = [number(center.x), number(center.y), number(center.z)];
                        let d = ((p[0] - c[0]).powi(2)
                            + (p[1] - c[1]).powi(2)
                            + (p[2] - c[2]).powi(2))
                        .sqrt();
                        scalar(d - number(*radius))
                    }
                    _ => panic!("only spheres are sampled here"),
                })
                .collect()
        })
        .collect()
}

enum End {
    Miss,
    Emit(Vector),
    Shade(usize),
}

/// Marches from `origin` along `direction`, and tells how the march ended
/// and how far the ray was from the end of its reach before each step.
fn march(
    scene: &Scene,
    set: &RendererSettings,
    origin: [f32; 3],
    direction: [f32; 3],
    max_distance: f32,
    step_limit: u32,
) -> (End, Vec<f32>) {
    let mut state = March::start(scalar(number(Scalar::from_bits(START_FACTOR_BITS)) * number(set.epsilon)));
    let mut travelled = vec![];
    while state.proceeds(scalar(max_distance), step_limit) {
        let t = number(state.t);
        travelled.push(t);
        let p = [
            origin[0] + t * direction[0],
            origin[1] + t * direction[1],
            origin[2] + t * direction[2],
        ];
        match march_step(scene, set, &sample(scene, p)).unwrap() {
            Step::Emit { color } => return (End::Emit(color), travelled),
            Step::Shade { contact } => return (End::Shade(contact.mesh), travelled),
            Step::Advance { by } => state = state.advance(scalar(t + number(by))),
        }
    }
    (End::Miss, travelled)
}

#[test]
fn a_ray_at_the_centre_of_a_sphere_hits_it_in_few_steps() {
    let scene = Scene {
        meshes: vec![Mesh { geometry: sphere([0.0, 0.0, -20.0], 2.0), material: paint([1.0, 0.0, 0.0], false) }],
    };
    let set = settings(1e-3);
    let (end, travelled) = march(&scene, &set, [0.0, 0.0, 0.0], [0.0, 0.0, -1.0], 100.0, 1000);
    assert!(matches!(end, End::Shade(0)));
    assert!(travelled.len() <= 4, "{travelled:?}");
    for pair in travelled.windows(2) {
        assert!(pair[0] < pair[1]);
    }
    assert!((travelled.last().unwrap() - 18.0).abs() < 1e-2);
    assert!(scene.has_sphere_lights());
    assert_eq!(scene.lights(), Vec::<Light>::new());
}

#[test]
fn a_ray_that_cannot_reach_anything_misses() {
    let scene = Scene {
        meshes: vec![Mesh { geometry: sphere([0.0, 0.0, -20.0], 2.0), material: paint([1.0, 0.0, 0.0], false) }],
    };
    let set = settings(1e-3);
    let (end, _) = march(&scene, &set, [0.0, 0.0, 0.0], [0.0, 0.0, 1.0], 17.0, 1000);
    assert!(matches!(end, End::Miss));
    let (end, _) = march(&scene, &set, [0.0, 0.0, 0.0], [0.0, 0.0, -1.0], 17.0, 1000);
    assert!(matches!(end, End::Miss));
    let (end, _) = march(&scene, &set, [0.0, 0.0, 0.0], [1.0, 0.0, 0.0], 1000.0, 1000);
    assert!(matches!(end, End::Miss));
}

#[test]
fn a_light_is_seen_in_its_own_colour() {
    let scene = Scene {
        meshes: vec![Mesh { geometry: sphere([3.0, 2.0, -10.0], 3.0), material: paint([0.25, 0.5, 0.75], true) }],
    };
    let (end, _) = march(&scene, &settings(1.0), [0.0, 0.0, 10.0], [0.0, 0.0, -1.0], 100.0, 1000);
    match end {
        End::Emit(color) => assert_eq!(color, vector(0.25, 0.5, 0.75)),
        _ => panic!("the light was not reached"),
    }
    let norm = (3.0f32 * 3.0 + 2.0 * 2.0 + 20.0 * 20.0).sqrt();
    let aimed = [3.0 / norm, 2.0 / norm, -20.0 / norm];
    let (end, _) = march(&scene, &settings(1e-3), [0.0, 0.0, 10.0], aimed, 100.0, 1000);
    match end {
        End::Emit(color) => assert_eq!(color, vector(0.25, 0.5, 0.75)),
        _ => panic!("the light was not reached"),
    }
}

#[test]
fn a_march_gives_up_at_the_step_limit() {
    let scene = Scene {
        meshes: vec![Mesh { geometry: sphere([0.0, 0.0, -20.0], 2.0), material: paint([1.0, 0.0, 0.0], false) }],
    };
    let set = settings(1e-3);
    let (end, travelled) = march(&scene, &set, [0.0, 0.0, 0.0], [0.0, 0.0, -1.0], 100.0, 1);
    assert!(matches!(end, End::Miss));
    assert_eq!(travelled.len(), 1);
    let (end, travelled) = march(&scene, &set, [0.0, 0.0, 0.0], [0.0, 0.0, -1.0], 100.0, 0);
    assert!(matches!(end, End::Miss));
    assert!(travelled.is_empty());
}

#[test]
fn a_march_counts_its_steps() {
    let start = March::start(scalar(0.01));
    assert_eq!(start, March { t: scalar(0.01), steps: 0 });
    let next = start.advance(scalar(2.5));
    assert_eq!(next, March { t: scalar(2.5), steps: 1 });
    let last = March { t: scalar(1.0), steps: u32::MAX }.advance(scalar(2.0));
    assert_eq!(last, March { t: scalar(2.0), steps: u32::MAX });
    assert!(!last.proceeds(scalar(10.0), u32::MAX));
}

#[test]
fn a_march_goes_on_below_the_reach_of_the_ray() {
    let state = March { t: scalar(5.0), steps: 3 };
    assert!(state.proceeds(scalar(5.5), 4));
    assert!(!state.proceeds(scalar(5.0), 4));
    assert!(!state.proceeds(scalar(4.0), 4));
    assert!(!state.proceeds(scalar(5.5), 3));
    assert!(!state.proceeds(scalar(f32::NAN), 4));
    assert!(!March { t: scalar(f32::NAN), steps: 0 }.proceeds(scalar(5.5), 4));
}

#[test]
fn a_step_is_decided_by_the_nearest_surface() {
    let scene = Scene {
        meshes: vec![
            Mesh { geometry: sphere([0.0, 0.0, 0.0], 1.0), material: paint([1.0, 1.0, 1.0], true) },
            Mesh {
                geometry: Geometry::Group {
                    geometry: vec![sphere([5.0, 0.0, 0.0], 1.0), sphere([9.0, 0.0, 0.0], 1.0)],
                },
                material: paint([1.0, 0.0, 0.0], false),
            },
        ],
    };
    let set = settings(1e-3);
    let far = vec![vec![scalar(3.0)], vec![scalar(2.0), scalar(6.0)]];
    match march_step(&scene, &set, &far).unwrap() {
        Step::Advance { by } => assert_eq!(by, scalar(2.0)),
        _ => panic!("nothing is within epsilon"),
    }
    let at_the_light = vec![vec![scalar(5e-4)], vec![scalar(2.0), scalar(6.0)]];
    match march_step(&scene, &set, &at_the_light).unwrap() {
        Step::Emit { color } => assert_eq!(color, vector(1.0, 1.0, 1.0)),
        _ => panic!("the light is within epsilon"),
    }
    let at_the_ball = vec![vec![scalar(3.0)], vec![scalar(4.0), scalar(-0.5)]];
    match march_step(&scene, &set, &at_the_ball).unwrap() {
        Step::Shade { contact } => {
            assert_eq!((contact.mesh, contact.leaf), (1, 1));
            assert_eq!(contact.distance, scalar(-0.5));
            assert_eq!(contact.material, paint([1.0, 0.0, 0.0], false));
            match contact.geometry {
                Geometry::Sphere { center, .. } => assert_eq!(*center, vector(9.0, 0.0, 0.0)),
                _ => panic!("the contact is on a sphere"),
            }
        }
        _ => panic!("the ball is within epsilon"),
    }
    let on_the_edge = vec![vec![scalar(1e-3)], vec![scalar(1e-3), scalar(6.0)]];
    match march_step(&scene, &set, &on_the_edge).unwrap() {
        Step::Advance { by } => assert_eq!(by, scalar(1e-3)),
        _ => panic!("epsilon itself is not within epsilon"),
    }
}

#[test]
fn level_meshes_are_decided_by_their_order() {
    let scene = Scene {
        meshes: vec![
            Mesh { geometry: sphere([0.0, 0.0, 0.0], 1.0), material: paint([1.0, 0.0, 0.0], false) },
            Mesh { geometry: sphere([0.0, 0.0, 0.0], 1.0), material: paint([1.0, 1.0, 1.0], true) },
        ],
    };
    let level = vec![vec![scalar(0.0)], vec![scalar(0.0)]];
    assert!(matches!(march_step(&scene, &settings(1e-3), &level), Some(Step::Shade { .. })));
    let contact = scene.nearest(&level).unwrap();
    assert_eq!(contact.mesh, 0);
}

#[test]
fn a_scene_without_a_nearest_surface_decides_nothing() {
    let set = settings(1e-3);
    let empty = Scene { meshes: vec![] };
    assert!(march_step(&empty, &set, &vec![]).is_none());
    assert!(empty.nearest(&vec![]).is_none());
    let scene = Scene {
        meshes: vec![
            Mesh { geometry: sphere([0.0, 0.0, 0.0], 1.0), material: paint([1.0, 0.0, 0.0], false) },
            Mesh { geometry: sphere([4.0, 0.0, 0.0], 1.0), material: paint([1.0, 0.0, 0.0], false) },
        ],
    };
    assert!(march_step(&scene, &set, &vec![vec![scalar(1.0)]]).is_none());
    assert!(march_step(&scene, &set, &vec![vec![scalar(1.0)], vec![]]).is_none());
    assert!(march_step(&scene, &set, &vec![vec![scalar(1.0)], vec![scalar(f32::NAN)]]).is_none());
    assert!(march_step(&scene, &set, &vec![vec![scalar(1.0)], vec![scalar(2.0)]]).is_some());
    let hollow = Scene {
        meshes: vec![Mesh {
            geometry: Geometry::Group { geometry: vec![] },
            material: paint([1.0, 0.0, 0.0], false),
        }],
    };
    assert!(march_step(&hollow, &set, &vec![vec![]]).is_none());
}

#[test]
fn a_lone_nan_moves_the_ray_on_by_nan() {
    let scene = Scene {
        meshes: vec![Mesh { geometry: sphere([0.0, 0.0, 0.0], 1.0), material: paint([1.0, 0.0, 0.0], false) }],
    };
    match march_step(&scene, &settings(1e-3), &vec![vec![scalar(f32::NAN)]]).unwrap() {
        Step::Advance { by } => assert!(by.is_nan()),
        _ => panic!("a NaN is not within epsilon"),
    }
}

#[test]
fn the_lights_are_the_emissive_spheres_in_order() {
    let scene = Scene {
        meshes: vec![
            Mesh { geometry: sphere([10.0, 2.0, -10.0], 1.0), material: paint([1.0, 1.0, 1.0], true) },
            Mesh { geometry: sphere([0.0, 0.0, 0.0], 1.0), material: paint([1.0, 0.0, 0.0], false) },
            Mesh { geometry: sphere([-4.0, 0.0, 1.0], 0.5), material: paint([0.0, 0.0, 1.0], true) },
        ],
    };
    assert!(scene.has_sphere_lights());
    assert_eq!(
        scene.lights(),
        vec![
            Light { position: vector(10.0, 2.0, -10.0), color: vector(1.0, 1.0, 1.0) },
            Light { position: vector(-4.0, 0.0, 1.0), color: vector(0.0, 0.0, 1.0) },
        ]
    );
}

#[test]
fn a_light_that_is_no_sphere_is_found_out() {
    let scene = Scene {
        meshes: vec![
            Mesh { geometry: sphere([0.0, 0.0, 0.0], 1.0), material: paint([1.0, 1.0, 1.0], true) },
            Mesh {
                geometry: Geometry::Group { geometry: vec![sphere([5.0, 0.0, 0.0], 1.0)] },
                material: paint([1.0, 1.0, 1.0], true),
            },
        ],
    };
    assert!(!scene.has_sphere_lights());
    let unlit = Scene {
        meshes: vec![Mesh {
            geometry: Geometry::Group { geometry: vec![sphere([5.0, 0.0, 0.0], 1.0)] },
            material: paint([1.0, 1.0, 1.0], false),
        }],
    };
    assert!(unlit.has_sphere_lights());
}

#[test]
fn settings_are_valid_with_a_sample_and_a_positive_epsilon() {
    assert!(settings(1e-3).is_valid());
    assert!(!settings(0.0).is_valid());
    assert!(!settings(-0.0).is_valid());
    assert!(!settings(-1.0).is_valid());
    assert!(!settings(f32::NAN).is_valid());
    assert!(settings(f32::INFINITY).is_valid());
    let none = RendererSettings { anti_aliasing: 0, ..settings(1e-3) };
    assert!(!none.is_valid());
}

#[test]
fn the_sample_rows_are_rows_times_samples() {
    let set = RendererSettings { definition: 400, anti_aliasing: 3, ..settings(1e-3) };
    assert_eq!(set.sample_rows(), Some(1200));
    let wide = RendererSettings { definition: 65_536, anti_aliasing: 65_536, ..settings(1e-3) };
    assert_eq!(wide.sample_rows(), None);
    let edge = RendererSettings { definition: 65_537, anti_aliasing: 65_535, ..settings(1e-3) };
    assert_eq!(edge.sample_rows(), Some(4_294_967_295));
}
